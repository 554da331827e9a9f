//! The lexer: turns text into `+`, `-`, `d`, numerals and an end marker.
use vstd::prelude::*;

use crate::digits::is_digit;

verus! {

#[derive(Debug, PartialEq, Eq, Clone, Copy, Structural)]
pub enum TokenKind {
    Plus,
    Minus,
    D,
    Number,
    EOF,
}

/// A token: its kind and, for a numeral, its digits.
#[derive(Debug, PartialEq)]
pub struct Token {
    pub kind: TokenKind,
    pub s: String,
}

impl View for Token {
    type V = (TokenKind, Seq<char>);

    open spec fn view(&self) -> (TokenKind, Seq<char>) {
        (self.kind, self.s@)
    }
}

pub type LexErr = String;

/// A token that carries no text.
pub open spec fn plain(k: TokenKind) -> (TokenKind, Seq<char>) {
    (k, Seq::empty())
}

pub open spec fn token_views(ts: Seq<Token>) -> Seq<(TokenKind, Seq<char>)> {
    ts.map_values(|t: Token| t@)
}

pub open spec fn text_views(es: Seq<String>) -> Seq<Seq<char>> {
    es.map_values(|e: String| e@)
}

/// How many digits `s` starts with.
pub open spec fn digit_run(s: Seq<char>) -> nat
    decreases s.len(),
{
    if s.len() > 0 && is_digit(s[0]) {
        1 + digit_run(s.drop_first())
    } else {
        0
    }
}

pub open spec fn is_token_char(c: char) -> bool {
    c == '+' || c == '-' || c == 'd' || is_digit(c)
}

/// The tokens of `s`; characters that start no token are skipped here and
/// reported by `lex_errors`.
pub open spec fn lex_chars(s: Seq<char>) -> Seq<(TokenKind, Seq<char>)>
    decreases s.len(),
{
    if s.len() == 0 {
        seq![plain(TokenKind::EOF)]
    } else if s[0] == '+' {
        seq![plain(TokenKind::Plus)] + lex_chars(s.drop_first())
    } else if s[0] == '-' {
        seq![plain(TokenKind::Minus)] + lex_chars(s.drop_first())
    } else if s[0] == 'd' {
        seq![plain(TokenKind::D)] + lex_chars(s.drop_first())
    } else if is_digit(s[0]) {
        let n = digit_run(s) as int;
        proof {
            lemma_digit_run_bound(s);
        }
        seq![(TokenKind::Number, s.take(n))] + lex_chars(s.skip(n))
    } else {
        lex_chars(s.drop_first())
    }
}

pub open spec fn unexpected_char_text(c: char) -> Seq<char> {
    "unexpected character '"@ + seq![c] + "'"@
}

/// One message for each character of `s` that starts no token, in order.
pub open spec fn lex_errors(s: Seq<char>) -> Seq<Seq<char>>
    decreases s.len(),
{
    if s.len() == 0 {
        Seq::empty()
    } else if is_token_char(s[0]) {
        lex_errors(s.drop_first())
    } else {
        seq![unexpected_char_text(s[0])] + lex_errors(s.drop_first())
    }
}

pub proof fn lemma_digit_run_bound(s: Seq<char>)
    ensures
        digit_run(s) <= s.len(),
        s.len() > 0 && is_digit(s[0]) ==> digit_run(s) >= 1,
        forall|j: int| 0 <= j < digit_run(s) ==> is_digit(#[trigger] s[j]),
    decreases s.len(),
{
    if s.len() > 0 && is_digit(s[0]) {
        let t = s.drop_first();
        lemma_digit_run_bound(t);
        assert forall|j: int| 0 <= j < digit_run(s) implies is_digit(#[trigger] s[j]) by {
            if j > 0 {
                assert(s[j] == t[j - 1]);
            }
        }
    }
}

/// A run of `k` digits followed by a non-digit, or by the end, is the whole
/// digit run.
pub proof fn lemma_digit_run_exact(s: Seq<char>, k: int)
    requires
        0 <= k <= s.len(),
        forall|j: int| 0 <= j < k ==> is_digit(#[trigger] s[j]),
        k == s.len() || !is_digit(s[k]),
    ensures
        digit_run(s) == k,
    decreases k,
{
    if k > 0 {
        let t = s.drop_first();
        assert forall|j: int| 0 <= j < k - 1 implies is_digit(#[trigger] t[j]) by {
            assert(t[j] == s[j + 1]);
        }
        if k < s.len() {
            assert(t[k - 1] == s[k]);
        }
        lemma_digit_run_exact(t, k - 1);
    }
}

pub fn plus() -> (t: Token)
    ensures
        t@ == plain(TokenKind::Plus),
{
    Token { kind: TokenKind::Plus, s: String::new() }
}

pub fn minus() -> (t: Token)
    ensures
        t@ == plain(TokenKind::Minus),
{
    Token { kind: TokenKind::Minus, s: String::new() }
}

pub fn d() -> (t: Token)
    ensures
        t@ == plain(TokenKind::D),
{
    Token { kind: TokenKind::D, s: String::new() }
}

pub fn number(s: String) -> (t: Token)
    ensures
        t@ == (TokenKind::Number, s@),
{
    Token { kind: TokenKind::Number, s: s }
}

pub fn eof() -> (t: Token)
    ensures
        t@ == plain(TokenKind::EOF),
{
    Token { kind: TokenKind::EOF, s: String::new() }
}

/// The state of one scan over a text: the tokens and errors found so far,
/// the start of the current lexeme and the next character to read.
struct Scanner<'a> {
    source: &'a str,
    length: usize,
    tokens: Vec<Token>,
    errors: Vec<LexErr>,
    lexeme_start: usize,
    next: usize,
}

impl<'a> Scanner<'a> {
    spec fn wf(&self) -> bool {
        &&& self.length == self.source@.len()
        &&& self.lexeme_start <= self.next <= self.length
    }

    /// What the scan still has to produce, added to what it has produced,
    /// is what the whole text lexes to.
    spec fn accounts_for(&self, toks: Seq<(TokenKind, Seq<char>)>, errs: Seq<Seq<char>>) -> bool {
        &&& token_views(self.tokens@) + lex_chars(self.source@.skip(self.next as int)) == toks
        &&& text_views(self.errors@) + lex_errors(self.source@.skip(self.next as int)) == errs
    }

    fn at_end(&self) -> (r: bool)
        requires
            self.wf(),
        ensures
            r == (self.next >= self.length),
    {
        self.next >= self.length
    }

    fn advance(&mut self) -> (c: char)
        requires
            old(self).wf(),
            old(self).next < old(self).length,
        ensures
            final(self).wf(),
            c == old(self).source@[old(self).next as int],
            *final(self) == (Scanner { next: (old(self).next + 1) as usize, ..*old(self) }),
    {
        let c = self.source.get_char(self.next);
        self.next = self.next + 1;
        c
    }

    fn peek(&self) -> (c: char)
        requires
            self.wf(),
        ensures
            self.next < self.length ==> c == self.source@[self.next as int],
            self.next >= self.length ==> c == '_',
    {
        if self.at_end() {
            return '_';
        }
        self.source.get_char(self.next)
    }

    /// Records a token of `kind`; a numeral carries the current lexeme.
    fn add_token(&mut self, kind: TokenKind)
        requires
            old(self).wf(),
        ensures
            final(self).wf(),
            final(self).source == old(self).source,
            final(self).length == old(self).length,
            final(self).lexeme_start == old(self).lexeme_start,
            final(self).next == old(self).next,
            final(self).errors == old(self).errors,
            final(self).tokens@.len() == old(self).tokens@.len() + 1,
            token_views(final(self).tokens@) == token_views(old(self).tokens@).push(
                if kind == TokenKind::Number {
                    (
                        TokenKind::Number,
                        old(self).source@.subrange(
                            old(self).lexeme_start as int,
                            old(self).next as int,
                        ),
                    )
                } else {
                    plain(kind)
                },
            ),
    {
        let t = match kind {
            TokenKind::Plus => plus(),
            TokenKind::Minus => minus(),
            TokenKind::D => d(),
            TokenKind::Number => {
                let text = self.source.substring_char(self.lexeme_start, self.next);
                number(String::from_str(text))
            },
            TokenKind::EOF => eof(),
        };
        self.tokens.push(t);
        assert(token_views(self.tokens@) =~= token_views(old(self).tokens@).push(t@));
    }

    /// Reads the rest of a numeral whose first digit was just read.
    fn number(&mut self)
        requires
            old(self).wf(),
            old(self).next == old(self).lexeme_start + 1,
            is_digit(old(self).source@[old(self).lexeme_start as int]),
        ensures
            final(self).wf(),
            final(self).source == old(self).source,
            final(self).length == old(self).length,
            final(self).lexeme_start == old(self).lexeme_start,
            final(self).errors == old(self).errors,
            final(self).next == old(self).lexeme_start + digit_run(
                old(self).source@.skip(old(self).lexeme_start as int),
            ),
            token_views(final(self).tokens@) == token_views(old(self).tokens@).push(
                (
                    TokenKind::Number,
                    old(self).source@.subrange(old(self).lexeme_start as int, final(self).next as int),
                ),
            ),
    {
        let ghost start = self.lexeme_start as int;
        let ghost src = self.source@;
        loop
            invariant
                self.wf(),
                self.source == old(self).source,
                self.length == old(self).length,
                self.source@ == src,
                self.lexeme_start == start,
                self.tokens == old(self).tokens,
                self.errors == old(self).errors,
                start < self.next,
                forall|j: int| start <= j < self.next ==> is_digit(#[trigger] src[j]),
            ensures
                self.next == self.length || !is_digit(src[self.next as int]),
            decreases self.length - self.next,
        {
            let c = self.peek();
            if !('0' <= c && c <= '9') {
                break;
            }
            self.advance();
        }
        proof {
            let rest = src.skip(start);
            let k = self.next - start;
            assert forall|j: int| 0 <= j < k implies is_digit(#[trigger] rest[j]) by {
                assert(rest[j] == src[start + j]);
            }
            if k < rest.len() {
                assert(rest[k] == src[self.next as int]);
            }
            lemma_digit_run_exact(rest, k);
        }
        self.add_token(TokenKind::Number);
    }

    /// Scans the lexeme that starts at the next character.
    fn scan_token(&mut self)
        requires
            old(self).wf(),
            old(self).lexeme_start == old(self).next,
            old(self).next < old(self).length,
        ensures
            final(self).wf(),
            final(self).source == old(self).source,
            final(self).length == old(self).length,
            ({
                let c = old(self).source@[old(self).next as int];
                let run = digit_run(old(self).source@.skip(old(self).next as int));
                if c == '+' || c == '-' || c == 'd' {
                    &&& final(self).next == old(self).next + 1
                    &&& final(self).errors == old(self).errors
                    &&& token_views(final(self).tokens@) == token_views(old(self).tokens@).push(
                        plain(
                            if c == '+' {
                                TokenKind::Plus
                            } else if c == '-' {
                                TokenKind::Minus
                            } else {
                                TokenKind::D
                            },
                        ),
                    )
                } else if is_digit(c) {
                    &&& final(self).next == old(self).next + run
                    &&& final(self).errors == old(self).errors
                    &&& token_views(final(self).tokens@) == token_views(old(self).tokens@).push(
                        (
                            TokenKind::Number,
                            old(self).source@.subrange(
                                old(self).next as int,
                                old(self).next + run,
                            ),
                        ),
                    )
                } else {
                    &&& final(self).next == old(self).next + 1
                    &&& final(self).tokens == old(self).tokens
                    &&& text_views(final(self).errors@) == text_views(old(self).errors@).push(
                        unexpected_char_text(c),
                    )
                }
            }),
            final(self).next > old(self).next,
            forall|toks, errs|
                old(self).accounts_for(toks, errs) ==> #[trigger] final(self).accounts_for(
                    toks,
                    errs,
                ),
    {
        let ghost src = self.source@;
        let ghost i = self.next as int;
        let start = self.next;
        let c = self.advance();
        let ghost rest = src.skip(i);
        assert(rest.drop_first() =~= src.skip(i + 1));
        assert(rest[0] == c);
        if c == '+' {
            self.add_token(TokenKind::Plus);
        } else if c == '-' {
            self.add_token(TokenKind::Minus);
        } else if c == 'd' {
            self.add_token(TokenKind::D);
        } else if '0' <= c && c <= '9' {
            self.number();
            proof {
                let n = digit_run(rest) as int;
                lemma_digit_run_bound(rest);
                assert(rest.take(n) =~= src.subrange(i, i + n));
                assert(rest.skip(n) =~= src.skip(i + n));
                lemma_lex_errors_skip_digits(rest, n);
            }
        } else {
            let mut message = String::from_str("unexpected character '");
            message.append(self.source.substring_char(start, self.next));
            message.append("'");
            assert(src.subrange(i, i + 1) =~= seq![c]);
            self.errors.push(message);
            assert(text_views(self.errors@) =~= text_views(old(self).errors@).push(message@));
        }
        assert forall|toks, errs| old(self).accounts_for(toks, errs) implies #[trigger] self.accounts_for(
            toks,
            errs,
        ) by {
            let rt = lex_chars(rest);
            let re = lex_errors(rest);
            assert(token_views(self.tokens@) + lex_chars(src.skip(self.next as int)) =~= token_views(
                old(self).tokens@,
            ) + rt);
            assert(text_views(self.errors@) + lex_errors(src.skip(self.next as int)) =~= text_views(
                old(self).errors@,
            ) + re);
        }
    }

    fn scan_tokens(&mut self)
        requires
            old(self).wf(),
            old(self).next == 0,
            old(self).tokens@.len() == 0,
            old(self).errors@.len() == 0,
        ensures
            final(self).wf(),
            token_views(final(self).tokens@) == lex_chars(old(self).source@),
            text_views(final(self).errors@) == lex_errors(old(self).source@),
    {
        let ghost src = self.source@;
        assert(src.skip(0) =~= src);
        assert(token_views(self.tokens@) =~= Seq::empty());
        assert(text_views(self.errors@) =~= Seq::empty());
        assert(self.accounts_for(lex_chars(src), lex_errors(src)));
        while !self.at_end()
            invariant
                self.wf(),
                self.source@ == src,
                self.accounts_for(lex_chars(src), lex_errors(src)),
            decreases self.length - self.next,
        {
            self.lexeme_start = self.next;
            self.scan_token();
        }
        assert(src.skip(self.next as int) =~= Seq::<char>::empty());
        let ghost before = token_views(self.tokens@);
        self.tokens.push(eof());
        assert(token_views(self.tokens@) =~= before + lex_chars(Seq::<char>::empty()));
        assert(text_views(self.errors@) =~= text_views(self.errors@) + lex_errors(
            Seq::<char>::empty(),
        ));
    }
}

/// The tokens of any text end with `EOF`, and only there.
pub proof fn lemma_lex_ends(s: Seq<char>)
    ensures
        lex_chars(s).len() > 0,
        lex_chars(s).last() == plain(TokenKind::EOF),
    decreases s.len(),
{
    if s.len() > 0 {
        if is_digit(s[0]) && s[0] != '+' && s[0] != '-' && s[0] != 'd' {
            lemma_digit_run_bound(s);
            lemma_lex_ends(s.skip(digit_run(s) as int));
        } else {
            lemma_lex_ends(s.drop_first());
        }
    }
}

/// Digits raise no lexical error: skipping them leaves the errors as they are.
pub proof fn lemma_lex_errors_skip_digits(s: Seq<char>, n: int)
    requires
        0 <= n <= s.len(),
        forall|j: int| 0 <= j < n ==> is_digit(#[trigger] s[j]),
    ensures
        lex_errors(s) == lex_errors(s.skip(n)),
    decreases n,
{
    if n > 0 {
        let t = s.drop_first();
        assert forall|j: int| 0 <= j < n - 1 implies is_digit(#[trigger] t[j]) by {
            assert(t[j] == s[j + 1]);
        }
        lemma_lex_errors_skip_digits(t, n - 1);
        assert(t.skip(n - 1) =~= s.skip(n));
    } else {
        assert(s.skip(0) =~= s);
    }
}

/// Splits `s` into tokens. Characters other than digits, `+`, `-` and `d`
/// are errors, one message each; the tokens end with `EOF`.
pub fn lex(s: &str) -> (r: Result<Vec<Token>, Vec<LexErr>>)
    ensures
        match r {
            Ok(ts) => lex_errors(s@).len() == 0 && token_views(ts@) == lex_chars(s@),
            Err(es) => lex_errors(s@).len() > 0 && text_views(es@) == lex_errors(s@),
        },
{
    let mut scan = Scanner {
        source: s,
        length: s.unicode_len(),
        tokens: Vec::new(),
        errors: Vec::new(),
        lexeme_start: 0,
        next: 0,
    };
    scan.scan_tokens();
    if scan.errors.len() > 0 {
        return Err(scan.errors);
    }
    Ok(scan.tokens)
}

} // verus!
