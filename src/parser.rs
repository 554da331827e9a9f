//! Expressions: their grammar over tokens, the parser, and canonical text.
use vstd::prelude::*;

use crate::digits::{decimal, number_error_message, number_error_text, number_of, parse_u32, push_decimal};
use crate::lexer::{
    lemma_lex_ends, lex, lex_chars, lex_errors, plain, text_views, token_views, Token, TokenKind,
};

verus! {

/// A term: a constant, or `count` dice of `sides` faces.
#[derive(Debug, PartialEq, Eq, Clone, Copy, Structural)]
pub enum RootNode {
    Constant(u32),
    Roll(u32, u32),
}

/// A term with the sign it enters the total with.
#[derive(Debug, PartialEq, Eq, Clone, Copy, Structural)]
pub enum Node {
    Add(RootNode),
    Sub(RootNode),
}

/// An expression: signed terms, left to right.
#[derive(Debug, PartialEq)]
pub struct Expr(pub Vec<Node>);

impl View for Expr {
    type V = Seq<Node>;

    open spec fn view(&self) -> Seq<Node> {
        self.0@
    }
}

pub open spec fn tok(t: Seq<(TokenKind, Seq<char>)>, i: int) -> (TokenKind, Seq<char>) {
    if 0 <= i < t.len() {
        t[i]
    } else {
        plain(TokenKind::EOF)
    }
}

pub open spec fn kind_at(t: Seq<(TokenKind, Seq<char>)>, i: int) -> TokenKind {
    tok(t, i).0
}

pub open spec fn number_message(text: Seq<char>, reason: Seq<char>) -> Seq<char> {
    "parsing "@ + text + " to int: "@ + reason
}

pub open spec fn d_needs_number_text() -> Seq<char> {
    "d must be followed by number"@
}

pub open spec fn expected_term_text() -> Seq<char> {
    "expected a number or d"@
}

pub open spec fn zero_sides_text() -> Seq<char> {
    "a die must have at least one side"@
}

pub open spec fn too_large_text() -> Seq<char> {
    "the total could exceed the range of a 64-bit integer"@
}

/// A count or a constant read from a numeral.
pub open spec fn count_from(text: Seq<char>) -> Result<u32, Seq<char>> {
    match number_of(text) {
        Ok(v) => Ok(v),
        Err(e) => Err(number_message(text, number_error_text(e))),
    }
}

/// A number of sides read from a numeral: zero is refused.
pub open spec fn sides_from(text: Seq<char>) -> Result<u32, Seq<char>> {
    match count_from(text) {
        Ok(v) => if v == 0 {
            Err(zero_sides_text())
        } else {
            Ok(v)
        },
        Err(m) => Err(m),
    }
}

/// The term that starts at token `i`.
pub open spec fn term_at(t: Seq<(TokenKind, Seq<char>)>, i: int) -> Result<RootNode, Seq<char>> {
    if kind_at(t, i) == TokenKind::Number {
        if kind_at(t, i + 1) == TokenKind::D {
            if kind_at(t, i + 2) == TokenKind::Number {
                match count_from(tok(t, i).1) {
                    Ok(c) => match sides_from(tok(t, i + 2).1) {
                        Ok(s) => Ok(RootNode::Roll(c, s)),
                        Err(m) => Err(m),
                    },
                    Err(m) => Err(m),
                }
            } else {
                Err(d_needs_number_text())
            }
        } else {
            match count_from(tok(t, i).1) {
                Ok(c) => Ok(RootNode::Constant(c)),
                Err(m) => Err(m),
            }
        }
    } else if kind_at(t, i) == TokenKind::D {
        if kind_at(t, i + 1) == TokenKind::Number {
            match sides_from(tok(t, i + 1).1) {
                Ok(s) => Ok(RootNode::Roll(1, s)),
                Err(m) => Err(m),
            }
        } else {
            Err(d_needs_number_text())
        }
    } else {
        Err(expected_term_text())
    }
}

/// How many tokens the term at `i` takes, when it is one.
pub open spec fn term_len(t: Seq<(TokenKind, Seq<char>)>, i: int) -> int {
    if kind_at(t, i) == TokenKind::Number {
        if kind_at(t, i + 1) == TokenKind::D {
            3
        } else {
            1
        }
    } else {
        2
    }
}

pub open spec fn sign_len(t: Seq<(TokenKind, Seq<char>)>, i: int) -> int {
    if kind_at(t, i) == TokenKind::Plus || kind_at(t, i) == TokenKind::Minus {
        1
    } else {
        0
    }
}

/// The signed term that starts at token `i`: an absent sign is `+`.
pub open spec fn node_at(t: Seq<(TokenKind, Seq<char>)>, i: int) -> Result<Node, Seq<char>> {
    match term_at(t, i + sign_len(t, i)) {
        Ok(r) => Ok(
            if kind_at(t, i) == TokenKind::Minus {
                Node::Sub(r)
            } else {
                Node::Add(r)
            },
        ),
        Err(m) => Err(m),
    }
}

pub open spec fn node_len(t: Seq<(TokenKind, Seq<char>)>, i: int) -> int {
    sign_len(t, i) + term_len(t, i + sign_len(t, i))
}

/// The signed terms from token `i` to the end, or the first error met.
pub open spec fn expr_from(t: Seq<(TokenKind, Seq<char>)>, i: int) -> Result<Seq<Node>, Seq<char>>
    decreases t.len() - i,
{
    if kind_at(t, i) == TokenKind::EOF {
        Ok(Seq::empty())
    } else {
        match node_at(t, i) {
            Ok(n) => match expr_from(t, i + node_len(t, i)) {
                Ok(rest) => Ok(seq![n] + rest),
                Err(m) => Err(m),
            },
            Err(m) => Err(m),
        }
    }
}

/// The messages one after the other.
pub open spec fn joined(es: Seq<Seq<char>>) -> Seq<char>
    decreases es.len(),
{
    if es.len() == 0 {
        Seq::empty()
    } else {
        joined(es.drop_last()) + es.last()
    }
}

pub open spec fn term_magnitude(r: RootNode) -> nat {
    match r {
        RootNode::Constant(c) => c as nat,
        RootNode::Roll(count, sides) => count as nat * sides as nat,
    }
}

pub open spec fn root_of(n: Node) -> RootNode {
    match n {
        Node::Add(r) => r,
        Node::Sub(r) => r,
    }
}

/// The largest absolute total that the terms can reach.
pub open spec fn magnitude(ns: Seq<Node>) -> nat
    decreases ns.len(),
{
    if ns.len() == 0 {
        0
    } else {
        magnitude(ns.drop_last()) + term_magnitude(root_of(ns.last()))
    }
}

pub open spec fn sides_positive(ns: Seq<Node>) -> bool {
    forall|k: int|
        0 <= k < ns.len() ==> match root_of(#[trigger] ns[k]) {
            RootNode::Roll(_, s) => s >= 1,
            RootNode::Constant(_) => true,
        }
}

/// An expression that can be evaluated: every die has a side, and no
/// outcome of the dice takes the total out of `i64`.
pub open spec fn evaluable(ns: Seq<Node>) -> bool {
    sides_positive(ns) && magnitude(ns) <= i64::MAX
}

/// What parsing already trimmed text gives.
pub open spec fn parse_chars(s: Seq<char>) -> Result<Seq<Node>, Seq<char>> {
    if lex_errors(s).len() > 0 {
        Err(joined(lex_errors(s)))
    } else {
        match expr_from(lex_chars(s), 0) {
            Ok(ns) => if magnitude(ns) <= i64::MAX {
                Ok(ns)
            } else {
                Err(too_large_text())
            },
            Err(m) => Err(m),
        }
    }
}

pub open spec fn outcome(r: Result<Expr, String>) -> Result<Seq<Node>, Seq<char>> {
    match r {
        Ok(e) => Ok(e@),
        Err(m) => Err(m@),
    }
}

/// The characters that `char::is_whitespace` accepts: those with the
/// Unicode `White_Space` property.
pub open spec fn is_white_space(c: char) -> bool {
    ('\u{9}' <= c && c <= '\u{d}') || c == ' ' || c == '\u{85}' || c == '\u{a0}' || c
        == '\u{1680}' || ('\u{2000}' <= c && c <= '\u{200a}') || c == '\u{2028}' || c
        == '\u{2029}' || c == '\u{202f}' || c == '\u{205f}' || c == '\u{3000}'
}

/// `s` without leading and trailing whitespace.
pub open spec fn trim_chars(s: Seq<char>) -> Seq<char>
    decreases s.len(),
{
    if s.len() > 0 && is_white_space(s[0]) {
        trim_chars(s.drop_first())
    } else if s.len() > 0 && is_white_space(s.last()) {
        trim_chars(s.drop_last())
    } else {
        s
    }
}

fn white_space(c: char) -> (r: bool)
    ensures
        r == is_white_space(c),
{
    ('\u{9}' <= c && c <= '\u{d}') || c == ' ' || c == '\u{85}' || c == '\u{a0}' || c
        == '\u{1680}' || ('\u{2000}' <= c && c <= '\u{200a}') || c == '\u{2028}' || c
        == '\u{2029}' || c == '\u{202f}' || c == '\u{205f}' || c == '\u{3000}'
}

/// Leaves out leading and trailing whitespace.
pub fn trim(s: &str) -> (r: &str)
    ensures
        r@ == trim_chars(s@),
{
    let mut i: usize = 0;
    let mut j: usize = s.unicode_len();
    assert(s@.subrange(0, j as int) =~= s@);
    while i < j
        invariant
            i <= j <= s@.len(),
            trim_chars(s@.subrange(i as int, j as int)) == trim_chars(s@),
        decreases j - i,
    {
        let ghost sub = s@.subrange(i as int, j as int);
        if white_space(s.get_char(i)) {
            assert(sub.drop_first() =~= s@.subrange(i + 1, j as int));
            i = i + 1;
        } else if white_space(s.get_char(j - 1)) {
            assert(sub.drop_last() =~= s@.subrange(i as int, j - 1));
            j = j - 1;
        } else {
            return s.substring_char(i, j);
        }
    }
    s.substring_char(i, j)
}

pub open spec fn with_text<T>(r: Result<T, String>) -> Result<T, Seq<char>> {
    match r {
        Ok(v) => Ok(v),
        Err(m) => Err(m@),
    }
}

/// Reads a count or a constant.
fn count_value(text: &String) -> (r: Result<u32, String>)
    ensures
        with_text(r) == count_from(text@),
{
    match parse_u32(text.as_str()) {
        Ok(v) => Ok(v),
        Err(e) => {
            let mut m = String::from_str("parsing ");
            m.append(text.as_str());
            m.append(" to int: ");
            m.append(number_error_message(e));
            Err(m)
        },
    }
}

/// Reads a number of sides.
fn sides_value(text: &String) -> (r: Result<u32, String>)
    ensures
        with_text(r) == sides_from(text@),
{
    match count_value(text) {
        Ok(v) => if v == 0 {
            Err(String::from_str("a die must have at least one side"))
        } else {
            Ok(v)
        },
        Err(m) => Err(m),
    }
}

/// A cursor over tokens that end with `EOF`.
struct Parser {
    tokens: Vec<Token>,
    current: usize,
}

impl Parser {
    spec fn wf(&self) -> bool {
        &&& self.tokens@.len() > 0
        &&& self.tokens@.last().kind == TokenKind::EOF
        &&& self.current < self.tokens@.len()
    }

    spec fn toks(&self) -> Seq<(TokenKind, Seq<char>)> {
        token_views(self.tokens@)
    }

    fn peek(&self) -> (t: &Token)
        requires
            self.wf(),
        ensures
            t@ == tok(self.toks(), self.current as int),
    {
        &self.tokens[self.current]
    }

    fn at_end(&self) -> (r: bool)
        requires
            self.wf(),
        ensures
            r == (kind_at(self.toks(), self.current as int) == TokenKind::EOF),
    {
        self.peek().kind == TokenKind::EOF
    }

    /// Steps over the current token, but never past `EOF`.
    fn advance(&mut self)
        requires
            old(self).wf(),
        ensures
            final(self).wf(),
            final(self).tokens == old(self).tokens,
            final(self).current == if kind_at(old(self).toks(), old(self).current as int)
                == TokenKind::EOF {
                old(self).current as int
            } else {
                old(self).current + 1
            },
    {
        if !self.at_end() {
            assert(self.toks()[self.current as int] == self.tokens@[self.current as int]@);
            assert(self.toks()[self.toks().len() - 1] == self.tokens@.last()@);
            let len = self.tokens.len();
            assert(self.current + 1 < len);
            self.current = self.current + 1;
        }
    }

    fn previous(&self) -> (t: &Token)
        requires
            self.wf(),
            self.current > 0,
        ensures
            *t == self.tokens@[self.current - 1],
    {
        &self.tokens[self.current - 1]
    }

    fn check(&self, kind: TokenKind) -> (r: bool)
        requires
            self.wf(),
        ensures
            r == (kind != TokenKind::EOF && kind_at(self.toks(), self.current as int) == kind),
    {
        if self.at_end() {
            return false;
        }
        kind == self.peek().kind
    }

    fn match_kind(&mut self, kind: TokenKind) -> (r: bool)
        requires
            old(self).wf(),
        ensures
            final(self).wf(),
            final(self).tokens == old(self).tokens,
            r == (kind != TokenKind::EOF && kind_at(old(self).toks(), old(self).current as int)
                == kind),
            final(self).current == old(self).current + if r {
                1int
            } else {
                0
            },
    {
        if self.check(kind) {
            self.advance();
            return true;
        }
        false
    }

    /// Takes a token of `kind` and hands back its text, or fails with
    /// `message`.
    fn consume(&mut self, kind: TokenKind, message: &str) -> (r: Result<String, String>)
        requires
            old(self).wf(),
        ensures
            final(self).wf(),
            final(self).tokens == old(self).tokens,
            r is Ok <==> (kind != TokenKind::EOF && kind_at(old(self).toks(), old(self).current as int)
                == kind),
            r is Ok ==> r == Ok::<
                String,
                String,
            >(old(self).tokens@[old(self).current as int].s) && final(self).current
                == old(self).current + 1,
            r is Err ==> with_text(r) == Err::<
                String,
                Seq<char>,
            >(message@) && final(self).current == old(self).current,
    {
        assert(self.toks()[self.current as int] == self.tokens@[self.current as int]@);
        if self.check(kind) {
            self.advance();
            return Ok(self.previous().s.clone());
        }
        Err(String::from_str(message))
    }

    fn root_node(&mut self) -> (r: Result<RootNode, String>)
        requires
            old(self).wf(),
        ensures
            final(self).wf(),
            final(self).tokens == old(self).tokens,
            with_text(r) == term_at(old(self).toks(), old(self).current as int),
            r is Ok ==> final(self).current == old(self).current + term_len(
                old(self).toks(),
                old(self).current as int,
            ),
    {
        let ghost t = self.toks();
        let ghost i = self.current as int;
        if self.check(TokenKind::Number) {
            let num = match self.consume(TokenKind::Number, "expected a number") {
                Ok(text) => text,
                Err(m) => return Err(m),
            };
            assert(num@ == tok(t, i).1);
            if self.match_kind(TokenKind::D) {
                let die = match self.consume(TokenKind::Number, "d must be followed by number") {
                    Ok(text) => text,
                    Err(m) => return Err(m),
                };
                assert(die@ == tok(t, i + 2).1);
                let count = match count_value(&num) {
                    Ok(v) => v,
                    Err(m) => return Err(m),
                };
                let sides = match sides_value(&die) {
                    Ok(v) => v,
                    Err(m) => return Err(m),
                };
                Ok(RootNode::Roll(count, sides))
            } else {
                match count_value(&num) {
                    Ok(v) => Ok(RootNode::Constant(v)),
                    Err(m) => Err(m),
                }
            }
        } else if self.match_kind(TokenKind::D) {
            let die = match self.consume(TokenKind::Number, "d must be followed by number") {
                Ok(text) => text,
                Err(m) => return Err(m),
            };
            assert(die@ == tok(t, i + 1).1);
            match sides_value(&die) {
                Ok(v) => Ok(RootNode::Roll(1, v)),
                Err(m) => Err(m),
            }
        } else {
            Err(String::from_str("expected a number or d"))
        }
    }

    fn node(&mut self) -> (r: Result<Node, String>)
        requires
            old(self).wf(),
        ensures
            final(self).wf(),
            final(self).tokens == old(self).tokens,
            with_text(r) == node_at(old(self).toks(), old(self).current as int),
            r is Ok ==> final(self).current == old(self).current + node_len(
                old(self).toks(),
                old(self).current as int,
            ),
    {
        if self.match_kind(TokenKind::Plus) {
            match self.root_node() {
                Ok(root) => Ok(Node::Add(root)),
                Err(m) => Err(m),
            }
        } else if self.match_kind(TokenKind::Minus) {
            match self.root_node() {
                Ok(root) => Ok(Node::Sub(root)),
                Err(m) => Err(m),
            }
        } else {
            match self.root_node() {
                Ok(root) => Ok(Node::Add(root)),
                Err(m) => Err(m),
            }
        }
    }

    /// Parses signed terms up to `EOF`; the first error ends the parse.
    fn expr(&mut self) -> (r: Result<Expr, String>)
        requires
            old(self).wf(),
        ensures
            final(self).wf(),
            final(self).tokens == old(self).tokens,
            outcome(r) == expr_from(old(self).toks(), old(self).current as int),
            r is Ok ==> kind_at(final(self).toks(), final(self).current as int) == TokenKind::EOF,
            r is Ok && (forall|j: int|
                0 <= j < old(self).tokens@.len() - 1 ==> (#[trigger] old(self).tokens@[j]).kind
                    != TokenKind::EOF) ==> final(self).current == final(self).tokens@.len() - 1,
    {
        let ghost t = self.toks();
        let ghost start = self.current as int;
        let mut e: Vec<Node> = Vec::new();
        assert(e@ + Seq::<Node>::empty() =~= Seq::<Node>::empty());
        while !self.at_end()
            invariant
                self.wf(),
                self.tokens == old(self).tokens,
                self.toks() == t,
                t == old(self).toks(),
                start == old(self).current,
                match expr_from(t, self.current as int) {
                    Ok(rest) => expr_from(t, start) == Ok::<Seq<Node>, Seq<char>>(e@ + rest),
                    Err(m) => expr_from(t, start) == Err::<Seq<Node>, Seq<char>>(m),
                },
            decreases t.len() - self.current,
        {
            let ghost i = self.current as int;
            match self.node() {
                Ok(n) => {
                    proof {
                        match expr_from(t, self.current as int) {
                            Ok(rest) => {
                                assert(e@.push(n) + rest =~= e@ + (seq![n] + rest));
                            },
                            Err(_) => {},
                        }
                    }
                    e.push(n);
                },
                Err(m) => {
                    assert(expr_from(t, i) == Err::<Seq<Node>, Seq<char>>(m@));
                    return Err(m);
                },
            }
        }
        assert(e@ + Seq::<Node>::empty() =~= e@);
        Ok(Expr(e))
    }
}

pub open spec fn term_text(r: RootNode) -> Seq<char> {
    match r {
        RootNode::Constant(c) => decimal(c as nat),
        RootNode::Roll(count, sides) => decimal(count as nat) + seq!['d'] + decimal(sides as nat),
    }
}

pub open spec fn node_text(n: Node) -> Seq<char> {
    match n {
        Node::Add(r) => seq!['+'] + term_text(r),
        Node::Sub(r) => seq!['-'] + term_text(r),
    }
}

/// Each signed term with its sign, one after the other.
pub open spec fn nodes_text(ns: Seq<Node>) -> Seq<char>
    decreases ns.len(),
{
    if ns.len() == 0 {
        Seq::empty()
    } else {
        node_text(ns[0]) + nodes_text(ns.drop_first())
    }
}

/// The canonical text of an expression: a leading `+` is left out.
pub open spec fn render(ns: Seq<Node>) -> Seq<char> {
    let t = nodes_text(ns);
    if t.len() > 0 && t[0] == '+' {
        t.drop_first()
    } else {
        t
    }
}

pub proof fn lemma_nodes_text_concat(a: Seq<Node>, b: Seq<Node>)
    ensures
        nodes_text(a + b) == nodes_text(a) + nodes_text(b),
    decreases a.len(),
{
    if a.len() == 0 {
        assert(a + b =~= b);
        assert(nodes_text(a) + nodes_text(b) =~= nodes_text(b));
    } else {
        lemma_nodes_text_concat(a.drop_first(), b);
        assert((a + b).drop_first() =~= a.drop_first() + b);
        assert((a + b)[0] == a[0]);
        assert(node_text(a[0]) + (nodes_text(a.drop_first()) + nodes_text(b)) =~= nodes_text(a)
            + nodes_text(b));
    }
}

pub proof fn lemma_magnitude_prefix(ns: Seq<Node>, k: int)
    requires
        0 <= k <= ns.len(),
    ensures
        magnitude(ns.take(k)) <= magnitude(ns),
    decreases ns.len() - k,
{
    if k < ns.len() {
        lemma_magnitude_prefix(ns, k + 1);
        assert(ns.take(k + 1).drop_last() =~= ns.take(k));
    } else {
        assert(ns.take(k) =~= ns);
    }
}

fn push_term(out: &mut String, r: RootNode)
    ensures
        final(out)@ == old(out)@ + term_text(r),
{
    match r {
        RootNode::Constant(c) => push_decimal(out, c),
        RootNode::Roll(count, sides) => {
            push_decimal(out, count);
            proof {
                reveal_strlit("d");
            }
            out.append("d");
            push_decimal(out, sides);
            assert(old(out)@ + term_text(r) =~= old(out)@ + decimal(count as nat) + seq!['d']
                + decimal(sides as nat));
        },
    }
}

/// Whether `ns` fits the bound on totals.
fn fits_i64(ns: &Vec<Node>) -> (r: bool)
    ensures
        r == (magnitude(ns@) <= i64::MAX),
{
    let mut total: u128 = 0;
    let mut k: usize = 0;
    while k < ns.len()
        invariant
            k <= ns@.len(),
            total == magnitude(ns@.take(k as int)),
            total <= i64::MAX,
        decreases ns@.len() - k,
    {
        let part: u128 = match ns[k] {
            Node::Add(r) | Node::Sub(r) => match r {
                RootNode::Constant(c) => c as u128,
                RootNode::Roll(count, sides) => {
                    assert(count as nat * sides as nat <= u64::MAX) by (nonlinear_arith)
                        requires
                            count <= u32::MAX,
                            sides <= u32::MAX,
                    ;
                    count as u128 * sides as u128
                },
            },
        };
        assert(ns@.take(k + 1).drop_last() =~= ns@.take(k as int));
        assert(ns@.take(k + 1).last() == ns@[k as int]);
        total = total + part;
        k = k + 1;
        if total > i64::MAX as u128 {
            proof {
                lemma_magnitude_prefix(ns@, k as int);
            }
            return false;
        }
    }
    assert(ns@.take(k as int) =~= ns@);
    true
}

impl Expr {
    /// Whether every die has a side and the total stays within `i64`.
    pub fn is_evaluable(&self) -> (r: bool)
        ensures
            r == evaluable(self@),
    {
        let mut k: usize = 0;
        while k < self.0.len()
            invariant
                k <= self@.len(),
                forall|j: int|
                    0 <= j < k ==> match root_of(#[trigger] self@[j]) {
                        RootNode::Roll(_, s) => s >= 1,
                        RootNode::Constant(_) => true,
                    },
            decreases self@.len() - k,
        {
            match self.0[k] {
                Node::Add(RootNode::Roll(_, 0)) | Node::Sub(RootNode::Roll(_, 0)) => {
                    return false;
                },
                _ => {},
            }
            k = k + 1;
        }
        fits_i64(&self.0)
    }

    /// The canonical text: each term with its sign, `<count>d<sides>` for
    /// dice, without a leading `+`.
    pub fn to_string(&self) -> (r: String)
        ensures
            r@ == render(self@),
    {
        let mut acc = String::new();
        let mut k: usize = 0;
        while k < self.0.len()
            invariant
                k <= self@.len(),
                acc@ == nodes_text(self@.take(k as int)),
            decreases self@.len() - k,
        {
            let n = self.0[k];
            match n {
                Node::Add(r) => {
                    proof {
                        reveal_strlit("+");
                    }
                    acc.append("+");
                    push_term(&mut acc, r);
                },
                Node::Sub(r) => {
                    proof {
                        reveal_strlit("-");
                    }
                    acc.append("-");
                    push_term(&mut acc, r);
                },
            }
            proof {
                let ns = self@;
                lemma_nodes_text_concat(ns.take(k as int), seq![n]);
                assert(ns.take(k + 1) =~= ns.take(k as int) + seq![n]);
                assert(seq![n].drop_first() =~= Seq::<Node>::empty());
                assert(nodes_text(Seq::<Node>::empty()) =~= Seq::<char>::empty());
                assert(node_text(n) + Seq::<char>::empty() =~= node_text(n));
                assert(nodes_text(seq![n]) =~= node_text(n));
            }
            k = k + 1;
        }
        assert(self@.take(k as int) =~= self@);
        let len = acc.as_str().unicode_len();
        if len > 0 && acc.as_str().get_char(0) == '+' {
            let rest = acc.as_str().substring_char(1, len);
            assert(rest@ =~= acc@.drop_first());
            return String::from_str(rest);
        }
        acc
    }
}

/// Parses text that has no leading or trailing whitespace.
fn parse_trimmed(s: &str) -> (r: Result<Expr, String>)
    ensures
        outcome(r) == parse_chars(s@),
{
    let tokens = match lex(s) {
        Ok(tokens) => tokens,
        Err(errs) => {
            let ghost es = text_views(errs@);
            let mut acc = String::new();
            let mut k: usize = 0;
            while k < errs.len()
                invariant
                    k <= errs@.len(),
                    es == text_views(errs@),
                    acc@ == joined(es.take(k as int)),
                decreases errs@.len() - k,
            {
                acc.append(errs[k].as_str());
                assert(es.take(k + 1).drop_last() =~= es.take(k as int));
                k = k + 1;
            }
            assert(es.take(k as int) =~= es);
            return Err(acc);
        },
    };
    proof {
        lemma_lex_ends(s@);
        assert(token_views(tokens@)[tokens@.len() - 1] == tokens@.last()@);
    }
    let mut p = Parser { tokens: tokens, current: 0 };
    match p.expr() {
        Ok(e) => {
            if fits_i64(&e.0) {
                Ok(e)
            } else {
                Err(String::from_str("the total could exceed the range of a 64-bit integer"))
            }
        },
        Err(m) => Err(m),
    }
}

/// Parses an expression; leading and trailing whitespace is ignored.
/// Besides text outside the grammar, a die without sides, and a numeral
/// beyond `u32`, it refuses an expression whose total could leave the range
/// of `i64`.
pub fn parse(s: &str) -> (r: Result<Expr, String>)
    ensures
        outcome(r) == parse_chars(trim_chars(s@)),
{
    parse_trimmed(trim(s))
}

} // verus!
