//! Properties that relate the parser, the renderer and the evaluator.
use vstd::prelude::*;

use crate::digits::{all_digits, decimal, is_digit, lemma_decimal};
use crate::eval::{dice, lemma_dice_len, roll_count, sum, total_of, values_fit};
use crate::lexer::{
    digit_run, lemma_digit_run_exact, lemma_lex_errors_skip_digits, lex_chars, lex_errors, plain,
    TokenKind,
};
use crate::parser::{
    count_from, evaluable, expr_from, kind_at, magnitude, node_at, node_len,
    node_text, nodes_text, parse_chars, render, root_of, sides_from, sides_positive, term_at,
    term_len, term_text, trim_chars, Node, RootNode,
};

verus! {

/// The tokens a term is written with.
pub open spec fn term_tokens(r: RootNode) -> Seq<(TokenKind, Seq<char>)> {
    match r {
        RootNode::Constant(c) => seq![(TokenKind::Number, decimal(c as nat))],
        RootNode::Roll(count, sides) => seq![
            (TokenKind::Number, decimal(count as nat)),
            plain(TokenKind::D),
            (TokenKind::Number, decimal(sides as nat)),
        ],
    }
}

pub open spec fn node_tokens(n: Node) -> Seq<(TokenKind, Seq<char>)> {
    match n {
        Node::Add(r) => seq![plain(TokenKind::Plus)] + term_tokens(r),
        Node::Sub(r) => seq![plain(TokenKind::Minus)] + term_tokens(r),
    }
}

pub open spec fn nodes_tokens(ns: Seq<Node>) -> Seq<(TokenKind, Seq<char>)>
    decreases ns.len(),
{
    if ns.len() == 0 {
        Seq::empty()
    } else {
        node_tokens(ns[0]) + nodes_tokens(ns.drop_first())
    }
}

/// Text that a numeral cannot run on into.
pub open spec fn starts_apart(x: Seq<char>) -> bool {
    x.len() == 0 || !is_digit(x[0])
}

proof fn lemma_lex_numeral(d: Seq<char>, x: Seq<char>)
    requires
        d.len() > 0,
        all_digits(d),
        starts_apart(x),
    ensures
        lex_chars(d + x) == seq![(TokenKind::Number, d)] + lex_chars(x),
        lex_errors(d + x) == lex_errors(x),
{
    let s = d + x;
    assert(s[0] == d[0]);
    assert forall|j: int| 0 <= j < d.len() implies is_digit(#[trigger] s[j]) by {
        assert(s[j] == d[j]);
    }
    if x.len() > 0 {
        assert(s[d.len() as int] == x[0]);
    }
    lemma_digit_run_exact(s, d.len() as int);
    assert(digit_run(s) == d.len());
    assert(s.take(d.len() as int) =~= d);
    assert(s.skip(d.len() as int) =~= x);
    lemma_lex_errors_skip_digits(s, d.len() as int);
}

proof fn lemma_lex_one(c: char, x: Seq<char>)
    requires
        c == '+' || c == '-' || c == 'd',
    ensures
        lex_chars(seq![c] + x) == seq![
            plain(
                if c == '+' {
                    TokenKind::Plus
                } else if c == '-' {
                    TokenKind::Minus
                } else {
                    TokenKind::D
                },
            ),
        ] + lex_chars(x),
        lex_errors(seq![c] + x) == lex_errors(x),
{
    let s = seq![c] + x;
    assert(s[0] == c);
    assert(s.drop_first() =~= x);
}

proof fn lemma_lex_term(r: RootNode, x: Seq<char>)
    requires
        starts_apart(x),
    ensures
        lex_chars(term_text(r) + x) == term_tokens(r) + lex_chars(x),
        lex_errors(term_text(r) + x) == lex_errors(x),
{
    match r {
        RootNode::Constant(c) => {
            lemma_decimal(c as nat);
            lemma_lex_numeral(decimal(c as nat), x);
        },
        RootNode::Roll(count, sides) => {
            let dc = decimal(count as nat);
            let ds = decimal(sides as nat);
            lemma_decimal(count as nat);
            lemma_decimal(sides as nat);
            lemma_lex_numeral(ds, x);
            lemma_lex_one('d', ds + x);
            assert((seq!['d'] + (ds + x))[0] == 'd');
            lemma_lex_numeral(dc, seq!['d'] + (ds + x));
            assert(term_text(r) + x =~= dc + (seq!['d'] + (ds + x)));
            assert(term_tokens(r) + lex_chars(x) =~= seq![(TokenKind::Number, dc)] + (seq![
                plain(TokenKind::D),
            ] + (seq![(TokenKind::Number, ds)] + lex_chars(x))));
        },
    }
}

proof fn lemma_lex_node(n: Node, x: Seq<char>)
    requires
        starts_apart(x),
    ensures
        lex_chars(node_text(n) + x) == node_tokens(n) + lex_chars(x),
        lex_errors(node_text(n) + x) == lex_errors(x),
{
    let (c, r) = match n {
        Node::Add(r) => ('+', r),
        Node::Sub(r) => ('-', r),
    };
    lemma_lex_term(r, x);
    lemma_lex_one(c, term_text(r) + x);
    assert(node_text(n) + x =~= seq![c] + (term_text(r) + x));
    assert(node_tokens(n) + lex_chars(x) =~= seq![node_tokens(n)[0]] + (term_tokens(r) + lex_chars(
        x,
    )));
}

proof fn lemma_nodes_text_apart(ns: Seq<Node>)
    ensures
        starts_apart(nodes_text(ns)),
        nodes_text(ns).len() > 0 ==> nodes_text(ns)[0] == '+' || nodes_text(ns)[0] == '-',
{
    if ns.len() > 0 {
        let t = node_text(ns[0]);
        assert(nodes_text(ns)[0] == t[0]);
    }
}

/// The rendered signed terms lex, with no error, to their tokens.
proof fn lemma_lex_nodes(ns: Seq<Node>)
    ensures
        lex_chars(nodes_text(ns)) == nodes_tokens(ns) + seq![plain(TokenKind::EOF)],
        lex_errors(nodes_text(ns)) == Seq::<Seq<char>>::empty(),
    decreases ns.len(),
{
    if ns.len() == 0 {
        assert(nodes_tokens(ns) + seq![plain(TokenKind::EOF)] =~= seq![plain(TokenKind::EOF)]);
    } else {
        let rest = ns.drop_first();
        lemma_lex_nodes(rest);
        lemma_nodes_text_apart(rest);
        lemma_lex_node(ns[0], nodes_text(rest));
        assert(nodes_tokens(ns) + seq![plain(TokenKind::EOF)] =~= node_tokens(ns[0]) + (
        nodes_tokens(rest) + seq![plain(TokenKind::EOF)]));
    }
}

/// `u` stands in `t` from token `i` on.
pub open spec fn tokens_at(
    t: Seq<(TokenKind, Seq<char>)>,
    i: int,
    u: Seq<(TokenKind, Seq<char>)>,
) -> bool {
    &&& 0 <= i
    &&& i + u.len() <= t.len()
    &&& forall|j: int| 0 <= j < u.len() ==> t[i + j] == #[trigger] u[j]
}

pub open spec fn term_sides_positive(r: RootNode) -> bool {
    match r {
        RootNode::Roll(_, s) => s >= 1,
        RootNode::Constant(_) => true,
    }
}

/// What may follow a term in rendered tokens: a sign or the end.
pub open spec fn ends_term(k: TokenKind) -> bool {
    k == TokenKind::Plus || k == TokenKind::Minus || k == TokenKind::EOF
}

proof fn lemma_tokens_at_split(
    t: Seq<(TokenKind, Seq<char>)>,
    i: int,
    a: Seq<(TokenKind, Seq<char>)>,
    b: Seq<(TokenKind, Seq<char>)>,
)
    requires
        tokens_at(t, i, a + b),
    ensures
        tokens_at(t, i, a),
        tokens_at(t, i + a.len(), b),
{
    assert forall|j: int| 0 <= j < a.len() implies t[i + j] == #[trigger] a[j] by {
        assert((a + b)[j] == a[j]);
    }
    assert forall|j: int| 0 <= j < b.len() implies t[i + a.len() + j] == #[trigger] b[j] by {
        assert((a + b)[a.len() + j] == b[j]);
    }
}

proof fn lemma_numeral_reads(n: u32)
    ensures
        count_from(decimal(n as nat)) == Ok::<u32, Seq<char>>(n),
        n >= 1 ==> sides_from(decimal(n as nat)) == Ok::<u32, Seq<char>>(n),
{
    lemma_decimal(n as nat);
}

proof fn lemma_parse_term(
    t: Seq<(TokenKind, Seq<char>)>,
    i: int,
    r: RootNode,
    rest: Seq<(TokenKind, Seq<char>)>,
)
    requires
        tokens_at(t, i, term_tokens(r) + rest),
        rest.len() > 0,
        ends_term(rest[0].0),
        term_sides_positive(r),
    ensures
        term_at(t, i) == Ok::<RootNode, Seq<char>>(r),
        term_len(t, i) == term_tokens(r).len(),
{
    let u = term_tokens(r) + rest;
    let m = term_tokens(r).len() as int;
    assert(t[i + 0] == u[0]);
    assert(t[i + m] == u[m]);
    assert(u[m] == rest[0]);
    match r {
        RootNode::Constant(c) => {
            lemma_numeral_reads(c);
        },
        RootNode::Roll(count, sides) => {
            assert(t[i + 1] == u[1]);
            assert(t[i + 2] == u[2]);
            lemma_numeral_reads(count);
            lemma_numeral_reads(sides);
        },
    }
}

proof fn lemma_nodes_tokens_start(ns: Seq<Node>)
    ensures
        nodes_tokens(ns).len() > 0 ==> nodes_tokens(ns)[0].0 == TokenKind::Plus
            || nodes_tokens(ns)[0].0 == TokenKind::Minus,
{
    if ns.len() > 0 {
        assert(nodes_tokens(ns)[0] == node_tokens(ns[0])[0]);
    }
}

proof fn lemma_sides_positive_rest(ns: Seq<Node>)
    requires
        ns.len() > 0,
        sides_positive(ns),
    ensures
        sides_positive(ns.drop_first()),
        term_sides_positive(root_of(ns[0])),
{
    let rest = ns.drop_first();
    assert forall|k: int| 0 <= k < rest.len() implies match root_of(#[trigger] rest[k]) {
        RootNode::Roll(_, s) => s >= 1,
        RootNode::Constant(_) => true,
    } by {
        assert(rest[k] == ns[k + 1]);
    }
    assert(match root_of(ns[0]) {
        RootNode::Roll(_, s) => s >= 1,
        RootNode::Constant(_) => true,
    });
}

/// Tokens of rendered signed terms parse back to those terms.
proof fn lemma_parse_nodes(t: Seq<(TokenKind, Seq<char>)>, i: int, ns: Seq<Node>)
    requires
        tokens_at(t, i, nodes_tokens(ns) + seq![plain(TokenKind::EOF)]),
        sides_positive(ns),
    ensures
        expr_from(t, i) == Ok::<Seq<Node>, Seq<char>>(ns),
    decreases ns.len(),
{
    let u = nodes_tokens(ns) + seq![plain(TokenKind::EOF)];
    assert(t[i + 0] == u[0]);
    if ns.len() == 0 {
        assert(u[0] == plain(TokenKind::EOF));
        assert(ns =~= Seq::<Node>::empty());
    } else {
        let n = ns[0];
        let rest = ns.drop_first();
        let r = root_of(n);
        let tail = nodes_tokens(rest) + seq![plain(TokenKind::EOF)];
        lemma_sides_positive_rest(ns);
        lemma_nodes_tokens_start(rest);
        assert(tail[0] == if nodes_tokens(rest).len() > 0 {
            nodes_tokens(rest)[0]
        } else {
            plain(TokenKind::EOF)
        });
        assert(u =~= seq![node_tokens(n)[0]] + (term_tokens(r) + tail));
        lemma_tokens_at_split(t, i, seq![node_tokens(n)[0]], term_tokens(r) + tail);
        lemma_tokens_at_split(t, i + 1, term_tokens(r), tail);
        lemma_parse_term(t, i + 1, r, tail);
        assert(u[0] == node_tokens(n)[0]);
        assert(node_at(t, i) == Ok::<Node, Seq<char>>(n));
        assert(node_len(t, i) == node_tokens(n).len());
        lemma_parse_nodes(t, i + node_tokens(n).len(), rest);
        assert(seq![n] + rest =~= ns);
    }
}

proof fn lemma_text_ends_in_digit(ns: Seq<Node>)
    requires
        ns.len() > 0,
    ensures
        nodes_text(ns).len() > 0,
        is_digit(nodes_text(ns).last()),
    decreases ns.len(),
{
    let rest = ns.drop_first();
    let r = root_of(ns[0]);
    match r {
        RootNode::Constant(c) => lemma_decimal(c as nat),
        RootNode::Roll(_, sides) => lemma_decimal(sides as nat),
    }
    if rest.len() > 0 {
        lemma_text_ends_in_digit(rest);
    } else {
        assert(nodes_text(rest) =~= Seq::<char>::empty());
    }
    assert(nodes_text(ns) == node_text(ns[0]) + nodes_text(rest));
}

/// The canonical text of terms whose dice have sides parses to those terms.
pub proof fn lemma_render_parses(ns: Seq<Node>)
    requires
        sides_positive(ns),
        magnitude(ns) <= i64::MAX,
    ensures
        trim_chars(render(ns)) == render(ns),
        parse_chars(render(ns)) == Ok::<Seq<Node>, Seq<char>>(ns),
{
    let text = nodes_text(ns);
    let eof = seq![plain(TokenKind::EOF)];
    if ns.len() == 0 {
        assert(render(ns) =~= Seq::<char>::empty());
        assert(lex_chars(render(ns)) == eof);
        assert(ns =~= Seq::<Node>::empty());
    } else {
        lemma_text_ends_in_digit(ns);
        lemma_nodes_text_apart(ns);
        let rest = ns.drop_first();
        let r = root_of(ns[0]);
        lemma_sides_positive_rest(ns);
        if text[0] == '+' {
            assert(ns[0] == Node::Add(r));
            let shown = term_text(r) + nodes_text(rest);
            assert(render(ns) =~= shown);
            assert(text.last() == shown.last());
            match r {
                RootNode::Constant(c) => lemma_decimal(c as nat),
                RootNode::Roll(count, _) => lemma_decimal(count as nat),
            }
            assert(shown[0] == term_text(r)[0]);
            lemma_nodes_text_apart(rest);
            lemma_lex_term(r, nodes_text(rest));
            lemma_lex_nodes(rest);
            let t = lex_chars(shown);
            lemma_nodes_tokens_start(rest);
            let tail = nodes_tokens(rest) + eof;
            assert(t =~= term_tokens(r) + tail);
            assert(tail[0] == if nodes_tokens(rest).len() > 0 {
                nodes_tokens(rest)[0]
            } else {
                plain(TokenKind::EOF)
            });
            lemma_tokens_at_split(t, 0, term_tokens(r), tail);
            lemma_parse_term(t, 0, r, tail);
            assert(t[0] == term_tokens(r)[0]);
            lemma_parse_nodes(t, term_tokens(r).len() as int, rest);
            assert(seq![Node::Add(r)] + rest =~= ns);
        } else {
            assert(render(ns) == text);
            lemma_lex_nodes(ns);
            lemma_parse_nodes(lex_chars(text), 0, ns);
        }
    }
}

/// Parsed terms have dice with at least one side.
proof fn lemma_parsed_sides_positive(t: Seq<(TokenKind, Seq<char>)>, i: int)
    requires
        expr_from(t, i) is Ok,
    ensures
        sides_positive(expr_from(t, i)->Ok_0),
    decreases t.len() - i,
{
    if kind_at(t, i) != TokenKind::EOF {
        let n = node_at(t, i)->Ok_0;
        let j = i + node_len(t, i);
        lemma_parsed_sides_positive(t, j);
        let rest = expr_from(t, j)->Ok_0;
        let ns = expr_from(t, i)->Ok_0;
        assert(ns == seq![n] + rest);
        assert(term_sides_positive(root_of(n)));
        assert forall|k: int| 0 <= k < ns.len() implies match root_of(#[trigger] ns[k]) {
            RootNode::Roll(_, s) => s >= 1,
            RootNode::Constant(_) => true,
        } by {
            if k > 0 {
                assert(ns[k] == rest[k - 1]);
            }
        }
    }
}

/// Every expression that parsing yields can be evaluated, and evaluating
/// it logs one roll for each die: as many as the `count` fields of its dice
/// terms add up to, each with the sides of its term.
pub proof fn law_parsed_expressions_evaluate(s: Seq<char>)
    requires
        parse_chars(trim_chars(s)) is Ok,
    ensures
        evaluable(parse_chars(trim_chars(s))->Ok_0),
        dice(parse_chars(trim_chars(s))->Ok_0).len() == roll_count(parse_chars(trim_chars(s))->Ok_0),
{
    let text = trim_chars(s);
    lemma_parsed_sides_positive(lex_chars(text), 0);
    lemma_dice_len(parse_chars(text)->Ok_0);
}

/// The canonical text of a parsed expression parses back to that same
/// expression.
pub proof fn law_render_parses_back(s: Seq<char>)
    requires
        parse_chars(trim_chars(s)) is Ok,
    ensures
        parse_chars(trim_chars(render(parse_chars(trim_chars(s))->Ok_0))) == parse_chars(
            trim_chars(s),
        ),
{
    let ns = parse_chars(trim_chars(s))->Ok_0;
    law_parsed_expressions_evaluate(s);
    lemma_render_parses(ns);
}

/// Rendering is idempotent: parsing the canonical text of a parsed
/// expression and rendering again gives the same text.
pub proof fn law_render_idempotent(s: Seq<char>)
    requires
        parse_chars(trim_chars(s)) is Ok,
    ensures
        parse_chars(trim_chars(render(parse_chars(trim_chars(s))->Ok_0))) is Ok,
        render(parse_chars(trim_chars(render(parse_chars(trim_chars(s))->Ok_0)))->Ok_0) == render(
            parse_chars(trim_chars(s))->Ok_0,
        ),
{
    law_render_parses_back(s);
}

pub open spec fn constants_only(ns: Seq<Node>) -> bool {
    forall|k: int| 0 <= k < ns.len() ==> (#[trigger] root_of(ns[k])) is Constant
}

/// An expression of constants alone rolls no die, and its total is the
/// same whatever the dice would show.
pub proof fn law_constants_are_fixed(ns: Seq<Node>, a: Seq<u32>, b: Seq<u32>)
    requires
        constants_only(ns),
    ensures
        dice(ns).len() == 0,
        total_of(ns, a) == total_of(ns, b),
    decreases ns.len(),
{
    if ns.len() > 0 {
        let init = ns.drop_last();
        assert forall|k: int| 0 <= k < init.len() implies (#[trigger] root_of(init[k])) is Constant by {
            assert(init[k] == ns[k]);
        }
        assert(root_of(ns[ns.len() - 1]) is Constant);
        law_constants_are_fixed(init, a, b);
    }
}

/// Dice plus a constant, `<count>d<sides>+<k>`: whatever the dice show,
/// `count` dice of `sides` faces are rolled, and the total less `k` is the
/// sum of exactly those `count` values, each between 1 and `sides`.
pub proof fn law_dice_plus_constant(count: u32, sides: u32, k: u32, vals: Seq<u32>)
    requires
        values_fit(
            dice(seq![Node::Add(RootNode::Roll(count, sides)), Node::Add(RootNode::Constant(k))]),
            vals,
        ),
    ensures
        dice(seq![Node::Add(RootNode::Roll(count, sides)), Node::Add(RootNode::Constant(k))])
            == Seq::new(count as nat, |i: int| sides),
        vals.len() == count,
        forall|i: int| 0 <= i < count ==> 1 <= #[trigger] vals[i] <= sides,
        total_of(
            seq![Node::Add(RootNode::Roll(count, sides)), Node::Add(RootNode::Constant(k))],
            vals,
        ) - k == sum(vals),
{
    let ns = seq![Node::Add(RootNode::Roll(count, sides)), Node::Add(RootNode::Constant(k))];
    let first = seq![Node::Add(RootNode::Roll(count, sides))];
    assert(ns.drop_last() =~= first);
    assert(first.drop_last() =~= Seq::<Node>::empty());
    assert(first.last() == Node::Add(RootNode::Roll(count, sides)));
    assert(dice(Seq::<Node>::empty()) =~= Seq::<u32>::empty());
    assert(total_of(Seq::<Node>::empty(), vals) == 0);
    assert(dice(first.drop_last()).len() == 0);
    assert(dice(first) =~= Seq::new(count as nat, |i: int| sides));
    assert(dice(ns) =~= Seq::new(count as nat, |i: int| sides));
    assert(vals.subrange(0, count as int) =~= vals);
    assert(total_of(first, vals) == sum(vals));
}

} // verus!
