use dicelang::{d, eof, lex, minus, number, parse, plus, Expr, Node, RollResult, RootNode};

#[test]
fn test_lex() {
    assert_eq!(
        lex("-d40+2d4+1-3-1d6+3d1").unwrap(),
        vec![
            minus(),
            d(),
            number(String::from("40")),
            plus(),
            number(String::from("2")),
            d(),
            number(String::from("4")),
            plus(),
            number(String::from("1")),
            minus(),
            number(String::from("3")),
            minus(),
            number(String::from("1")),
            d(),
            number(String::from("6")),
            plus(),
            number(String::from("3")),
            d(),
            number(String::from("1")),
            eof(),
        ]
    )
}

#[test]
fn test_parse() {
    assert_eq!(
        parse("-d40+2d4+1-3-1d6+3d1").unwrap(),
        Expr(vec![
            Node::Sub(RootNode::Roll(1, 40)),
            Node::Add(RootNode::Roll(2, 4)),
            Node::Add(RootNode::Constant(1)),
            Node::Sub(RootNode::Constant(3)),
            Node::Sub(RootNode::Roll(1, 6)),
            Node::Add(RootNode::Roll(3, 1)),
        ])
    )
}

#[test]
fn test_eval() {
    let expr = parse("-d40+2d4+1-3-1d6+3d1").unwrap();
    let (result, rolls) = expr.eval();
    println!("{result}");
    assert_eq!(rolls.len(), 7);
    assert!(result >= -40 - 6 + 2 + 1 - 3 + 3 && result <= -1 + 8 + 1 - 3 - 1 + 3);

    let expr = parse("2d40+3").unwrap();
    let (result, _) = expr.eval();
    println!("{result}");
}

#[test]
fn two_d40_plus_three_is_two_rolls_plus_three() {
    let expr = parse("2d40+3").unwrap();
    for _ in 0..50 {
        let (total, rolls) = expr.eval();
        assert_eq!(rolls.len(), 2);
        for r in &rolls {
            assert_eq!(r.die, 40);
            assert!(r.result >= 1 && r.result <= 40);
        }
        assert_eq!(total - 3, (rolls[0].result + rolls[1].result) as i64);
    }
}

#[test]
fn constants_only_are_deterministic() {
    let expr = parse("5-2+10").unwrap();
    for _ in 0..10 {
        let (total, rolls) = expr.eval();
        assert_eq!(total, 13);
        assert!(rolls.is_empty());
    }
}

#[test]
fn malformed_inputs_are_parse_errors() {
    assert_eq!(parse("d").unwrap_err(), "d must be followed by number");
    assert_eq!(parse("+").unwrap_err(), "expected a number or d");
    assert_eq!(parse("3dd4").unwrap_err(), "d must be followed by number");
    assert_eq!(parse("3d").unwrap_err(), "d must be followed by number");
    assert_eq!(parse("2+-3").unwrap_err(), "expected a number or d");
}

#[test]
fn unknown_characters_are_lex_errors() {
    assert_eq!(parse("2 d6").unwrap_err(), "unexpected character ' '");
    assert_eq!(parse("2D6x").unwrap_err(), "unexpected character 'D'unexpected character 'x'");
    let errs = lex("1é").unwrap_err();
    assert_eq!(errs, vec![String::from("unexpected character 'é'")]);
}

#[test]
fn numbers_out_of_range_are_parse_errors() {
    assert_eq!(
        parse("4294967296").unwrap_err(),
        "parsing 4294967296 to int: number too large to fit in target type"
    );
    assert_eq!(parse("1d4294967296").unwrap_err(), "parsing 4294967296 to int: number too large to fit in target type");
    assert_eq!(parse("4294967295").unwrap(), Expr(vec![Node::Add(RootNode::Constant(4294967295))]));
}

#[test]
fn zero_sided_dice_are_refused() {
    assert_eq!(parse("2d0").unwrap_err(), "a die must have at least one side");
    assert_eq!(parse("d0").unwrap_err(), "a die must have at least one side");
    assert_eq!(parse("0d6").unwrap(), Expr(vec![Node::Add(RootNode::Roll(0, 6))]));
}

#[test]
fn totals_beyond_i64_are_refused() {
    let big = "4294967295d4294967295";
    assert_eq!(parse(big).unwrap_err(), "the total could exceed the range of a 64-bit integer");
    let fits = "2147483647d4294967295";
    assert!(parse(fits).is_ok());
}

#[test]
fn whitespace_around_the_input_is_trimmed() {
    assert_eq!(parse("  3d6+1\n").unwrap(), parse("3d6+1").unwrap());
    assert_eq!(parse("   ").unwrap(), Expr(vec![]));
}

#[test]
fn rendering_is_canonical() {
    assert_eq!(parse("-d40+2d4+1-3-1d6+3d1").unwrap().to_string(), "-1d40+2d4+1-3-1d6+3d1");
    assert_eq!(parse("+007+d6").unwrap().to_string(), "7+1d6");
    assert_eq!(parse("").unwrap().to_string(), "");
    assert_eq!(parse("0").unwrap().to_string(), "0");
}

#[test]
fn rendering_twice_is_rendering_once() {
    for s in ["-d40+2d4+1-3-1d6+3d1", "+007+d6", "10", "-0d9", ""] {
        let once = parse(s).unwrap().to_string();
        let twice = parse(&once).unwrap().to_string();
        assert_eq!(once, twice);
    }
}

#[test]
fn roll_results_render_as_die_and_value() {
    let r = RollResult { die: 20, result: 17 };
    assert_eq!(r.to_string(), "d20:17");
}

#[test]
fn tally_applies_signs_and_logs_rolls_in_order() {
    let e = Expr(vec![
        Node::Sub(RootNode::Roll(1, 40)),
        Node::Add(RootNode::Roll(2, 4)),
        Node::Add(RootNode::Constant(1)),
        Node::Sub(RootNode::Constant(3)),
    ]);
    assert!(e.is_evaluable());
    assert_eq!(e.dice(), vec![40, 4, 4]);
    let (total, rolls) = e.tally(&vec![17, 3, 2]);
    assert_eq!(total, -17 + 3 + 2 + 1 - 3);
    assert_eq!(
        rolls,
        vec![
            RollResult { die: 40, result: 17 },
            RollResult { die: 4, result: 3 },
            RollResult { die: 4, result: 2 },
        ]
    );
}

#[test]
fn directly_built_terms_evaluate_in_range() {
    let e = Expr(vec![Node::Sub(RootNode::Roll(3, 6)), Node::Add(RootNode::Constant(100))]);
    for _ in 0..20 {
        let (total, rolls) = e.eval();
        assert_eq!(rolls.len(), 3);
        assert!(rolls.iter().all(|r| r.die == 6 && r.result >= 1 && r.result <= 6));
        let s: i64 = rolls.iter().map(|r| r.result as i64).sum();
        assert_eq!(total, 100 - s);
    }
    let one = Expr(vec![Node::Add(RootNode::Roll(4, 1))]);
    assert_eq!(one.eval().0, 4);
}

#[test]
fn zero_sided_or_oversized_exprs_are_not_evaluable() {
    assert!(!Expr(vec![Node::Add(RootNode::Roll(1, 0))]).is_evaluable());
    let big = Expr(vec![
        Node::Add(RootNode::Roll(u32::MAX, u32::MAX)),
        Node::Sub(RootNode::Constant(1)),
    ]);
    assert!(!big.is_evaluable());
    assert!(Expr(vec![]).is_evaluable());
}

#[test]
fn unicode_whitespace_around_the_input_is_trimmed() {
    assert_eq!(
        parse("\u{3000}\u{85}2d6\u{a0}\t").unwrap(),
        Expr(vec![Node::Add(RootNode::Roll(2, 6))])
    );
    assert_eq!(parse("2d6\u{200b}").unwrap_err(), "unexpected character '\u{200b}'");
}

#[test]
fn tally_of_dice_plus_constant_is_their_sum_plus_it() {
    let e = parse("2d40+3").unwrap();
    assert_eq!(e.dice(), vec![40, 40]);
    let (total, rolls) = e.tally(&vec![17, 40]);
    assert_eq!(total - 3, 17 + 40);
    assert_eq!(rolls.len(), 2);
}
