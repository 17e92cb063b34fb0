use ll_syntax_proofer::driver::{Action, Driver, Lookahead, ParseError};
use ll_syntax_proofer::symbol::{Production, Symbol};
use ll_syntax_proofer::syntax::Syntax;

fn sym(text: &str) -> Symbol {
    Symbol::new(&text.to_string())
}

fn syms(texts: &[&str]) -> Vec<Symbol> {
    texts.iter().map(|t| sym(t)).collect()
}

fn rule(head: &str, body: &[&str]) -> Production {
    Production::new_by_vec(sym(head), &syms(body))
}

fn texts(v: &Vec<Symbol>) -> Vec<String> {
    v.iter().map(|s| s.text.clone()).collect()
}

fn strings(v: &[&str]) -> Vec<String> {
    v.iter().map(|s| s.to_string()).collect()
}

fn tokens(texts: &[&str]) -> Vec<Lookahead> {
    let mut out = Vec::new();
    for (i, t) in texts.iter().enumerate() {
        out.push(Lookahead { symbol: sym(t), line: 1, column: 2 * i + 1 });
    }
    out
}

fn driver(symbols: &[&str], productions: Vec<Production>) -> Driver {
    let mut g = Syntax::new(&syms(symbols), &productions).unwrap();
    assert!(g.check_if_ll().is_ok());
    Driver::new(g.build_analyze_table())
}

fn optional_prefix() -> Driver {
    driver(
        &["S", "A", "a", "b", "ε"],
        vec![rule("S", &["A", "b"]), rule("A", &["a"]), rule("A", &["ε"])],
    )
}

fn arithmetic() -> Driver {
    driver(
        &["S", "E", "R", "T", "Q", "F", "+", "*", "(", ")", "id", "ε"],
        vec![
            rule("S", &["E"]),
            rule("E", &["T", "R"]),
            rule("R", &["+", "T", "R"]),
            rule("R", &["ε"]),
            rule("T", &["F", "Q"]),
            rule("Q", &["*", "F", "Q"]),
            rule("Q", &["ε"]),
            rule("F", &["(", "E", ")"]),
            rule("F", &["id"]),
        ],
    )
}

fn same(trace: &Vec<Production>, expected: &Vec<Production>) -> bool {
    trace.len() == expected.len() && trace.iter().zip(expected.iter()).all(|(a, b)| a == b)
}

#[test]
fn optional_prefix_accepts_a_b() {
    let d = optional_prefix();
    let trace = d.parse(&tokens(&["a", "b"])).unwrap();
    assert!(same(&trace, &vec![rule("S", &["A", "b"]), rule("A", &["a"])]));
}

#[test]
fn optional_prefix_accepts_b_through_the_epsilon_alternative() {
    let d = optional_prefix();
    let trace = d.parse(&tokens(&["b"])).unwrap();
    assert!(same(&trace, &vec![rule("S", &["A", "b"]), rule("A", &["ε"])]));
}

#[test]
fn optional_prefix_fails_on_c() {
    let d = optional_prefix();
    let input = vec![Lookahead { symbol: sym("c"), line: 3, column: 7 }];
    match d.parse(&input) {
        Err(ParseError::NoApplicableProductionError { nonterminal, lookahead, line, column }) => {
            assert_eq!(nonterminal.text, "S".to_string());
            assert_eq!(lookahead.text, "c".to_string());
            assert_eq!((line, column), (3, 7));
        }
        _ => panic!("no failure of the kind expected"),
    }
}

#[test]
fn terminal_on_top_that_is_not_the_lookahead_is_unexpected() {
    let d = optional_prefix();
    let input = vec![
        Lookahead { symbol: sym("a"), line: 1, column: 1 },
        Lookahead { symbol: sym("a"), line: 2, column: 5 },
    ];
    match d.parse(&input) {
        Err(ParseError::UnexpectedTokenError { expected, found, line, column }) => {
            assert_eq!(expected.text, "b".to_string());
            assert_eq!(found.text, "a".to_string());
            assert_eq!((line, column), (2, 5));
        }
        _ => panic!("no failure of the kind expected"),
    }
}

#[test]
fn input_that_ends_too_soon_finds_the_end_of_input() {
    let d = optional_prefix();
    match d.parse(&tokens(&["a"])) {
        Err(ParseError::UnexpectedTokenError { expected, found, line, column }) => {
            assert_eq!(expected.text, "b".to_string());
            assert_eq!(found.text, "eof".to_string());
            assert_eq!((line, column), (0, 0));
        }
        _ => panic!("no failure of the kind expected"),
    }
    match d.parse(&tokens(&[])) {
        Err(ParseError::NoApplicableProductionError { nonterminal, lookahead, .. }) => {
            assert_eq!(nonterminal.text, "S".to_string());
            assert_eq!(lookahead.text, "eof".to_string());
        }
        _ => panic!("no failure of the kind expected"),
    }
}

#[test]
fn input_that_goes_on_too_long_is_unexpected() {
    let d = optional_prefix();
    match d.parse(&tokens(&["a", "b", "b"])) {
        Err(ParseError::UnexpectedTokenError { expected, found, line, column }) => {
            assert_eq!(expected.text, "eof".to_string());
            assert_eq!(found.text, "b".to_string());
            assert_eq!((line, column), (1, 5));
        }
        _ => panic!("no failure of the kind expected"),
    }
}

#[test]
fn a_token_of_end_of_input_ends_the_parse() {
    let d = optional_prefix();
    let trace = d.parse(&tokens(&["a", "b", "eof"])).unwrap();
    assert_eq!(trace.len(), 2);
    let trace = d.parse(&tokens(&["b", "eof", "a", "a"])).unwrap();
    assert_eq!(trace.len(), 2);
}

#[test]
fn parse_needs_a_step_for_each_production_each_token_and_the_end() {
    let d = optional_prefix();
    assert!(d.parse_within(&tokens(&["a", "b"]), 5).is_ok());
    assert!(matches!(d.parse_within(&tokens(&["a", "b"]), 4), Err(ParseError::StepLimit)));
    assert!(matches!(d.parse_within(&tokens(&["a", "b"]), 0), Err(ParseError::StepLimit)));
}

#[test]
fn parse_within_and_parse_agree() {
    let d = optional_prefix();
    for input in [tokens(&["a", "b"]), tokens(&["b"]), tokens(&["c"]), tokens(&["a", "a"])] {
        match (d.parse(&input), d.parse_within(&input, 50)) {
            (Ok(a), Ok(b)) => assert!(same(&a, &b)),
            (Err(ParseError::UnexpectedTokenError { expected: a, .. }),
                Err(ParseError::UnexpectedTokenError { expected: b, .. })) => assert!(a == b),
            (Err(ParseError::NoApplicableProductionError { nonterminal: a, .. }),
                Err(ParseError::NoApplicableProductionError { nonterminal: b, .. })) => {
                assert!(a == b)
            }
            _ => panic!("the outcomes differ"),
        }
    }
}

#[test]
fn parse_within_stops_a_table_that_runs_in_a_circle() {
    let d = optional_prefix();
    let mut table = d.table;
    let mut entry = table.analyze_table.pop().unwrap();
    entry.nonterminal = sym("S");
    entry.lookahead = sym("a");
    entry.production = rule("S", &["S"]);
    table.analyze_table.push(entry);
    let d = Driver::new(table);
    assert!(matches!(d.parse_within(&tokens(&["a"]), 10000), Err(ParseError::StepLimit)));
}

#[test]
fn table_serves_any_number_of_parses() {
    let d = optional_prefix();
    for _ in 0..3 {
        assert!(d.parse(&tokens(&["a", "b"])).is_ok());
        assert!(d.parse(&tokens(&["b"])).is_ok());
        assert!(d.parse(&tokens(&["c"])).is_err());
    }
}

#[test]
fn parse_reproduces_a_leftmost_derivation() {
    let d = arithmetic();
    // S => E => T R => F Q R => id Q R => id * F Q R => id * ( E ) Q R => ...
    let input = tokens(&["id", "*", "(", "id", "+", "id", ")"]);
    let expected = vec![
        rule("S", &["E"]),
        rule("E", &["T", "R"]),
        rule("T", &["F", "Q"]),
        rule("F", &["id"]),
        rule("Q", &["*", "F", "Q"]),
        rule("F", &["(", "E", ")"]),
        rule("E", &["T", "R"]),
        rule("T", &["F", "Q"]),
        rule("F", &["id"]),
        rule("Q", &["ε"]),
        rule("R", &["+", "T", "R"]),
        rule("T", &["F", "Q"]),
        rule("F", &["id"]),
        rule("Q", &["ε"]),
        rule("R", &["ε"]),
        rule("Q", &["ε"]),
        rule("R", &["ε"]),
    ];
    let trace = d.parse_within(&input, expected.len() + input.len() + 1).unwrap();
    assert!(same(&trace, &expected));
    assert!(same(&d.parse(&input).unwrap(), &expected));
    assert!(matches!(
        d.parse_within(&input, expected.len() + input.len()),
        Err(ParseError::StepLimit)
    ));
}

#[test]
fn arithmetic_refuses_a_dangling_operator() {
    let d = arithmetic();
    match d.parse(&tokens(&["id", "+"])) {
        Err(ParseError::NoApplicableProductionError { nonterminal, lookahead, .. }) => {
            assert_eq!(nonterminal.text, "T".to_string());
            assert_eq!(lookahead.text, "eof".to_string());
        }
        _ => panic!("no failure of the kind expected"),
    }
}

#[test]
fn start_stack_holds_the_start_symbol_above_the_marker() {
    assert_eq!(texts(&Driver::start_stack()), strings(&["eof", "S"]));
}

#[test]
fn body_is_pushed_last_symbol_first_without_the_empty_marker() {
    let mut stack = syms(&["eof"]);
    Driver::push_body(&mut stack, &syms(&["A", "ε", "b", "C"]));
    assert_eq!(texts(&stack), strings(&["eof", "C", "b", "A"]));
    Driver::push_body(&mut stack, &syms(&["ε"]));
    assert_eq!(texts(&stack), strings(&["eof", "C", "b", "A"]));
}

#[test]
fn steps_expand_shift_and_accept() {
    let d = optional_prefix();
    let mut stack = Driver::start_stack();
    let a = Lookahead { symbol: sym("a"), line: 1, column: 1 };
    let b = Lookahead { symbol: sym("b"), line: 1, column: 2 };
    match d.step(&mut stack, &a) {
        Ok(Action::Expand(p)) => assert!(p == rule("S", &["A", "b"])),
        _ => panic!("no expansion"),
    }
    assert_eq!(texts(&stack), strings(&["eof", "b", "A"]));
    match d.step(&mut stack, &a) {
        Ok(Action::Expand(p)) => assert!(p == rule("A", &["a"])),
        _ => panic!("no expansion"),
    }
    assert_eq!(texts(&stack), strings(&["eof", "b", "a"]));
    assert!(matches!(d.step(&mut stack, &a), Ok(Action::Shift)));
    assert_eq!(texts(&stack), strings(&["eof", "b"]));
    assert!(matches!(d.step(&mut stack, &b), Ok(Action::Shift)));
    assert_eq!(texts(&stack), strings(&["eof"]));
    assert!(matches!(d.step(&mut stack, &Lookahead::end()), Ok(Action::Accept)));
    assert_eq!(texts(&stack), strings(&["eof"]));
}

#[test]
fn failing_step_leaves_the_stack_alone() {
    let d = optional_prefix();
    let mut stack = Driver::start_stack();
    let c = Lookahead { symbol: sym("c"), line: 1, column: 1 };
    assert!(d.step(&mut stack, &c).is_err());
    assert_eq!(texts(&stack), strings(&["eof", "S"]));
}
