use ll_syntax_proofer::driver::{Driver, Lookahead, ParseError};
use ll_syntax_proofer::rules::GrammarLoadError;
use ll_syntax_proofer::symbol::Symbol;
use ll_syntax_proofer::syntax::Syntax;
use ll_syntax_proofer::syntax_file_parser::SyntaxParser;
use ll_syntax_proofer::table::{parse_lines, AnalyzeTable, RunError, TableError};

fn texts(v: &Vec<Symbol>) -> Vec<String> {
    v.iter().map(|s| s.text.clone()).collect()
}

fn strings(v: &[&str]) -> Vec<String> {
    v.iter().map(|s| s.to_string()).collect()
}

#[test]
fn new_parser_holds_nothing() {
    let p = SyntaxParser::new();
    assert_eq!(p.symbols.len(), 0);
    assert_eq!(p.generators.len(), 0);
}

#[test]
fn line_gives_head_body_and_symbols() {
    let mut p = SyntaxParser::new();
    assert_eq!(p.add_syntax_line("S -> A b".to_string()), Ok(()));
    assert_eq!(texts(&p.symbols), strings(&["S", "A", "b"]));
    assert_eq!(p.generators.len(), 1);
    assert_eq!(p.generators[0].head.text, "S".to_string());
    assert_eq!(texts(&p.generators[0].vec), strings(&["A", "b"]));
}

#[test]
fn white_space_around_head_and_symbols_is_dropped() {
    let mut p = SyntaxParser::new();
    assert_eq!(p.add_syntax_line(" \t S \u{a0} ->\tA   b \r\n".to_string()), Ok(()));
    assert_eq!(texts(&p.symbols), strings(&["S", "A", "b"]));
    assert_eq!(texts(&p.generators[0].vec), strings(&["A", "b"]));
}

#[test]
fn arrow_needs_no_space_around_it() {
    let mut p = SyntaxParser::new();
    assert_eq!(p.add_syntax_line("S->a".to_string()), Ok(()));
    assert_eq!(p.generators[0].head.text, "S".to_string());
    assert_eq!(texts(&p.generators[0].vec), strings(&["a"]));
}

#[test]
fn white_space_of_any_kind_ends_the_body() {
    let mut p = SyntaxParser::new();
    assert_eq!(p.add_syntax_line("S -> a\u{a0}".to_string()), Ok(()));
    assert_eq!(texts(&p.generators[0].vec), strings(&["a"]));
    assert_eq!(p.add_syntax_line("T -> \u{a0} b c \u{2003}".to_string()), Ok(()));
    assert_eq!(texts(&p.generators[1].vec), strings(&["b", "c"]));
    assert_eq!(texts(&p.symbols), strings(&["S", "a", "T", "b", "c"]));
}

#[test]
fn body_may_be_empty() {
    let mut p = SyntaxParser::new();
    assert_eq!(p.add_syntax_line("S ->".to_string()), Ok(()));
    assert_eq!(p.generators[0].vec.len(), 0);
    assert_eq!(texts(&p.symbols), strings(&["S"]));
}

#[test]
fn only_blanks_part_the_symbols_of_a_body() {
    let mut p = SyntaxParser::new();
    assert_eq!(p.add_syntax_line("S -> a\u{a0}b c".to_string()), Ok(()));
    assert_eq!(texts(&p.generators[0].vec), strings(&["a\u{a0}b", "c"]));
}

#[test]
fn head_may_hold_blanks_inside() {
    let mut p = SyntaxParser::new();
    assert_eq!(p.add_syntax_line("A B -> c".to_string()), Ok(()));
    assert_eq!(p.generators[0].head.text, "A B".to_string());
}

#[test]
fn line_without_arrow_is_malformed() {
    let mut p = SyntaxParser::new();
    assert_eq!(p.add_syntax_line("S A b".to_string()), Err(GrammarLoadError::MalformedLine));
    assert_eq!(p.add_syntax_line("".to_string()), Err(GrammarLoadError::MalformedLine));
    assert_eq!(p.add_syntax_line("S => a".to_string()), Err(GrammarLoadError::MalformedLine));
    assert_eq!(p.add_syntax_line("S - > a".to_string()), Err(GrammarLoadError::MalformedLine));
    assert_eq!(p.add_syntax_line("-".to_string()), Err(GrammarLoadError::MalformedLine));
    assert_eq!(p.symbols.len(), 0);
    assert_eq!(p.generators.len(), 0);
}

#[test]
fn line_with_two_arrows_is_malformed() {
    let mut p = SyntaxParser::new();
    assert_eq!(p.add_syntax_line("S -> a -> b".to_string()), Err(GrammarLoadError::MalformedLine));
    assert_eq!(p.add_syntax_line("S ->-> b".to_string()), Err(GrammarLoadError::MalformedLine));
    assert_eq!(p.symbols.len(), 0);
}

#[test]
fn head_must_be_a_nonterminal() {
    let mut p = SyntaxParser::new();
    assert_eq!(p.add_syntax_line("s -> a".to_string()), Err(GrammarLoadError::MalformedLine));
    assert_eq!(p.add_syntax_line("-> a".to_string()), Err(GrammarLoadError::MalformedLine));
    assert_eq!(p.add_syntax_line("ε -> a".to_string()), Err(GrammarLoadError::MalformedLine));
    assert_eq!(p.add_syntax_line("eof -> a".to_string()), Err(GrammarLoadError::MalformedLine));
    assert_eq!(p.symbols.len(), 0);
}

#[test]
fn malformed_line_changes_nothing() {
    let mut p = SyntaxParser::new();
    assert_eq!(p.add_syntax_line("S -> a".to_string()), Ok(()));
    assert_eq!(p.add_syntax_line("nonsense".to_string()), Err(GrammarLoadError::MalformedLine));
    assert_eq!(texts(&p.symbols), strings(&["S", "a"]));
    assert_eq!(p.generators.len(), 1);
}

#[test]
fn nothing_is_held_twice() {
    let mut p = SyntaxParser::new();
    assert_eq!(p.add_syntax_line("S -> A b".to_string()), Ok(()));
    assert_eq!(p.add_syntax_line("A -> a".to_string()), Ok(()));
    assert_eq!(p.add_syntax_line("A -> a A a".to_string()), Ok(()));
    assert_eq!(p.add_syntax_line("S   ->   A   b".to_string()), Ok(()));
    assert_eq!(texts(&p.symbols), strings(&["S", "A", "b", "a"]));
    assert_eq!(p.generators.len(), 3);
}

#[test]
fn table_is_built_from_lines() {
    let lines: Vec<String> = ["S -> A b", "A -> a", "A -> ε"].iter().map(|l| l.to_string()).collect();
    let table = AnalyzeTable::from_syntax_lines(&lines).unwrap();
    assert_eq!(table.analyze_table.len(), 4);
    let a = Symbol::new(&"A".to_string());
    let b = Symbol::new(&"b".to_string());
    assert_eq!(table.get(&a, &b).unwrap().vec[0].text, "ε".to_string());
}

#[test]
fn no_table_is_built_from_lines_that_are_no_grammar() {
    let lines: Vec<String> = ["S -> a", "oops"].iter().map(|l| l.to_string()).collect();
    assert!(matches!(
        AnalyzeTable::from_syntax_lines(&lines),
        Err(TableError::Load(GrammarLoadError::MalformedLine))
    ));
    let lines: Vec<String> = ["A -> a"].iter().map(|l| l.to_string()).collect();
    assert!(matches!(
        AnalyzeTable::from_syntax_lines(&lines),
        Err(TableError::Load(GrammarLoadError::MissingStart))
    ));
    assert!(matches!(
        AnalyzeTable::from_syntax_lines(&Vec::new()),
        Err(TableError::Load(GrammarLoadError::MissingStart))
    ));
}

#[test]
fn no_table_is_built_of_a_grammar_that_is_not_ll1() {
    let lines: Vec<String> = ["S -> a", "S -> a b"].iter().map(|l| l.to_string()).collect();
    match AnalyzeTable::from_syntax_lines(&lines) {
        Err(TableError::NotLL1(e)) => {
            assert_eq!(e.nonterminal.text, "S".to_string());
            assert_eq!(e.overlap.len(), 1);
            assert_eq!(e.overlap[0].text, "a".to_string());
        }
        _ => panic!("no failure of the kind expected"),
    }
}

#[test]
fn read_lines_gives_the_grammar() {
    let lines: Vec<String> = ["S -> A b", "A -> a", "S -> A b"].iter().map(|l| l.to_string()).collect();
    let g = SyntaxParser::read_lines(&lines).unwrap();
    assert_eq!(texts(&g.rules.symbols), strings(&["S", "A", "b", "a", "eof"]));
    assert_eq!(g.rules.productions.len(), 2);
}

#[test]
fn lines_are_parsed_by() {
    let lines: Vec<String> = ["S -> A b", "A -> a", "A -> ε"].iter().map(|l| l.to_string()).collect();
    let a = Lookahead { symbol: Symbol::from("a"), line: 1, column: 1 };
    let b = Lookahead { symbol: Symbol::from("b"), line: 1, column: 2 };
    let trace = parse_lines(&lines, &vec![a.clone(), b.clone()]).unwrap();
    assert_eq!(trace.len(), 2);
    assert_eq!(trace[0].head.text, "S".to_string());
    assert_eq!(trace[1].vec[0].text, "a".to_string());
    assert!(matches!(
        parse_lines(&lines, &vec![a.clone(), a.clone()]),
        Err(RunError::Parse(ParseError::UnexpectedTokenError { .. }))
    ));
    let broken: Vec<String> = vec!["S - a".to_string()];
    assert!(matches!(
        parse_lines(&broken, &vec![a.clone()]),
        Err(RunError::Table(TableError::Load(GrammarLoadError::MalformedLine)))
    ));
    let clash: Vec<String> = ["S -> a", "S -> a b"].iter().map(|l| l.to_string()).collect();
    assert!(matches!(
        parse_lines(&clash, &vec![a.clone()]),
        Err(RunError::Table(TableError::NotLL1(_)))
    ));
}

#[test]
fn sets_are_written_out_from_lines() {
    let lines: Vec<String> = ["S -> A b", "A -> a", "A -> ε"].iter().map(|l| l.to_string()).collect();
    let a = SyntaxParser::analyse_lines(&lines).unwrap();
    assert_eq!(texts(&a.symbols), strings(&["S", "A", "b", "a", "ε", "eof"]));
    assert_eq!(a.productions.len(), 3);
    assert_eq!(texts(&a.nullable), strings(&["A"]));
    assert!(!a.start_nullable);
    assert_eq!(a.first.len(), 6);
    assert_eq!(texts(&a.first[0]), strings(&["b", "a", "ε"]));
    assert_eq!(texts(&a.first[1]), strings(&["a", "ε"]));
    assert_eq!(texts(&a.first[2]), strings(&["b"]));
    assert_eq!(a.follow.len(), 6);
    assert_eq!(texts(a.follow[0].as_ref().unwrap()), strings(&["eof"]));
    assert_eq!(texts(a.follow[1].as_ref().unwrap()), strings(&["b"]));
    assert!(a.follow[2].is_none());
    assert!(a.follow[5].is_none());
    assert_eq!(a.select.len(), 3);
    assert_eq!(texts(&a.select[0]), strings(&["b", "a"]));
    assert_eq!(texts(&a.select[1]), strings(&["a"]));
    assert_eq!(texts(&a.select[2]), strings(&["b"]));
    assert!(matches!(
        SyntaxParser::analyse_lines(&vec!["x".to_string()]),
        Err(GrammarLoadError::MalformedLine)
    ));
}

#[test]
fn start_symbol_may_be_nullable() {
    let lines: Vec<String> = ["S -> a S", "S ->"].iter().map(|l| l.to_string()).collect();
    let a = SyntaxParser::analyse_lines(&lines).unwrap();
    assert!(a.start_nullable);
}

#[test]
fn lines_make_a_grammar_a_table_and_a_parser() {
    let mut p = SyntaxParser::new();
    for line in ["S -> A b", "A -> a", "A -> ε"] {
        assert_eq!(p.add_syntax_line(line.to_string()), Ok(()));
    }
    let mut g = Syntax::new(&p.symbols, &p.generators).unwrap();
    assert!(g.check_if_ll().is_ok());
    let d = Driver::new(g.build_analyze_table());
    let input = vec![
        Lookahead { symbol: Symbol::new(&"a".to_string()), line: 1, column: 1 },
        Lookahead { symbol: Symbol::new(&"b".to_string()), line: 1, column: 3 },
    ];
    assert_eq!(d.parse(&input).unwrap().len(), 2);
}
