use ll_syntax_proofer::symbol::{Production, Symbol};
use ll_syntax_proofer::syntax::Syntax;
use ll_syntax_proofer::table::AnalyzeTable;

fn sym(text: &str) -> Symbol {
    Symbol::new(&text.to_string())
}

fn syms(texts: &[&str]) -> Vec<Symbol> {
    texts.iter().map(|t| sym(t)).collect()
}

fn rule(head: &str, body: &[&str]) -> Production {
    Production::new_by_vec(sym(head), &syms(body))
}

fn texts(v: &Vec<Symbol>) -> Vec<String> {
    v.iter().map(|s| s.text.clone()).collect()
}

fn strings(v: &[&str]) -> Vec<String> {
    v.iter().map(|s| s.to_string()).collect()
}

fn grammar(symbols: &[&str], productions: Vec<Production>) -> Syntax {
    Syntax::new(&syms(symbols), &productions).unwrap()
}

fn optional_prefix() -> Syntax {
    grammar(
        &["S", "A", "a", "b", "ε"],
        vec![rule("S", &["A", "b"]), rule("A", &["a"]), rule("A", &["ε"])],
    )
}

fn entry(table: &AnalyzeTable, nonterminal: &str, lookahead: &str) -> Option<Production> {
    table.get(&sym(nonterminal), &sym(lookahead)).map(|p| p.clone())
}

#[test]
fn optional_prefix_is_ll1() {
    let mut g = optional_prefix();
    assert!(g.check_if_ll().is_ok());
    assert!(g.is_generated);
}

#[test]
fn common_prefix_is_not_ll1() {
    let mut g = grammar(&["S", "a", "b"], vec![rule("S", &["a"]), rule("S", &["a", "b"])]);
    let e = g.check_if_ll().unwrap_err();
    assert_eq!(e.nonterminal.text, "S".to_string());
    assert_eq!(texts(&e.overlap), strings(&["a"]));
    assert_eq!(e.first, 0);
    assert_eq!(e.second, 1);
}

#[test]
fn single_alternatives_never_clash() {
    let mut g = grammar(&["S", "A", "a"], vec![rule("S", &["A"]), rule("A", &["a"])]);
    assert!(g.check_if_ll().is_ok());
}

#[test]
fn clash_of_two_among_three_alternatives_is_found() {
    let mut g = grammar(
        &["S", "a", "b", "c"],
        vec![rule("S", &["a"]), rule("S", &["b"]), rule("S", &["b", "c"])],
    );
    let e = g.check_if_ll().unwrap_err();
    assert_eq!(e.nonterminal.text, "S".to_string());
    assert_eq!(texts(&e.overlap), strings(&["b"]));
    assert_eq!((e.first, e.second), (1, 2));
}

#[test]
fn first_clashing_pair_is_reported() {
    let mut g = grammar(
        &["S", "A", "a", "b", "c"],
        vec![
            rule("S", &["A"]),
            rule("A", &["a", "b"]),
            rule("S", &["c"]),
            rule("A", &["a", "c"]),
            rule("S", &["c", "c"]),
        ],
    );
    let e = g.check_if_ll().unwrap_err();
    assert_eq!(e.nonterminal.text, "A".to_string());
    assert_eq!(texts(&e.overlap), strings(&["a"]));
    assert_eq!((e.first, e.second), (1, 3));
}

#[test]
fn every_common_symbol_is_reported_in_symbol_order() {
    let mut g = grammar(
        &["S", "A", "B", "b", "a", "c"],
        vec![
            rule("S", &["A"]),
            rule("S", &["B"]),
            rule("A", &["a"]),
            rule("A", &["b"]),
            rule("A", &["c"]),
            rule("B", &["b", "b"]),
            rule("B", &["a", "a"]),
        ],
    );
    let e = g.check_if_ll().unwrap_err();
    assert_eq!(e.nonterminal.text, "S".to_string());
    assert_eq!(texts(&e.overlap), strings(&["b", "a"]));
}

#[test]
fn clash_through_the_follow_set_is_found() {
    let mut g = grammar(
        &["S", "A", "a", "ε"],
        vec![rule("S", &["A", "a"]), rule("A", &["a"]), rule("A", &["ε"])],
    );
    let e = g.check_if_ll().unwrap_err();
    assert_eq!(e.nonterminal.text, "A".to_string());
    assert_eq!(texts(&e.overlap), strings(&["a"]));
}

#[test]
fn left_recursion_is_not_ll1() {
    let mut g = grammar(&["S", "a", "b"], vec![rule("S", &["S", "a"]), rule("S", &["b"])]);
    let e = g.check_if_ll().unwrap_err();
    assert_eq!(e.nonterminal.text, "S".to_string());
    assert_eq!(texts(&e.overlap), strings(&["b"]));
}

#[test]
fn optional_prefix_table() {
    let mut g = optional_prefix();
    assert!(g.check_if_ll().is_ok());
    let table = g.build_analyze_table();
    assert_eq!(table.analyze_table.len(), 4);
    assert!(entry(&table, "S", "a").unwrap() == rule("S", &["A", "b"]));
    assert!(entry(&table, "S", "b").unwrap() == rule("S", &["A", "b"]));
    assert!(entry(&table, "A", "a").unwrap() == rule("A", &["a"]));
    assert!(entry(&table, "A", "b").unwrap() == rule("A", &["ε"]));
}

#[test]
fn table_holds_nothing_else() {
    let mut g = optional_prefix();
    assert!(g.check_if_ll().is_ok());
    let table = g.build_analyze_table();
    assert!(entry(&table, "S", "eof").is_none());
    assert!(entry(&table, "A", "eof").is_none());
    assert!(entry(&table, "S", "ε").is_none());
    assert!(entry(&table, "A", "ε").is_none());
    assert!(entry(&table, "a", "a").is_none());
    assert!(entry(&table, "S", "c").is_none());
    assert!(entry(&table, "B", "a").is_none());
}

#[test]
fn table_is_built_without_validating_first() {
    let mut g = optional_prefix();
    let table = g.build_analyze_table();
    assert!(g.is_generated);
    assert!(entry(&table, "A", "b").unwrap() == rule("A", &["ε"]));
}

#[test]
fn of_two_entries_with_one_key_the_later_counts() {
    let mut g = optional_prefix();
    let mut table = g.build_analyze_table();
    let mut extra = g.build_analyze_table().analyze_table;
    let mut last = extra.pop().unwrap();
    assert_eq!(last.nonterminal.text, "A".to_string());
    assert_eq!(last.lookahead.text, "b".to_string());
    last.production = rule("A", &["a"]);
    table.analyze_table.push(last);
    assert!(entry(&table, "A", "b").unwrap() == rule("A", &["a"]));
}
