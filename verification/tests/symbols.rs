use ll_syntax_proofer::symbol::{Production, Symbol, SymbolKind};
use ll_syntax_proofer::symbol_list::SymBolList;

fn sym(text: &str) -> Symbol {
    Symbol::new(&text.to_string())
}

fn syms(texts: &[&str]) -> Vec<Symbol> {
    texts.iter().map(|t| sym(t)).collect()
}

#[test]
fn new_symbol_keeps_its_text() {
    assert_eq!(sym("Expr").text, "Expr".to_string());
    assert_eq!(sym("+").text, "+".to_string());
}

#[test]
fn uppercase_first_letter_is_a_nonterminal() {
    let s = sym("Stmt");
    assert_eq!(s.kind(), SymbolKind::Nonterminal);
    assert!(s.is_not_end_symbol());
    assert!(!s.is_end_symbol());
    assert!(!s.is_empty_symbol());
}

#[test]
fn lowercase_first_letter_is_a_terminal() {
    let s = sym("stmt");
    assert_eq!(s.kind(), SymbolKind::Terminal);
    assert!(s.is_end_symbol());
    assert!(!s.is_not_end_symbol());
}

#[test]
fn only_the_first_letter_decides() {
    assert_eq!(sym("aB").kind(), SymbolKind::Terminal);
    assert_eq!(sym("Ab").kind(), SymbolKind::Nonterminal);
}

#[test]
fn punctuation_and_digits_are_terminals() {
    assert_eq!(sym("+").kind(), SymbolKind::Terminal);
    assert_eq!(sym("(").kind(), SymbolKind::Terminal);
    assert_eq!(sym("1x").kind(), SymbolKind::Terminal);
}

#[test]
fn uppercase_beyond_ascii_is_a_nonterminal() {
    assert_eq!(sym("Ärger").kind(), SymbolKind::Nonterminal);
    assert_eq!(sym("ärger").kind(), SymbolKind::Terminal);
}

#[test]
fn empty_name_is_a_terminal() {
    assert_eq!(sym("").kind(), SymbolKind::Terminal);
}

#[test]
fn empty_marker_is_neither_terminal_nor_nonterminal() {
    let e = Symbol::empty_symbol();
    assert_eq!(e.text, "ε".to_string());
    assert_eq!(e.kind(), SymbolKind::Empty);
    assert!(e.is_empty_symbol());
    assert!(!e.is_end_symbol());
    assert!(!e.is_not_end_symbol());
    assert!(sym("ε").is_empty_symbol());
}

#[test]
fn end_of_input_marker_is_a_terminal() {
    let e = Symbol::eof_symbol();
    assert_eq!(e.text, "eof".to_string());
    assert_eq!(e.kind(), SymbolKind::EndOfInput);
    assert!(e.is_end_symbol());
    assert!(!e.is_not_end_symbol());
    assert!(!e.is_empty_symbol());
    assert_eq!(sym("eof").kind(), SymbolKind::EndOfInput);
}

#[test]
fn names_near_the_reserved_ones_are_ordinary() {
    assert_eq!(sym("eo").kind(), SymbolKind::Terminal);
    assert_eq!(sym("eofx").kind(), SymbolKind::Terminal);
    assert_eq!(sym("Eof").kind(), SymbolKind::Nonterminal);
    assert_eq!(sym("εε").kind(), SymbolKind::Terminal);
}

#[test]
fn symbols_are_equal_by_name() {
    assert!(sym("a") == sym("a"));
    assert!(sym("a") != sym("b"));
    assert!(sym("a") != sym("A"));
    assert!(sym("a").clone() == sym("a"));
}

#[test]
fn symbol_is_made_from_a_string() {
    let s = Symbol::from("Expr".to_string());
    assert_eq!(s.text, "Expr".to_string());
    assert!(s == sym("Expr"));
}

#[test]
fn symbol_is_made_from_a_text() {
    let s = Symbol::from("expr");
    assert_eq!(s.text, "expr".to_string());
    assert!(s == sym("expr"));
    assert!(Symbol::from("") == sym(""));
}

#[test]
fn production_keeps_head_and_body() {
    let body = syms(&["A", "b"]);
    let p = Production::new_by_vec(sym("S"), &body);
    assert_eq!(p.head.text, "S".to_string());
    assert_eq!(p.vec.len(), 2);
    assert_eq!(p.vec[0].text, "A".to_string());
    assert_eq!(p.vec[1].text, "b".to_string());
}

#[test]
fn productions_are_equal_by_head_and_body() {
    let p = Production::new_by_vec(sym("S"), &syms(&["A", "b"]));
    assert!(p == Production::new_by_vec(sym("S"), &syms(&["A", "b"])));
    assert!(p != Production::new_by_vec(sym("T"), &syms(&["A", "b"])));
    assert!(p != Production::new_by_vec(sym("S"), &syms(&["b", "A"])));
    assert!(p != Production::new_by_vec(sym("S"), &syms(&["A"])));
    assert!(p.clone() == p);
}

#[test]
fn production_with_a_terminal_contains_an_end_symbol() {
    let p = Production::new_by_vec(sym("S"), &syms(&["A", "b"]));
    assert!(p.is_contain_end_symbol());
    assert!(!p.is_not_contain_end_symbol());
}

#[test]
fn production_of_nonterminals_contains_no_end_symbol() {
    let p = Production::new_by_vec(sym("S"), &syms(&["A", "B"]));
    assert!(!p.is_contain_end_symbol());
    assert!(p.is_not_contain_end_symbol());
    let e = Production::new_by_vec(sym("S"), &syms(&["ε"]));
    assert!(!e.is_contain_end_symbol());
    let none = Production::new_by_vec(sym("S"), &syms(&[]));
    assert!(none.is_not_contain_end_symbol());
}

#[test]
fn epsilon_production_is_the_marker_alone() {
    assert!(Production::new_by_vec(sym("A"), &syms(&["ε"])).is_empty_production());
    assert!(!Production::new_by_vec(sym("A"), &syms(&["ε", "ε"])).is_empty_production());
    assert!(!Production::new_by_vec(sym("A"), &syms(&["a"])).is_empty_production());
    assert!(!Production::new_by_vec(sym("A"), &syms(&[])).is_empty_production());
}

#[test]
fn symbol_list_tells_terminals() {
    let l = SymBolList { vec: syms(&["A", "b"]) };
    assert!(l.is_contain_end_symbol());
    assert!(!l.is_not_contain_end_symbol());
    let m = SymBolList { vec: syms(&["A", "B"]) };
    assert!(!m.is_contain_end_symbol());
    assert!(m.is_not_contain_end_symbol());
}

#[test]
fn symbol_list_tells_the_empty_string() {
    assert!(SymBolList { vec: syms(&["ε"]) }.is_empty_str_symbol_list());
    assert!(!SymBolList { vec: syms(&["a"]) }.is_empty_str_symbol_list());
    assert!(!SymBolList { vec: syms(&[]) }.is_empty_str_symbol_list());
}

#[test]
fn symbol_list_all_nonterminals_known_true() {
    let l = SymBolList { vec: syms(&["A", "b", "C"]) };
    let all = vec![(sym("A"), true), (sym("C"), true)];
    assert!(l.is_all_true_not_end_symbol(&all));
    let one_false = vec![(sym("A"), true), (sym("C"), false)];
    assert!(!l.is_all_true_not_end_symbol(&one_false));
    let one_missing = vec![(sym("A"), true)];
    assert!(!l.is_all_true_not_end_symbol(&one_missing));
    let terminals = SymBolList { vec: syms(&["a", "b"]) };
    assert!(terminals.is_all_true_not_end_symbol(&Vec::new()));
}

#[test]
fn symbol_list_later_status_counts() {
    let l = SymBolList { vec: syms(&["A"]) };
    let status = vec![(sym("A"), false), (sym("A"), true)];
    assert!(l.is_all_true_not_end_symbol(&status));
    let status = vec![(sym("A"), true), (sym("A"), false)];
    assert!(!l.is_all_true_not_end_symbol(&status));
}

#[test]
fn symbol_list_some_nonterminal_not_known_false() {
    let l = SymBolList { vec: syms(&["A", "b", "C"]) };
    let both_false = vec![(sym("A"), false), (sym("C"), false)];
    assert!(!l.is_contain_false_not_end_symbol(&both_false));
    let one_true = vec![(sym("A"), false), (sym("C"), true)];
    assert!(l.is_contain_false_not_end_symbol(&one_true));
    let one_missing = vec![(sym("A"), false)];
    assert!(l.is_contain_false_not_end_symbol(&one_missing));
    let terminals = SymBolList { vec: syms(&["a", "b"]) };
    assert!(!terminals.is_contain_false_not_end_symbol(&Vec::new()));
}
