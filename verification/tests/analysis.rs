use ll_syntax_proofer::bits::{new_row, new_table};
use ll_syntax_proofer::rules::{GrammarLoadError, Rules};
use ll_syntax_proofer::symbol::{Production, Symbol, SymbolKind};
use ll_syntax_proofer::syntax::Syntax;
use ll_syntax_proofer::util::{calc_set_map_len, checked_set_map_len};

fn sym(text: &str) -> Symbol {
    Symbol::new(&text.to_string())
}

fn syms(texts: &[&str]) -> Vec<Symbol> {
    texts.iter().map(|t| sym(t)).collect()
}

fn rule(head: &str, body: &[&str]) -> Production {
    Production::new_by_vec(sym(head), &syms(body))
}

fn texts(v: &Vec<Symbol>) -> Vec<String> {
    v.iter().map(|s| s.text.clone()).collect()
}

fn strings(v: &[&str]) -> Vec<String> {
    v.iter().map(|s| s.to_string()).collect()
}

fn optional_prefix() -> Syntax {
    let symbols = syms(&["S", "A", "a", "b", "ε"]);
    let productions = vec![rule("S", &["A", "b"]), rule("A", &["a"]), rule("A", &["ε"])];
    Syntax::new(&symbols, &productions).unwrap()
}

fn arithmetic() -> Syntax {
    let symbols = syms(&["S", "E", "R", "T", "Q", "F", "+", "*", "(", ")", "id", "ε"]);
    let productions = vec![
        rule("S", &["E"]),
        rule("E", &["T", "R"]),
        rule("R", &["+", "T", "R"]),
        rule("R", &["ε"]),
        rule("T", &["F", "Q"]),
        rule("Q", &["*", "F", "Q"]),
        rule("Q", &["ε"]),
        rule("F", &["(", "E", ")"]),
        rule("F", &["id"]),
    ];
    Syntax::new(&symbols, &productions).unwrap()
}

#[test]
fn new_grammar_holds_no_set() {
    let g = optional_prefix();
    assert!(!g.is_generated);
    assert_eq!(g.nullable.len(), 0);
    assert_eq!(g.first.len(), 0);
    assert_eq!(g.follow.len(), 0);
    assert_eq!(g.select.len(), 0);
}

#[test]
fn computing_a_set_again_loses_no_member() {
    let mut g = arithmetic();
    g.calc_empty_set();
    let nullable = g.nullable.clone();
    assert_eq!(nullable.iter().filter(|f| **f).count(), 2);
    g.calc_empty_set();
    assert_eq!(g.nullable, nullable);
    g.calc_first_set();
    let first = g.first.clone();
    g.calc_first_set();
    assert_eq!(g.first, first);
    g.calc_follow_set();
    let follow = g.follow.clone();
    g.calc_follow_set();
    assert_eq!(g.follow, follow);
}

#[test]
fn follow_sets_stay_within_nonterminal_rows_and_terminal_columns() {
    let mut g = arithmetic();
    g.generate_sets();
    let nonterminals = g.rules.kinds.iter().filter(|k| **k == SymbolKind::Nonterminal).count();
    let terminals = g
        .rules
        .kinds
        .iter()
        .filter(|k| **k == SymbolKind::Terminal || **k == SymbolKind::EndOfInput)
        .count();
    assert_eq!((nonterminals, terminals), (6, 6));
    assert!(calc_set_map_len(&g.follow) <= nonterminals * terminals);
    assert!(g.nullable.iter().filter(|f| **f).count() <= 6);
}

#[test]
fn new_adds_the_end_of_input_marker() {
    let g = optional_prefix();
    assert_eq!(texts(&g.rules.symbols), strings(&["S", "A", "a", "b", "ε", "eof"]));
    assert!(!g.is_generated);
}

#[test]
fn new_keeps_a_listed_end_of_input_marker_in_place() {
    let g = Syntax::new(&syms(&["eof", "S", "a"]), &vec![rule("S", &["a"])]).unwrap();
    assert_eq!(texts(&g.rules.symbols), strings(&["eof", "S", "a"]));
}

#[test]
fn new_keeps_each_symbol_and_production_once() {
    let symbols = syms(&["S", "a", "S", "a", "b"]);
    let productions = vec![rule("S", &["a"]), rule("S", &["b"]), rule("S", &["a"])];
    let g = Syntax::new(&symbols, &productions).unwrap();
    assert_eq!(texts(&g.rules.symbols), strings(&["S", "a", "b", "eof"]));
    assert_eq!(g.rules.productions.len(), 2);
    assert!(g.rules.productions[0] == rule("S", &["a"]));
    assert!(g.rules.productions[1] == rule("S", &["b"]));
}

#[test]
fn new_records_classes_and_positions() {
    let g = optional_prefix();
    assert_eq!(
        g.rules.kinds,
        vec![
            SymbolKind::Nonterminal,
            SymbolKind::Nonterminal,
            SymbolKind::Terminal,
            SymbolKind::Terminal,
            SymbolKind::Empty,
            SymbolKind::EndOfInput
        ]
    );
    assert_eq!(g.rules.heads, vec![0, 1, 1]);
    assert_eq!(g.rules.bodies, vec![vec![1, 3], vec![2], vec![4]]);
    assert_eq!(g.rules.start, 0);
    assert_eq!(g.rules.eof, 5);
}

#[test]
fn new_refuses_a_head_that_is_no_nonterminal() {
    let r = Syntax::new(&syms(&["S", "a", "b"]), &vec![rule("S", &["a"]), rule("a", &["b"])]);
    assert!(matches!(r, Err(GrammarLoadError::InvalidHead { production: 1 })));
    let r = Syntax::new(&syms(&["S", "ε"]), &vec![rule("ε", &["S"])]);
    assert!(matches!(r, Err(GrammarLoadError::InvalidHead { production: 0 })));
}

#[test]
fn new_refuses_an_undeclared_symbol() {
    let r = Syntax::new(&syms(&["S", "a"]), &vec![rule("S", &["a"]), rule("S", &["a", "b"])]);
    assert!(matches!(r, Err(GrammarLoadError::UndeclaredSymbol { production: 1 })));
    let r = Syntax::new(&syms(&["S", "a"]), &vec![rule("T", &["a"])]);
    assert!(matches!(r, Err(GrammarLoadError::UndeclaredSymbol { production: 0 })));
}

#[test]
fn new_reports_the_first_production_at_fault() {
    let r = Syntax::new(
        &syms(&["S", "a"]),
        &vec![rule("S", &["a"]), rule("S", &["b"]), rule("a", &["a"])],
    );
    assert!(matches!(r, Err(GrammarLoadError::UndeclaredSymbol { production: 1 })));
}

#[test]
fn new_refuses_a_grammar_without_start_symbol() {
    let r = Syntax::new(&syms(&["A", "a"]), &vec![rule("A", &["a"])]);
    assert!(matches!(r, Err(GrammarLoadError::MissingStart)));
    let r = Rules::build(&Vec::new(), &Vec::new());
    assert!(matches!(r, Err(GrammarLoadError::MissingStart)));
}

#[test]
fn new_accepts_the_marker_of_end_of_input_in_a_body() {
    let mut g = Syntax::new(&syms(&["S", "a"]), &vec![rule("S", &["a", "eof"])]).unwrap();
    assert_eq!(texts(&g.first_set(&sym("S")).unwrap()), strings(&["a"]));
}

#[test]
fn optional_prefix_nullable() {
    let mut g = optional_prefix();
    assert_eq!(texts(&g.nullable_set()), strings(&["A"]));
    assert!(g.is_nullable(&sym("A")));
    assert!(!g.is_nullable(&sym("S")));
    assert!(!g.is_nullable(&sym("a")));
    assert!(!g.is_nullable(&sym("ε")));
    assert!(!g.is_nullable(&sym("Z")));
    assert!(g.is_generated);
}

#[test]
fn optional_prefix_first() {
    let mut g = optional_prefix();
    assert_eq!(texts(&g.first_set(&sym("A")).unwrap()), strings(&["a", "ε"]));
    assert_eq!(texts(&g.first_set(&sym("S")).unwrap()), strings(&["a", "b", "ε"]));
    assert_eq!(texts(&g.first_set(&sym("a")).unwrap()), strings(&["a"]));
    assert_eq!(texts(&g.first_set(&sym("ε")).unwrap()), strings(&["ε"]));
    assert_eq!(texts(&g.first_set(&sym("eof")).unwrap()), strings(&["eof"]));
    assert!(g.first_set(&sym("c")).is_none());
}

#[test]
fn optional_prefix_follow() {
    let mut g = optional_prefix();
    assert_eq!(texts(&g.follow_set(&sym("A")).unwrap()), strings(&["b"]));
    assert_eq!(texts(&g.follow_set(&sym("S")).unwrap()), strings(&["eof"]));
    assert!(g.follow_set(&sym("a")).is_none());
    assert!(g.follow_set(&sym("Z")).is_none());
}

#[test]
fn optional_prefix_select() {
    let mut g = optional_prefix();
    assert_eq!(texts(&g.select_set(&rule("A", &["a"])).unwrap()), strings(&["a"]));
    assert_eq!(texts(&g.select_set(&rule("A", &["ε"])).unwrap()), strings(&["b"]));
    assert_eq!(texts(&g.select_set(&rule("S", &["A", "b"])).unwrap()), strings(&["a", "b"]));
    assert!(g.select_set(&rule("S", &["a"])).is_none());
}

#[test]
fn common_prefix_select() {
    let mut g =
        Syntax::new(&syms(&["S", "a", "b"]), &vec![rule("S", &["a"]), rule("S", &["a", "b"])])
            .unwrap();
    assert_eq!(texts(&g.select_set(&rule("S", &["a"])).unwrap()), strings(&["a"]));
    assert_eq!(texts(&g.select_set(&rule("S", &["a", "b"])).unwrap()), strings(&["a"]));
}

#[test]
fn grammar_without_epsilon_has_no_nullable_symbol() {
    let mut g = Syntax::new(
        &syms(&["S", "A", "a", "b"]),
        &vec![rule("S", &["A", "b"]), rule("A", &["a"])],
    )
    .unwrap();
    assert_eq!(g.nullable_set().len(), 0);
}

#[test]
fn nullable_passes_through_chains_of_nonterminals() {
    let mut g = Syntax::new(
        &syms(&["S", "A", "B", "C", "c", "ε"]),
        &vec![
            rule("S", &["A", "B"]),
            rule("A", &["B", "B"]),
            rule("B", &["ε"]),
            rule("C", &["A", "c"]),
        ],
    )
    .unwrap();
    assert_eq!(texts(&g.nullable_set()), strings(&["S", "A", "B"]));
    assert!(!g.is_nullable(&sym("C")));
}

#[test]
fn empty_body_makes_its_head_nullable() {
    let mut g = Syntax::new(&syms(&["S", "a"]), &vec![rule("S", &["a", "S"]), rule("S", &[])])
        .unwrap();
    assert_eq!(texts(&g.nullable_set()), strings(&["S"]));
    assert_eq!(texts(&g.select_set(&rule("S", &[])).unwrap()), strings(&["eof"]));
}

#[test]
fn recursion_without_an_end_is_not_nullable() {
    let mut g = Syntax::new(&syms(&["S", "A"]), &vec![rule("S", &["A"]), rule("A", &["S"])])
        .unwrap();
    assert_eq!(g.nullable_set().len(), 0);
    assert_eq!(g.first_set(&sym("S")).unwrap().len(), 0);
}

#[test]
fn arithmetic_sets() {
    let mut g = arithmetic();
    assert_eq!(texts(&g.nullable_set()), strings(&["R", "Q"]));
    assert_eq!(texts(&g.first_set(&sym("E")).unwrap()), strings(&["(", "id"]));
    assert_eq!(texts(&g.first_set(&sym("R")).unwrap()), strings(&["+", "ε"]));
    assert_eq!(texts(&g.first_set(&sym("Q")).unwrap()), strings(&["*", "ε"]));
    assert_eq!(texts(&g.follow_set(&sym("E")).unwrap()), strings(&[")", "eof"]));
    assert_eq!(texts(&g.follow_set(&sym("R")).unwrap()), strings(&[")", "eof"]));
    assert_eq!(texts(&g.follow_set(&sym("T")).unwrap()), strings(&["+", ")", "eof"]));
    assert_eq!(texts(&g.follow_set(&sym("F")).unwrap()), strings(&["+", "*", ")", "eof"]));
    assert_eq!(texts(&g.select_set(&rule("R", &["ε"])).unwrap()), strings(&[")", "eof"]));
    assert_eq!(texts(&g.select_set(&rule("Q", &["ε"])).unwrap()), strings(&["+", ")", "eof"]));
    assert_eq!(texts(&g.select_set(&rule("F", &["id"])).unwrap()), strings(&["id"]));
}

#[test]
fn first_sets_hold_no_nonterminal() {
    let mut g = arithmetic();
    let all = g.rules.symbols.clone();
    for x in all.iter() {
        for t in g.first_set(x).unwrap().iter() {
            assert!(!t.is_not_end_symbol());
        }
    }
}

#[test]
fn follow_and_select_sets_hold_terminals_only() {
    let mut g = arithmetic();
    let all = g.rules.symbols.clone();
    for x in all.iter() {
        if let Some(set) = g.follow_set(x) {
            for t in set.iter() {
                assert!(t.is_end_symbol());
            }
        }
    }
    let productions = g.rules.productions.clone();
    for p in productions.iter() {
        for t in g.select_set(p).unwrap().iter() {
            assert!(t.is_end_symbol());
        }
    }
}

#[test]
fn nullable_passes_never_lose_a_member() {
    let g = arithmetic();
    let mut flags = new_row(g.rules.symbols.len());
    let mut size = 0;
    let mut rounds = 0;
    loop {
        let changed = g.rules.nullable_pass(&mut flags);
        let now = flags.iter().filter(|f| **f).count();
        assert!(now >= size);
        assert_eq!(changed, now > size);
        size = now;
        rounds += 1;
        if !changed {
            break;
        }
    }
    assert_eq!(size, 2);
    assert!(rounds <= g.rules.symbols.len() + 1);
    assert_eq!(flags, g.rules.calc_nullable());
}

#[test]
fn first_passes_never_lose_a_member() {
    let g = arithmetic();
    let flags = g.rules.calc_nullable();
    let mut table = g.rules.seed_first();
    let mut size = calc_set_map_len(&table);
    assert_eq!(size, 7);
    loop {
        let changed = g.rules.first_pass(&flags, &mut table);
        let now = calc_set_map_len(&table);
        assert!(now >= size);
        assert_eq!(changed, now > size);
        size = now;
        if !changed {
            break;
        }
    }
    assert_eq!(table, g.rules.calc_first(&flags));
}

#[test]
fn follow_passes_never_lose_a_member() {
    let g = arithmetic();
    let flags = g.rules.calc_nullable();
    let first = g.rules.calc_first(&flags);
    let n = g.rules.symbols.len();
    let mut table = new_table(n, n);
    table[g.rules.start][g.rules.eof] = true;
    let mut size = calc_set_map_len(&table);
    assert_eq!(size, 1);
    loop {
        let changed = g.rules.follow_pass(&flags, &first, &mut table);
        let now = calc_set_map_len(&table);
        assert!(now >= size);
        assert_eq!(changed, now > size);
        size = now;
        if !changed {
            break;
        }
    }
    let clean: Vec<Vec<bool>> = table.iter().map(|row| g.rules.without_empty(row)).collect();
    assert_eq!(clean, g.rules.calc_follow(&flags, &first));
}

#[test]
fn set_map_len_counts_the_members_of_all_sets() {
    assert_eq!(calc_set_map_len(&Vec::new()), 0);
    assert_eq!(calc_set_map_len(&vec![vec![false, false], vec![]]), 0);
    assert_eq!(calc_set_map_len(&vec![vec![true, false, true], vec![true], vec![false]]), 3);
}

#[test]
fn checked_set_map_len_counts_the_same() {
    assert_eq!(checked_set_map_len(&Vec::new()), Some(0));
    assert_eq!(checked_set_map_len(&vec![vec![true, true], vec![false, true]]), Some(3));
}

#[test]
fn analyses_give_the_same_result_every_time() {
    let mut g = arithmetic();
    let mut h = arithmetic();
    g.generate_sets();
    h.generate_sets();
    assert_eq!(g.nullable, h.nullable);
    assert_eq!(g.first, h.first);
    assert_eq!(g.follow, h.follow);
    assert_eq!(g.select, h.select);
    let (nullable, first, follow, select) =
        (g.nullable.clone(), g.first.clone(), g.follow.clone(), g.select.clone());
    g.generate_sets();
    assert_eq!(g.nullable, nullable);
    assert_eq!(g.first, first);
    assert_eq!(g.follow, follow);
    assert_eq!(g.select, select);
    g.calc_empty_set();
    g.calc_first_set();
    g.calc_follow_set();
    g.calc_select_set();
    assert_eq!(g.nullable, nullable);
    assert_eq!(g.first, first);
    assert_eq!(g.follow, follow);
    assert_eq!(g.select, select);
}

#[test]
fn order_of_the_productions_does_not_change_the_sets() {
    let symbols = syms(&["S", "A", "a", "b", "ε"]);
    let mut g = Syntax::new(
        &symbols,
        &vec![rule("A", &["ε"]), rule("A", &["a"]), rule("S", &["A", "b"])],
    )
    .unwrap();
    let mut h = optional_prefix();
    assert_eq!(texts(&g.nullable_set()), texts(&h.nullable_set()));
    for x in symbols.iter() {
        assert_eq!(texts(&g.first_set(x).unwrap()), texts(&h.first_set(x).unwrap()));
    }
    assert_eq!(
        texts(&g.follow_set(&sym("A")).unwrap()),
        texts(&h.follow_set(&sym("A")).unwrap())
    );
}
