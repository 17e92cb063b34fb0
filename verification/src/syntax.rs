
use crate::bits::{
    cells, lemma_cells_finite, lemma_pairs_len, lemma_row_kept, lemma_table_kept, pairs, raised,
    raised_cells, row_kept, table_kept,
};
use crate::first::{cell, first_within, in_first};
use crate::follow::{
    follow_set, follow_within, follows, in_follow, lemma_follow_holds_terminals,
    lemma_follow_within_head, span_vanishes, trailing_first,
};
use crate::symbol::kind_of;
use vstd::set_lib::*;
use vstd::string::StringExecFns;
use crate::nullable::{derives_empty, nullable};
use crate::rules::{
    declared, dedup, find_production, find_symbol, has_start, production_ok, views, Grammar,
    GrammarLoadError, Rules,
};
use crate::rules::start_name;
use crate::select::{body_first, in_select};
use crate::symbol::{
    empty_name, eof_name, is_nonterminal, names, Name, Production, ProductionView, Symbol,
    SymbolKind,
};
use vstd::prelude::*;

verus! {

/// Membership in the set of nullable symbols of a grammar.
pub open spec fn nullable_pred(g: Seq<ProductionView>) -> spec_fn(Name) -> bool {
    |x: Name| nullable(g, x)
}

/// Membership in the first set of `x`.
pub open spec fn first_pred(g: Seq<ProductionView>, x: Name) -> spec_fn(Name) -> bool {
    |t: Name| in_first(g, x, t)
}

/// Membership in the follow set of `x`.
pub open spec fn follow_pred(g: Seq<ProductionView>, x: Name) -> spec_fn(Name) -> bool {
    |t: Name| in_follow(g, x, t)
}

/// Membership in the select set of `p`.
pub open spec fn select_pred(g: Seq<ProductionView>, p: ProductionView) -> spec_fn(Name) -> bool {
    |t: Name| in_select(g, p, t)
}

/// A grammar together with the sets computed from it: the nullable symbols,
/// and the first, follow and select sets. The sets are computed on first
/// demand and kept.
pub struct Syntax {
    pub rules: Rules,
    pub nullable: Vec<bool>,
    pub first: Vec<Vec<bool>>,
    pub follow: Vec<Vec<bool>>,
    pub select: Vec<Vec<bool>>,
    pub is_generated: bool,
}

impl View for Syntax {
    type V = Grammar;

    open spec fn view(&self) -> Grammar {
        self.rules@
    }
}

impl Syntax {
    /// Each table is empty or holds members of its sets only.
    pub open spec fn tables_ok(&self) -> bool {
        &&& self.nullable@.len() == 0 || self.rules.nullable_sound(self.nullable@)
        &&& self.first@.len() == 0 || self.rules.first_sound(self.first@)
        &&& self.follow@.len() == 0 || self.rules.follow_sound(self.follow@)
    }

    /// The positions of the symbols that are heads of productions.
    pub open spec fn head_positions(&self) -> Set<int> {
        Set::new(
            |i: int|
                exists|k: int|
                    #![trigger self.rules.heads[k]]
                    0 <= k < self.rules.heads.len() && self.rules.heads[k] == i,
        )
    }

    /// The positions of the nonterminals in the symbol list.
    pub open spec fn nonterminal_positions(&self) -> Set<int> {
        Set::new(
            |i: int|
                0 <= i < self.rules.symbols.len() && self.rules.kinds[i]
                    == SymbolKind::Nonterminal,
        )
    }

    /// The positions of the terminals proper in the symbol list.
    pub open spec fn proper_terminal_positions(&self) -> Set<int> {
        Set::new(
            |j: int|
                0 <= j < self.rules.symbols.len() && self.rules.kinds[j] == SymbolKind::Terminal,
        )
    }

    /// The positions of the terminals in the symbol list, that of the
    /// end-of-input marker among them.
    pub open spec fn terminal_positions(&self) -> Set<int> {
        Set::new(
            |j: int|
                0 <= j < self.rules.symbols.len() && (self.rules.kinds[j] == SymbolKind::Terminal
                    || self.rules.kinds[j] == SymbolKind::EndOfInput),
        )
    }

    /// Every flag that is set in `a` is set in `b`, but for the column of
    /// the empty-string marker.
    pub open spec fn follow_kept(&self, a: Seq<Vec<bool>>, b: Seq<Vec<bool>>) -> bool {
        forall|i: int, j: int|
            #![trigger a[i]@[j]]
            0 <= i < a.len() && 0 <= j < a[i]@.len() && a[i]@[j] && self.rules.kinds[j]
                != SymbolKind::Empty ==> i < b.len() && j < b[i]@.len() && b[i]@[j]
    }

    /// The cells of a table that stand in the row of a nonterminal and in
    /// the column of a terminal or of the end-of-input marker.
    pub open spec fn follow_room(&self) -> Set<(int, int)> {
        Set::new(
            |c: (int, int)|
                0 <= c.0 < self.rules.symbols.len() && 0 <= c.1 < self.rules.symbols.len()
                    && self.rules.kinds[c.0] == SymbolKind::Nonterminal && (self.rules.kinds[c.1]
                    == SymbolKind::Terminal || self.rules.kinds[c.1] == SymbolKind::EndOfInput),
        )
    }

    /// The grammar is well formed, no table holds anything false, and once
    /// the sets are marked as computed they are those of the grammar.
    pub open spec fn wf(&self) -> bool {
        &&& self.rules.wf()
        &&& self.tables_ok()
        &&& self.is_generated ==> {
            &&& self.rules.nullable_exact(self.nullable@)
            &&& self.rules.first_exact(self.first@)
            &&& self.rules.follow_exact(self.follow@)
            &&& self.rules.select_exact(self.select@)
        }
    }

    /// Builds the grammar: each symbol and each production is kept once, in
    /// the order of first occurrence, and the end-of-input marker is added to
    /// the symbols. The first production that cannot stand in the grammar is
    /// reported; a grammar without the start symbol `S` is refused after that.
    pub fn new(symbols: &Vec<Symbol>, generators: &Vec<Production>) -> (r: Result<
        Syntax,
        GrammarLoadError,
    >)
        ensures
            ({
                let syms = dedup(names(symbols@).push(eof_name()));
                let prods = views(generators@);
                match r {
                    Ok(s) => {
                        &&& s.wf()
                        &&& !s.is_generated
                        &&& s.nullable@.len() == 0
                        &&& s.first@.len() == 0
                        &&& s.follow@.len() == 0
                        &&& s.select@.len() == 0
                        &&& s@.symbols == syms
                        &&& s@.productions == dedup(prods)
                        &&& forall|k: int|
                            0 <= k < prods.len() ==> production_ok(syms, #[trigger] prods[k])
                        &&& has_start(syms)
                    },
                    Err(GrammarLoadError::InvalidHead { production }) => {
                        &&& production < prods.len()
                        &&& forall|k: int|
                            0 <= k < production ==> production_ok(syms, #[trigger] prods[k])
                        &&& !is_nonterminal(prods[production as int].head)
                    },
                    Err(GrammarLoadError::UndeclaredSymbol { production }) => {
                        &&& production < prods.len()
                        &&& forall|k: int|
                            0 <= k < production ==> production_ok(syms, #[trigger] prods[k])
                        &&& is_nonterminal(prods[production as int].head)
                        &&& !declared(syms, prods[production as int])
                    },
                    Err(GrammarLoadError::MissingStart) => {
                        &&& forall|k: int|
                            0 <= k < prods.len() ==> production_ok(syms, #[trigger] prods[k])
                        &&& !has_start(syms)
                    },
                    Err(GrammarLoadError::MalformedLine) => false,
                }
            }),
    {
        match Rules::build(symbols, generators) {
            Ok(rules) => Ok(
                Syntax {
                    rules,
                    nullable: Vec::new(),
                    first: Vec::new(),
                    follow: Vec::new(),
                    select: Vec::new(),
                    is_generated: false,
                },
            ),
            Err(e) => Err(e),
        }
    }

    /// Computes the nullable symbols. No symbol that was flagged before is
    /// lost, and only heads of productions are flagged.
    pub fn calc_empty_set(&mut self)
        requires
            old(self).wf(),
        ensures
            final(self).wf(),
            final(self).rules == old(self).rules,
            final(self).rules.nullable_exact(final(self).nullable@),
            row_kept(old(self).nullable@, final(self).nullable@),
            raised(old(self).nullable@).len() <= raised(final(self).nullable@).len(),
            raised(final(self).nullable@).subset_of(final(self).head_positions()),
            final(self).head_positions().finite(),
            raised(final(self).nullable@).len() <= final(self).head_positions().len(),
            final(self).first == old(self).first,
            final(self).follow == old(self).follow,
            final(self).select == old(self).select,
            final(self).is_generated == old(self).is_generated,
    {
        let ghost before = self.nullable@;
        self.nullable = self.rules.calc_nullable();
        proof {
            let g = self@.productions;
            let flags = self.nullable@;
            assert(row_kept(before, flags)) by {
                assert forall|j: int| #![trigger before[j]] 0 <= j < before.len()
                    && before[j] implies j < flags.len() && flags[j] by {
                    assert(nullable(g, self@.symbols[j]));
                }
            }
            lemma_row_kept(before, flags);
            let heads = self.head_positions();
            let n = self.rules.symbols.len() as int;
            assert(heads.subset_of(set_int_range(0, n))) by {
                assert forall|i: int| heads.contains(i) implies set_int_range(0, n).contains(
                    i,
                ) by {
                    let k = choose|k: int|
                        #![trigger self.rules.heads[k]]
                        0 <= k < self.rules.heads.len() && self.rules.heads[k] == i;
                    assert(self.rules.rule_wf(k));
                }
            }
            lemma_int_range(0, n);
            lemma_len_subset(heads, set_int_range(0, n));
            assert(raised(flags).subset_of(heads)) by {
                assert forall|i: int| raised(flags).contains(i) implies heads.contains(i) by {
                    assert(flags[i]);
                    let x = self@.symbols[i];
                    assert(nullable(g, x));
                    let h = choose|h: nat| derives_empty(g, x, h);
                    let k = choose|k: int|
                        #![trigger g[k]]
                        0 <= k < g.len() && g[k].head == x && forall|m: int|
                            #![trigger g[k].body[m]]
                            0 <= m < g[k].body.len() ==> derives_empty(
                                g,
                                g[k].body[m],
                                (h - 1) as nat,
                            );
                    assert(self.rules.rule_wf(k));
                    assert(self.rules.heads[k] == i);
                }
            }
            lemma_len_subset(raised(flags), heads);
        }
    }

    /// Computes the first sets from the nullable symbols. No member that a
    /// set held before is lost.
    pub fn calc_first_set(&mut self)
        requires
            old(self).wf(),
            old(self).rules.nullable_exact(old(self).nullable@),
        ensures
            final(self).wf(),
            final(self).rules == old(self).rules,
            final(self).nullable == old(self).nullable,
            final(self).rules.first_exact(final(self).first@),
            table_kept(old(self).first@, final(self).first@),
            raised_cells(old(self).first@).len() <= raised_cells(final(self).first@).len(),
            final(self).follow == old(self).follow,
            final(self).select == old(self).select,
            final(self).is_generated == old(self).is_generated,
    {
        let ghost before = self.first@;
        self.first = self.rules.calc_first(&self.nullable);
        proof {
            let t = self.first@;
            assert(table_kept(before, t)) by {
                assert forall|i: int, j: int|
                    #![trigger before[i]@[j]]
                    0 <= i < before.len() && 0 <= j < before[i]@.len()
                        && before[i]@[j] implies i < t.len() && j < t[i]@.len() && t[i]@[j] by {
                    assert(cell(before, i, j));
                    assert(cell(t, i, j));
                }
            }
            lemma_table_kept(before, t);
            assert(self.rules.first_sound(t)) by {
                assert forall|i: int, j: int|
                    #![trigger cell(t, i, j)]
                    0 <= i < t.len() && 0 <= j < t.len() && cell(t, i, j) implies in_first(
                    self@.productions,
                    self@.symbols[i],
                    self@.symbols[j],
                ) by {}
            }
        }
    }

    /// Computes the follow sets from the nullable symbols and the first sets.
    /// No member that a set held before is lost, but the empty-string
    /// marker; the sets of nonterminals alone hold anything, and they hold
    /// terminals only.
    pub fn calc_follow_set(&mut self)
        requires
            old(self).wf(),
            old(self).rules.nullable_exact(old(self).nullable@),
            old(self).rules.first_exact(old(self).first@),
        ensures
            final(self).wf(),
            final(self).rules == old(self).rules,
            final(self).nullable == old(self).nullable,
            final(self).first == old(self).first,
            final(self).rules.follow_exact(final(self).follow@),
            final(self).follow_kept(old(self).follow@, final(self).follow@),
            raised_cells(final(self).follow@).subset_of(final(self).follow_room()),
            final(self).follow_room().finite(),
            raised_cells(final(self).follow@).len() <= final(self).follow_room().len(),
            raised_cells(final(self).follow@).len() <= final(self).nonterminal_positions().len()
                * final(self).terminal_positions().len(),
            final(self).terminal_positions().len()
                == final(self).proper_terminal_positions().len() + 1,
            final(self).select == old(self).select,
            final(self).is_generated == old(self).is_generated,
    {
        let ghost before = self.follow@;
        self.follow = self.rules.calc_follow(&self.nullable, &self.first);
        proof {
            let g = self@.productions;
            let w = self.follow@;
            let n = self.rules.symbols.len() as int;
            assert forall|i: int, j: int|
                #![trigger before[i]@[j]]
                0 <= i < before.len() && 0 <= j < before[i]@.len() && before[i]@[j]
                    && self.rules.kinds[j] != SymbolKind::Empty implies i < w.len() && j
                < w[i]@.len() && w[i]@[j] by {
                assert(cell(before, i, j));
                assert(follows(g, self@.symbols[i], self@.symbols[j]));
                assert(self.rules.kinds[j] == kind_of(self@.symbols[j]));
                assert(cell(w, i, j));
            }
            assert(self.rules.follow_sound(w)) by {
                assert forall|i: int, j: int|
                    #![trigger cell(w, i, j)]
                    0 <= i < w.len() && 0 <= j < w.len() && cell(w, i, j) implies follows(
                    g,
                    self@.symbols[i],
                    self@.symbols[j],
                ) by {}
            }
            let room = self.follow_room();
            assert(room.subset_of(cells(w, n)));
            lemma_cells_finite(w, n);
            lemma_len_subset(room, cells(w, n));
            assert(raised_cells(w).subset_of(room)) by {
                assert forall|c: (int, int)| raised_cells(w).contains(c) implies room.contains(
                    c,
                ) by {
                    assert(cell(w, c.0, c.1));
                    let x = self@.symbols[c.0];
                    let u = self@.symbols[c.1];
                    assert(in_follow(g, x, u));
                    assert(follow_set(g, x).contains(u));
                    lemma_follow_holds_terminals(g, x, u);
                    let f = choose|f: nat| follow_within(g, x, u, f);
                    lemma_follow_within_head(g, x, u, f);
                    assert(self.rules.kinds[c.0] == kind_of(x));
                    assert(self.rules.kinds[c.1] == kind_of(u));
                }
            }
            lemma_len_subset(raised_cells(w), room);
            let rows = self.nonterminal_positions();
            let columns = self.terminal_positions();
            lemma_int_range(0, n);
            lemma_len_subset(rows, set_int_range(0, n));
            lemma_len_subset(columns, set_int_range(0, n));
            lemma_pairs_len(rows, columns);
            assert(room =~= pairs(rows, columns));
            let proper = self.proper_terminal_positions();
            lemma_len_subset(proper, set_int_range(0, n));
            let end = self.rules.eof as int;
            assert(self.rules.kinds[end] == kind_of(self@.symbols[end]));
            assert(eof_name().len() != empty_name().len());
            assert(columns =~= proper.insert(end)) by {
                assert forall|j: int| columns.contains(j) implies proper.insert(end).contains(
                    j,
                ) by {
                    if self.rules.kinds[j] == SymbolKind::EndOfInput {
                        assert(self.rules.kinds[j] == kind_of(self@.symbols[j]));
                        assert(self@.symbols[j] == eof_name());
                        assert(j == end);
                    }
                }
            }
        }
    }

    /// Computes the select sets from the three other analyses.
    pub fn calc_select_set(&mut self)
        requires
            old(self).wf(),
            old(self).rules.nullable_exact(old(self).nullable@),
            old(self).rules.first_exact(old(self).first@),
            old(self).rules.follow_exact(old(self).follow@),
        ensures
            final(self).wf(),
            final(self).rules == old(self).rules,
            final(self).nullable == old(self).nullable,
            final(self).first == old(self).first,
            final(self).follow == old(self).follow,
            final(self).rules.select_exact(final(self).select@),
            final(self).is_generated == old(self).is_generated,
    {
        self.select = self.rules.calc_select(&self.nullable, &self.first, &self.follow);
    }

    /// Computes the four analyses, unless they were computed before, and
    /// marks them as computed.
    pub fn generate_sets(&mut self)
        requires
            old(self).wf(),
        ensures
            final(self).wf(),
            final(self).is_generated,
            final(self).rules == old(self).rules,
            old(self).is_generated ==> *final(self) == *old(self),
    {
        if self.is_generated {
            return ;
        }
        self.calc_empty_set();
        self.calc_first_set();
        self.calc_follow_set();
        self.calc_select_set();
        self.is_generated = true;
    }
}

/// What a filter keeps: the items of the sequence that meet the condition.
pub proof fn lemma_filter_members<T>(s: Seq<T>, pred: spec_fn(T) -> bool)
    ensures
        forall|x: T| s.filter(pred).contains(x) <==> s.contains(x) && pred(x),
{
    assert forall|x: T| s.filter(pred).contains(x) <==> s.contains(x) && pred(x) by {
        if s.filter(pred).contains(x) {
            s.lemma_filter_contains_rev(pred, x);
            let i = choose|i: int| 0 <= i < s.filter(pred).len() && s.filter(pred)[i] == x;
            s.lemma_filter_pred(pred, i);
        }
        if s.contains(x) && pred(x) {
            let i = choose|i: int| 0 <= i < s.len() && s[i] == x;
            s.lemma_filter_contains(pred, i);
        }
    }
}

impl Rules {
    /// The symbols whose flag is set in `row`, in the order of the symbol
    /// list.
    pub(crate) fn pick(&self, row: &Vec<bool>, Ghost(pred): Ghost<spec_fn(Name) -> bool>) -> (r: Vec<
        Symbol,
    >)
        requires
            row.len() == self.symbols.len(),
            forall|j: int|
                #![trigger row@[j]]
                0 <= j < row.len() ==> row@[j] == pred(self@.symbols[j]),
        ensures
            names(r@) == self@.symbols.filter(pred),
    {
        let mut r: Vec<Symbol> = Vec::new();
        let mut j: usize = 0;
        proof {
            reveal(Seq::filter);
            assert(self@.symbols.take(0) =~= Seq::<Name>::empty());
            assert(names(r@) =~= Seq::<Name>::empty());
        }
        while j < row.len()
            invariant
                row.len() == self.symbols.len(),
                forall|c: int|
                    #![trigger row@[c]]
                    0 <= c < row.len() ==> row@[c] == pred(self@.symbols[c]),
                j <= row.len(),
                names(r@) == self@.symbols.take(j as int).filter(pred),
            decreases row.len() - j,
        {
            let ghost before = self@.symbols.take(j as int);
            let ghost prev = r@;
            proof {
                assert(self@.symbols.take(j + 1) =~= before.push(self@.symbols[j as int]));
                before.lemma_filter_push(self@.symbols[j as int], pred);
                assert(row@[j as int] == pred(self@.symbols[j as int]));
            }
            if row[j] {
                r.push(self.symbols[j].clone());
                assert(names(r@) =~= names(prev).push(self@.symbols[j as int]));
            }
            j += 1;
        }
        assert(self@.symbols.take(row.len() as int) =~= self@.symbols);
        r
    }

    /// Whatever follows a symbol of the grammar is a symbol of the grammar.
    pub proof fn lemma_follow_declared(&self, i: int, u: Name, n: nat) -> (j: int)
        requires
            self.wf(),
            0 <= i < self.symbols.len(),
            follow_within(self@.productions, self@.symbols[i], u, n),
        ensures
            0 <= j < self.symbols.len(),
            self@.symbols[j] == u,
        decreases n,
    {
        let g = self@.productions;
        let x = self@.symbols[i];
        if x == start_name() && u == eof_name() {
            self.eof as int
        } else {
            let (k, pos) = choose|k: int, pos: int|
                #![trigger g[k].body[pos]]
                0 <= k < g.len() && 0 <= pos < g[k].body.len() && g[k].body[pos] == x && (
                trailing_first(g, g[k].body, pos + 1, u) || (span_vanishes(
                    g,
                    g[k].body,
                    pos + 1,
                    g[k].body.len() as int,
                ) && follow_within(g, g[k].head, u, (n - 1) as nat)));
            assert(self.rule_wf(k));
            if trailing_first(g, g[k].body, pos + 1, u) {
                let q = choose|q: int|
                    #![trigger g[k].body[q]]
                    pos + 1 <= q < g[k].body.len() && span_vanishes(g, g[k].body, pos + 1, q)
                        && g[k].body[q] != empty_name() && in_first(g, g[k].body[q], u);
                let m = choose|m: nat| first_within(g, g[k].body[q], u, m);
                self.lemma_first_declared(self.bodies[k][q] as int, u, m)
            } else {
                self.lemma_follow_declared(self.heads[k] as int, u, (n - 1) as nat)
            }
        }
    }

    /// Whatever a select set holds is a symbol of the grammar.
    pub proof fn lemma_select_declared(&self, k: int, t: Name) -> (j: int)
        requires
            self.wf(),
            0 <= k < self.productions.len(),
            in_select(self@.productions, self@.productions[k], t),
        ensures
            0 <= j < self.symbols.len(),
            self@.symbols[j] == t,
    {
        let g = self@.productions;
        assert(self.rule_wf(k));
        if body_first(g, g[k].body, t) {
            let m = choose|m: int|
                #![trigger g[k].body[m]]
                0 <= m < g[k].body.len() && crate::first::prefix_vanishes(g, g[k].body, m)
                    && in_first(g, g[k].body[m], t);
            let n = choose|n: nat| first_within(g, g[k].body[m], t, n);
            self.lemma_first_declared(self.bodies[k][m] as int, t, n)
        } else {
            let n = choose|n: nat| follow_within(g, g[k].head, t, n);
            self.lemma_follow_declared(self.heads[k] as int, t, n)
        }
    }
}

impl Syntax {
    /// The nullable symbols, in the order of the symbol list.
    pub fn nullable_set(&mut self) -> (r: Vec<Symbol>)
        requires
            old(self).wf(),
        ensures
            final(self).wf(),
            final(self).is_generated,
            final(self).rules == old(self).rules,
            names(r@) == old(self)@.symbols.filter(nullable_pred(old(self)@.productions)),
            forall|x: Name| names(r@).contains(x) <==> nullable(old(self)@.productions, x),
    {
        self.generate_sets();
        let r = self.rules.pick(&self.nullable, Ghost(nullable_pred(self@.productions)));
        proof {
            let g = self@.productions;
            lemma_filter_members(self@.symbols, nullable_pred(g));
            assert forall|x: Name| nullable(g, x) implies self@.symbols.contains(x) by {
                let n = choose|n: nat| derives_empty(g, x, n);
                let k = choose|k: int|
                    #![trigger g[k]]
                    0 <= k < g.len() && g[k].head == x && forall|m: int|
                        #![trigger g[k].body[m]]
                        0 <= m < g[k].body.len() ==> derives_empty(
                            g,
                            g[k].body[m],
                            (n - 1) as nat,
                        );
                assert(production_ok(self@.symbols, g[k]));
            }
        }
        r
    }

    /// Whether `x` is nullable.
    pub fn is_nullable(&mut self, x: &Symbol) -> (r: bool)
        requires
            old(self).wf(),
        ensures
            final(self).wf(),
            final(self).is_generated,
            final(self).rules == old(self).rules,
            r == nullable(old(self)@.productions, x@),
    {
        self.generate_sets();
        match find_symbol(&self.rules.symbols, x) {
            Some(i) => {
                assert(self@.symbols[i as int] == x@);
                self.nullable[i]
            },
            None => {
                proof {
                    let g = self@.productions;
                    if nullable(g, x@) {
                        let n = choose|n: nat| derives_empty(g, x@, n);
                        let k = choose|k: int|
                            #![trigger g[k]]
                            0 <= k < g.len() && g[k].head == x@ && forall|m: int|
                                #![trigger g[k].body[m]]
                                0 <= m < g[k].body.len() ==> derives_empty(
                                    g,
                                    g[k].body[m],
                                    (n - 1) as nat,
                                );
                        assert(production_ok(self@.symbols, g[k]));
                    }
                }
                false
            },
        }
    }

    /// The first set of a symbol of the grammar, in the order of the symbol
    /// list; nothing for a symbol that the grammar does not hold.
    pub fn first_set(&mut self, x: &Symbol) -> (r: Option<Vec<Symbol>>)
        requires
            old(self).wf(),
        ensures
            final(self).wf(),
            final(self).is_generated,
            final(self).rules == old(self).rules,
            match r {
                Some(v) => {
                    &&& old(self)@.symbols.contains(x@)
                    &&& names(v@) == old(self)@.symbols.filter(
                        first_pred(old(self)@.productions, x@),
                    )
                    &&& forall|t: Name|
                        names(v@).contains(t) <==> in_first(old(self)@.productions, x@, t)
                },
                None => !old(self)@.symbols.contains(x@),
            },
    {
        self.generate_sets();
        match find_symbol(&self.rules.symbols, x) {
            Some(i) => {
                let ghost g = self@.productions;
                proof {
                    assert(self@.symbols[i as int] == x@);
                    assert forall|j: int|
                        #![trigger self.first@[i as int]@[j]]
                        0 <= j < self.first@[i as int]@.len() implies self.first@[i as int]@[j]
                        == first_pred(g, x@)(self@.symbols[j]) by {
                        assert(cell(self.first@, i as int, j) == in_first(
                            g,
                            self@.symbols[i as int],
                            self@.symbols[j],
                        ));
                    }
                }
                let v = self.rules.pick(&self.first[i], Ghost(first_pred(g, x@)));
                proof {
                    lemma_filter_members(self@.symbols, first_pred(g, x@));
                    assert forall|t: Name| in_first(g, x@, t) implies self@.symbols.contains(
                        t,
                    ) by {
                        let n = choose|n: nat| first_within(g, x@, t, n);
                        let j = self.rules.lemma_first_declared(i as int, t, n);
                    }
                }
                Some(v)
            },
            None => None,
        }
    }

    /// The follow set of a nonterminal of the grammar, in the order of the
    /// symbol list; nothing for any other symbol.
    pub fn follow_set(&mut self, x: &Symbol) -> (r: Option<Vec<Symbol>>)
        requires
            old(self).wf(),
        ensures
            final(self).wf(),
            final(self).is_generated,
            final(self).rules == old(self).rules,
            match r {
                Some(v) => {
                    &&& old(self)@.symbols.contains(x@)
                    &&& is_nonterminal(x@)
                    &&& names(v@) == old(self)@.symbols.filter(
                        follow_pred(old(self)@.productions, x@),
                    )
                    &&& forall|t: Name|
                        names(v@).contains(t) <==> in_follow(old(self)@.productions, x@, t)
                },
                None => !(old(self)@.symbols.contains(x@) && is_nonterminal(x@)),
            },
    {
        self.generate_sets();
        match find_symbol(&self.rules.symbols, x) {
            Some(i) => {
                assert(self@.symbols[i as int] == x@);
                match self.rules.kinds[i] {
                    SymbolKind::Nonterminal => {},
                    _ => {
                        return None;
                    },
                }
                let ghost g = self@.productions;
                proof {
                    assert forall|j: int|
                        #![trigger self.follow@[i as int]@[j]]
                        0 <= j < self.follow@[i as int]@.len() implies self.follow@[i as int]@[j]
                        == follow_pred(g, x@)(self@.symbols[j]) by {
                        assert(cell(self.follow@, i as int, j) == in_follow(
                            g,
                            self@.symbols[i as int],
                            self@.symbols[j],
                        ));
                    }
                }
                let v = self.rules.pick(&self.follow[i], Ghost(follow_pred(g, x@)));
                proof {
                    lemma_filter_members(self@.symbols, follow_pred(g, x@));
                    assert forall|t: Name| in_follow(g, x@, t) implies self@.symbols.contains(
                        t,
                    ) by {
                        let n = choose|n: nat| follow_within(g, x@, t, n);
                        let j = self.rules.lemma_follow_declared(i as int, t, n);
                    }
                }
                Some(v)
            },
            None => None,
        }
    }

    /// The select set of a production of the grammar, in the order of the
    /// symbol list; nothing for a production that the grammar does not hold.
    pub fn select_set(&mut self, p: &Production) -> (r: Option<Vec<Symbol>>)
        requires
            old(self).wf(),
        ensures
            final(self).wf(),
            final(self).is_generated,
            final(self).rules == old(self).rules,
            match r {
                Some(v) => {
                    &&& old(self)@.productions.contains(p@)
                    &&& names(v@) == old(self)@.symbols.filter(
                        select_pred(old(self)@.productions, p@),
                    )
                    &&& forall|t: Name|
                        names(v@).contains(t) <==> in_select(old(self)@.productions, p@, t)
                },
                None => !old(self)@.productions.contains(p@),
            },
    {
        self.generate_sets();
        match find_production(&self.rules.productions, p) {
            Some(k) => {
                let ghost g = self@.productions;
                proof {
                    assert(g[k as int] == p@);
                    assert forall|j: int|
                        #![trigger self.select@[k as int]@[j]]
                        0 <= j < self.select@[k as int]@.len() implies self.select@[k as int]@[j]
                        == select_pred(g, p@)(self@.symbols[j]) by {
                        assert(cell(self.select@, k as int, j) == in_select(
                            g,
                            g[k as int],
                            self@.symbols[j],
                        ));
                    }
                }
                let v = self.rules.pick(&self.select[k], Ghost(select_pred(g, p@)));
                proof {
                    lemma_filter_members(self@.symbols, select_pred(g, p@));
                    assert forall|t: Name| in_select(g, p@, t) implies self@.symbols.contains(
                        t,
                    ) by {
                        let j = self.rules.lemma_select_declared(k as int, t);
                    }
                }
                Some(v)
            },
            None => None,
        }
    }
}

/// The analyses are functions of the grammar: two computations over one
/// grammar end with the same flags, whichever way they were reached.
pub proof fn lemma_analyses_repeat(a: Syntax, b: Syntax)
    requires
        a.wf(),
        b.wf(),
        a.is_generated,
        b.is_generated,
        a@ == b@,
    ensures
        a.nullable@ == b.nullable@,
        forall|i: int| 0 <= i < a@.symbols.len() ==> a.first@[i]@ == b.first@[i]@,
        forall|i: int| 0 <= i < a@.symbols.len() ==> a.follow@[i]@ == b.follow@[i]@,
        forall|k: int| 0 <= k < a@.productions.len() ==> a.select@[k]@ == b.select@[k]@,
{
    let g = a@.productions;
    let n = a@.symbols.len() as int;
    assert(a.rules.symbols.len() == n && b.rules.symbols.len() == n);
    assert(a.rules.productions.len() == g.len() && b.rules.productions.len() == g.len());
    assert(a.nullable@ =~= b.nullable@) by {
        assert forall|i: int| 0 <= i < n implies a.nullable@[i] == b.nullable@[i] by {
            assert(a.nullable@[i] == nullable(g, a@.symbols[i]));
            assert(b.nullable@[i] == nullable(g, b@.symbols[i]));
        }
    }
    assert forall|i: int| 0 <= i < n implies a.first@[i]@ == b.first@[i]@ by {
        assert forall|j: int| 0 <= j < n implies a.first@[i]@[j] == b.first@[i]@[j] by {
            assert(cell(a.first@, i, j) == in_first(g, a@.symbols[i], a@.symbols[j]));
            assert(cell(b.first@, i, j) == in_first(g, b@.symbols[i], b@.symbols[j]));
        }
        assert(a.first@[i]@ =~= b.first@[i]@);
    }
    assert forall|i: int| 0 <= i < n implies a.follow@[i]@ == b.follow@[i]@ by {
        assert forall|j: int| 0 <= j < n implies a.follow@[i]@[j] == b.follow@[i]@[j] by {
            assert(cell(a.follow@, i, j) == in_follow(g, a@.symbols[i], a@.symbols[j]));
            assert(cell(b.follow@, i, j) == in_follow(g, b@.symbols[i], b@.symbols[j]));
        }
        assert(a.follow@[i]@ =~= b.follow@[i]@);
    }
    assert forall|k: int| 0 <= k < g.len() implies a.select@[k]@ == b.select@[k]@ by {
        assert forall|j: int| 0 <= j < n implies a.select@[k]@[j] == b.select@[k]@[j] by {
            assert(cell(a.select@, k, j) == in_select(g, g[k], a@.symbols[j]));
            assert(cell(b.select@, k, j) == in_select(g, g[k], b@.symbols[j]));
        }
        assert(a.select@[k]@ =~= b.select@[k]@);
    }
}

/// The sets of a grammar, written out: the nullable symbols, whether the
/// start symbol is nullable, the first set of every symbol, the follow set
/// of every nonterminal, and the select set of every production, each in
/// the order of the symbol list.
#[derive(Debug)]
pub struct Analysis {
    pub symbols: Vec<Symbol>,
    pub productions: Vec<Production>,
    pub nullable: Vec<Symbol>,
    pub start_nullable: bool,
    pub first: Vec<Vec<Symbol>>,
    pub follow: Vec<Option<Vec<Symbol>>>,
    pub select: Vec<Vec<Symbol>>,
}

/// The first set written out for the symbol at position `i`.
pub open spec fn first_written(a: Analysis, g: Grammar, i: int) -> bool {
    names(a.first@[i]@) == g.symbols.filter(first_pred(g.productions, g.symbols[i]))
}

/// The follow set written out for the symbol at position `i`: that of a
/// nonterminal, and nothing for another symbol.
pub open spec fn follow_written(a: Analysis, g: Grammar, i: int) -> bool {
    match a.follow@[i] {
        Some(v) => is_nonterminal(g.symbols[i]) && names(v@) == g.symbols.filter(
            follow_pred(g.productions, g.symbols[i]),
        ),
        None => !is_nonterminal(g.symbols[i]),
    }
}

/// The select set written out for the production at position `k`.
pub open spec fn select_written(a: Analysis, g: Grammar, k: int) -> bool {
    names(a.select@[k]@) == g.symbols.filter(select_pred(g.productions, g.productions[k]))
}

/// The analysis holds the sets of the grammar, and nothing else.
pub open spec fn describes(a: Analysis, g: Grammar) -> bool {
    &&& names(a.symbols@) == g.symbols
    &&& views(a.productions@) == g.productions
    &&& names(a.nullable@) == g.symbols.filter(nullable_pred(g.productions))
    &&& a.start_nullable == nullable(g.productions, start_name())
    &&& a.first@.len() == g.symbols.len()
    &&& forall|i: int| 0 <= i < g.symbols.len() ==> #[trigger] first_written(a, g, i)
    &&& a.follow@.len() == g.symbols.len()
    &&& forall|i: int| 0 <= i < g.symbols.len() ==> #[trigger] follow_written(a, g, i)
    &&& a.select@.len() == g.productions.len()
    &&& forall|k: int| 0 <= k < g.productions.len() ==> #[trigger] select_written(a, g, k)
}

impl Syntax {
    /// Writes out the sets of the grammar, computing them first where they
    /// are not there yet.
    pub fn analysis(&mut self) -> (a: Analysis)
        requires
            old(self).wf(),
        ensures
            final(self).wf(),
            final(self).is_generated,
            final(self).rules == old(self).rules,
            describes(a, old(self)@),
    {
        let ghost g = self@;
        let nullable = self.nullable_set();
        let start = Symbol { text: String::from_str("S") };
        proof {
            reveal_strlit("S");
            assert(start@ =~= start_name());
        }
        let start_nullable = self.is_nullable(&start);
        let mut first: Vec<Vec<Symbol>> = Vec::new();
        let mut follow: Vec<Option<Vec<Symbol>>> = Vec::new();
        let mut i: usize = 0;
        while i < self.rules.symbols.len()
            invariant
                self.wf(),
                self.is_generated,
                self.rules == old(self).rules,
                g == self@,
                i <= self.rules.symbols.len(),
                first.len() == i,
                follow.len() == i,
                forall|c: int|
                    0 <= c < i ==> names(#[trigger] first@[c]@) == g.symbols.filter(
                        first_pred(g.productions, g.symbols[c]),
                    ),
                forall|c: int|
                    0 <= c < i ==> match #[trigger] follow@[c] {
                        Some(v) => is_nonterminal(g.symbols[c]) && names(v@) == g.symbols.filter(
                            follow_pred(g.productions, g.symbols[c]),
                        ),
                        None => !is_nonterminal(g.symbols[c]),
                    },
            decreases self.rules.symbols.len() - i,
        {
            let x = self.rules.symbols[i].clone();
            assert(g.symbols[i as int] == x@);
            let set = match self.first_set(&x) {
                Some(v) => v,
                None => {
                    assert(false);
                    Vec::new()
                },
            };
            first.push(set);
            let after = self.follow_set(&x);
            follow.push(after);
            i += 1;
        }
        let mut select: Vec<Vec<Symbol>> = Vec::new();
        let mut k: usize = 0;
        while k < self.rules.productions.len()
            invariant
                self.wf(),
                self.is_generated,
                self.rules == old(self).rules,
                g == self@,
                k <= self.rules.productions.len(),
                select.len() == k,
                forall|c: int|
                    0 <= c < k ==> names(#[trigger] select@[c]@) == g.symbols.filter(
                        select_pred(g.productions, g.productions[c]),
                    ),
            decreases self.rules.productions.len() - k,
        {
            let p = self.rules.productions[k].clone();
            assert(g.productions[k as int] == p@);
            let set = match self.select_set(&p) {
                Some(v) => v,
                None => {
                    assert(false);
                    Vec::new()
                },
            };
            select.push(set);
            k += 1;
        }
        let a = Analysis {
            symbols: crate::symbol::clone_symbols(&self.rules.symbols),
            productions: crate::rules::clone_productions(&self.rules.productions),
            nullable,
            start_nullable,
            first,
            follow,
            select,
        };
        proof {
            assert forall|i: int| 0 <= i < g.symbols.len() implies #[trigger] first_written(
                a,
                g,
                i,
            ) by {
                assert(names(a.first@[i]@) == g.symbols.filter(
                    first_pred(g.productions, g.symbols[i]),
                ));
            }
            assert forall|i: int| 0 <= i < g.symbols.len() implies #[trigger] follow_written(
                a,
                g,
                i,
            ) by {
                let v = a.follow@[i];
            }
            assert forall|k: int| 0 <= k < g.productions.len() implies #[trigger] select_written(
                a,
                g,
                k,
            ) by {
                assert(names(a.select@[k]@) == g.symbols.filter(
                    select_pred(g.productions, g.productions[k]),
                ));
            }
        }
        a
    }
}

} // verus!
