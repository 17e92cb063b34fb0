use crate::first::cell;
use crate::rules::Rules;
use crate::select::in_select;
use crate::symbol::{names, Name, ProductionView, Symbol};
use crate::syntax::Syntax;
use vstd::prelude::*;

verus! {

/// What two productions both select.
pub open spec fn overlap_pred(g: Seq<ProductionView>, p: ProductionView, q: ProductionView) -> spec_fn(
    Name,
) -> bool {
    |t: Name| in_select(g, p, t) && in_select(g, q, t)
}

/// Productions `a` and `b` are alternatives of one nonterminal, and some
/// symbol is selected by both.
pub open spec fn clash(g: Seq<ProductionView>, a: int, b: int) -> bool {
    g[a].head == g[b].head && exists|t: Name| in_select(g, g[a], t) && in_select(g, g[b], t)
}

/// The grammar is LL(1): the select sets of any two alternatives of one
/// nonterminal are disjoint.
pub open spec fn is_ll1(g: Seq<ProductionView>) -> bool {
    forall|a: int, b: int| 0 <= a < b < g.len() ==> !clash(g, a, b)
}

/// `(a, b)` comes before `(c, d)` when pairs are ordered by their first
/// and then by their second component.
pub open spec fn pair_before(a: int, b: int, c: int, d: int) -> bool {
    a < c || (a == c && b < d)
}

/// `(a, b)` is the first pair of productions that clash.
pub open spec fn first_clash(g: Seq<ProductionView>, a: int, b: int) -> bool {
    &&& 0 <= a < b < g.len()
    &&& clash(g, a, b)
    &&& forall|c: int, d: int| 0 <= c < d < g.len() && pair_before(c, d, a, b) ==> !clash(g, c, d)
}

/// Why a grammar is not LL(1): two alternatives of `nonterminal`, at the
/// positions `first` and `second` of the production list, both select the
/// symbols of `overlap`.
#[derive(Debug)]
pub struct NotLL1Error {
    pub nonterminal: Symbol,
    pub overlap: Vec<Symbol>,
    pub first: usize,
    pub second: usize,
}

impl Rules {
    /// The flags that are set in both rows.
    pub fn common(&self, a: &Vec<bool>, b: &Vec<bool>) -> (r: (Vec<bool>, bool))
        requires
            a.len() == b.len(),
        ensures
            r.0.len() == a.len(),
            forall|j: int| #![trigger r.0@[j]] 0 <= j < a.len() ==> r.0@[j] == (a@[j] && b@[j]),
            r.1 == exists|j: int| #![trigger r.0@[j]] 0 <= j < a.len() && r.0@[j],
    {
        let mut row: Vec<bool> = Vec::new();
        let mut any = false;
        let ghost mut witness: int = 0;
        let mut j: usize = 0;
        while j < a.len()
            invariant
                a.len() == b.len(),
                j <= a.len(),
                row.len() == j,
                forall|c: int| #![trigger row@[c]] 0 <= c < j ==> row@[c] == (a@[c] && b@[c]),
                any ==> 0 <= witness < j && row@[witness],
                !any ==> forall|c: int| #![trigger row@[c]] 0 <= c < j ==> !row@[c],
            decreases a.len() - j,
        {
            let both = a[j] && b[j];
            let ghost prev = row@;
            row.push(both);
            proof {
                assert forall|c: int| #![trigger row@[c]] 0 <= c < j + 1 implies row@[c] == (a@[c]
                    && b@[c]) by {
                    if c < j {
                        assert(prev[c] == (a@[c] && b@[c]));
                    }
                }
                if both {
                    if !any {
                        witness = j as int;
                    } else {
                        assert(prev[witness]);
                    }
                } else {
                    if any {
                        assert(prev[witness]);
                    } else {
                        assert forall|c: int| #![trigger row@[c]] 0 <= c < j + 1 implies !row@[c] by {
                            if c < j {
                                assert(!prev[c]);
                            }
                        }
                    }
                }
            }
            any = any || both;
            j += 1;
        }
        proof {
            if any {
                assert(row@[witness]);
            }
        }
        let r = (row, any);
        assert(r.0@ == row@);
        r
    }
}

impl Syntax {
    /// Checks whether the grammar is LL(1), computing the sets first where
    /// they are not there yet. Where it is not, the first pair of clashing
    /// alternatives is reported, with their head and with all that both
    /// select, in the order of the symbol list.
    pub fn check_if_ll(&mut self) -> (r: Result<(), NotLL1Error>)
        requires
            old(self).wf(),
        ensures
            final(self).wf(),
            final(self).is_generated,
            final(self).rules == old(self).rules,
            r is Ok <==> is_ll1(old(self)@.productions),
            match r {
                Ok(_) => is_ll1(old(self)@.productions),
                Err(e) => {
                    let g = old(self)@.productions;
                    &&& first_clash(g, e.first as int, e.second as int)
                    &&& e.nonterminal@ == g[e.first as int].head
                    &&& names(e.overlap@) == old(self)@.symbols.filter(
                        overlap_pred(g, g[e.first as int], g[e.second as int]),
                    )
                    &&& e.overlap.len() > 0
                },
            },
    {
        self.generate_sets();
        let ghost g = self@.productions;
        let count = self.rules.productions.len();
        let mut a: usize = 0;
        while a < count
            invariant
                self.wf(),
                self.is_generated,
                self.rules == old(self).rules,
                g == self@.productions,
                count == self.rules.productions.len(),
                a <= count,
                forall|c: int, d: int| 0 <= c < d < count && c < a ==> !clash(g, c, d),
            decreases count - a,
        {
            let mut b: usize = a + 1;
            while b < count
                invariant
                    self.wf(),
                    self.is_generated,
                    self.rules == old(self).rules,
                    g == self@.productions,
                    count == self.rules.productions.len(),
                    a < count,
                    a < b <= count,
                    forall|c: int, d: int| 0 <= c < d < count && c < a ==> !clash(g, c, d),
                    forall|d: int| a < d < b ==> !clash(g, a as int, d),
                decreases count - b,
            {
                assert(self.rules.rule_wf(a as int));
                assert(self.rules.rule_wf(b as int));
                if self.rules.heads[a] == self.rules.heads[b] {
                    let (row, any) = self.rules.common(&self.select[a], &self.select[b]);
                    proof {
                        assert forall|j: int|
                            #![trigger row@[j]]
                            0 <= j < row.len() implies row@[j] == overlap_pred(
                            g,
                            g[a as int],
                            g[b as int],
                        )(self@.symbols[j]) by {
                            assert(cell(self.select@, a as int, j) == in_select(
                                g,
                                g[a as int],
                                self@.symbols[j],
                            ));
                            assert(cell(self.select@, b as int, j) == in_select(
                                g,
                                g[b as int],
                                self@.symbols[j],
                            ));
                        }
                    }
                    if any {
                        let overlap = self.rules.pick(
                            &row,
                            Ghost(overlap_pred(g, g[a as int], g[b as int])),
                        );
                        proof {
                            let j = choose|j: int| #![trigger row@[j]] 0 <= j < row.len() && row@[j];
                            let t = self@.symbols[j];
                            assert(overlap_pred(g, g[a as int], g[b as int])(t));
                            assert(in_select(g, g[a as int], t) && in_select(g, g[b as int], t));
                            assert(clash(g, a as int, b as int));
                            self@.symbols.lemma_filter_contains(
                                overlap_pred(g, g[a as int], g[b as int]),
                                j,
                            );
                            assert forall|c: int, d: int|
                                0 <= c < d < g.len() && pair_before(
                                    c,
                                    d,
                                    a as int,
                                    b as int,
                                ) implies !clash(g, c, d) by {
                                if c == a {
                                    assert(a < d < b);
                                }
                            }
                        }
                        return Err(
                            NotLL1Error {
                                nonterminal: self.rules.productions[a].head.clone(),
                                overlap,
                                first: a,
                                second: b,
                            },
                        );
                    } else {
                        proof {
                            if clash(g, a as int, b as int) {
                                let t = choose|t: Name|
                                    in_select(g, g[a as int], t) && in_select(g, g[b as int], t);
                                let j = self.rules.lemma_select_declared(a as int, t);
                                assert(cell(self.select@, a as int, j));
                                assert(cell(self.select@, b as int, j));
                                assert(row@[j]);
                            }
                        }
                    }
                } else {
                    assert(g[a as int].head != g[b as int].head) by {
                        assert(self@.symbols.no_duplicates());
                    }
                }
                b += 1;
            }
            a += 1;
        }
        Ok(())
    }
}

} // verus!
