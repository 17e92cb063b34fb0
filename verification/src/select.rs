use crate::bits::{new_row, union_into};
use crate::first::{cell, first_within, in_first, lemma_first_within_kind, prefix_vanishes};
use crate::follow::{follow_set, in_follow, lemma_follow_holds_terminals};
use crate::rules::Rules;
use crate::symbol::{empty_name, is_terminal, kind_of, Name, ProductionView, SymbolKind};
use vstd::prelude::*;

verus! {

/// `t` belongs to the first set of a symbol of `body` before which every
/// symbol derives the empty string.
pub open spec fn body_first(g: Seq<ProductionView>, body: Seq<Name>, t: Name) -> bool {
    exists|m: int|
        #![trigger body[m]]
        0 <= m < body.len() && prefix_vanishes(g, body, m) && in_first(g, body[m], t)
}

/// `t` belongs to the select set of `p`: it is not the empty-string marker,
/// and it begins the body, or the whole body derives the empty string and
/// `t` follows the head.
pub open spec fn in_select(g: Seq<ProductionView>, p: ProductionView, t: Name) -> bool {
    t != empty_name() && (body_first(g, p.body, t) || (prefix_vanishes(
        g,
        p.body,
        p.body.len() as int,
    ) && in_follow(g, p.head, t)))
}

/// The select set of `p`.
pub open spec fn select_set(g: Seq<ProductionView>, p: ProductionView) -> Set<Name> {
    Set::new(|t: Name| in_select(g, p, t))
}

/// Select sets hold terminals only, the end-of-input marker among them.
pub proof fn lemma_select_holds_terminals(g: Seq<ProductionView>, p: ProductionView, t: Name)
    requires
        select_set(g, p).contains(t),
    ensures
        is_terminal(t),
{
    if body_first(g, p.body, t) {
        let m = choose|m: int|
            #![trigger p.body[m]]
            0 <= m < p.body.len() && prefix_vanishes(g, p.body, m) && in_first(g, p.body[m], t);
        let n = choose|n: nat| first_within(g, p.body[m], t, n);
        lemma_first_within_kind(g, p.body[m], t, n);
    } else {
        assert(follow_set(g, p.head).contains(t));
        lemma_follow_holds_terminals(g, p.head, t);
    }
}

impl Rules {
    /// The table holds the select sets: one row for each production, with the
    /// members flagged and no others.
    pub open spec fn select_exact(&self, s: Seq<Vec<bool>>) -> bool {
        &&& s.len() == self.productions.len()
        &&& forall|k: int| #![trigger s[k]] 0 <= k < s.len() ==> s[k]@.len() == self.symbols.len()
        &&& forall|k: int, j: int|
            #![trigger cell(s, k, j)]
            0 <= k < s.len() && 0 <= j < self.symbols.len() ==> cell(s, k, j) == in_select(
                self@.productions,
                self@.productions[k],
                self@.symbols[j],
            )
    }

    pub proof fn lemma_body_reaches(&self, flags: Seq<bool>, f: Seq<Vec<bool>>, k: int, j: int)
        requires
            self.wf(),
            self.nullable_exact(flags),
            self.first_exact(f),
            0 <= k < self.productions.len(),
            0 <= j < self.symbols.len(),
        ensures
            self.body_reaches(flags, f, k, j) == body_first(
                self@.productions,
                self@.productions[k].body,
                self@.symbols[j],
            ),
    {
        let g = self@.productions;
        let body = g[k].body;
        let t = self@.symbols[j];
        assert(self.rule_wf(k));
        if self.body_reaches(flags, f, k, j) {
            let m = choose|m: int|
                #![trigger self.bodies[k][m]]
                0 <= m < self.bodies[k].len() && self.prefix_passes(flags, k, m) && cell(
                    f,
                    self.bodies[k][m] as int,
                    j,
                );
            self.lemma_prefix_sound(flags, k, m);
            assert(body[m] == self@.symbols[self.bodies[k][m] as int]);
            assert(in_first(g, body[m], t));
        }
        if body_first(g, body, t) {
            let m = choose|m: int|
                #![trigger body[m]]
                0 <= m < body.len() && prefix_vanishes(g, body, m) && in_first(g, body[m], t);
            self.lemma_prefix_complete(flags, k, m);
            assert(body[m] == self@.symbols[self.bodies[k][m] as int]);
            assert(cell(f, self.bodies[k][m] as int, j));
        }
    }

    /// The select set of production `k`: what its body reaches and, where the
    /// whole body passes, what follows its head; the empty-string marker is
    /// taken out.
    pub fn select_row(
        &self,
        flags: &Vec<bool>,
        f: &Vec<Vec<bool>>,
        w: &Vec<Vec<bool>>,
        k: usize,
    ) -> (row: Vec<bool>)
        requires
            self.wf(),
            self.nullable_exact(flags@),
            self.first_exact(f@),
            self.follow_exact(w@),
            k < self.productions.len(),
        ensures
            row.len() == self.symbols.len(),
            forall|j: int|
                #![trigger row@[j]]
                0 <= j < row.len() ==> row@[j] == in_select(
                    self@.productions,
                    self@.productions[k as int],
                    self@.symbols[j],
                ),
    {
        assert(self.rule_wf(k as int));
        let mut acc = new_row(self.symbols.len());
        let ghost blank = acc@;
        let (_, all) = self.scan_body(flags, f, k, &mut acc);
        let ghost reached = acc@;
        if all {
            let _ = union_into(&mut acc, &w[self.heads[k]]);
        }
        let ghost joined = acc@;
        let row = self.without_empty(&acc);
        proof {
            let g = self@.productions;
            let p = g[k as int];
            let h = self.heads[k as int] as int;
            if all {
                self.lemma_prefix_sound(flags@, k as int, self.bodies[k as int].len() as int);
            }
            if prefix_vanishes(g, p.body, p.body.len() as int) {
                self.lemma_prefix_complete(flags@, k as int, self.bodies[k as int].len() as int);
            }
            assert forall|j: int| #![trigger row@[j]] 0 <= j < row.len() implies row@[j]
                == in_select(g, p, self@.symbols[j]) by {
                self.lemma_body_reaches(flags@, f@, k as int, j);
                assert(!blank[j]);
                assert(reached[j] == (blank[j] || self.body_reaches(flags@, f@, k as int, j)));
                if all {
                    assert(joined[j] == (reached[j] || w@[h]@[j]));
                }
                assert(cell(w@, h, j) == in_follow(g, p.head, self@.symbols[j]));
                assert(self.kinds[j] == kind_of(self@.symbols[j]));
                assert(row@[j] == (joined[j] && self.kinds[j] != SymbolKind::Empty));
            }
        }
        row
    }

    /// The select sets of all productions, in one pass.
    pub fn calc_select(&self, flags: &Vec<bool>, f: &Vec<Vec<bool>>, w: &Vec<Vec<bool>>) -> (s: Vec<
        Vec<bool>,
    >)
        requires
            self.wf(),
            self.nullable_exact(flags@),
            self.first_exact(f@),
            self.follow_exact(w@),
        ensures
            self.select_exact(s@),
    {
        let mut s: Vec<Vec<bool>> = Vec::new();
        let mut k: usize = 0;
        while k < self.productions.len()
            invariant
                self.wf(),
                self.nullable_exact(flags@),
                self.first_exact(f@),
                self.follow_exact(w@),
                k <= self.productions.len(),
                s.len() == k,
                forall|a: int| #![trigger s@[a]] 0 <= a < k ==> s@[a]@.len() == self.symbols.len(),
                forall|a: int, j: int|
                    #![trigger cell(s@, a, j)]
                    0 <= a < k && 0 <= j < self.symbols.len() ==> cell(s@, a, j) == in_select(
                        self@.productions,
                        self@.productions[a],
                        self@.symbols[j],
                    ),
            decreases self.productions.len() - k,
        {
            let row = self.select_row(flags, f, w, k);
            let ghost prev = s@;
            s.push(row);
            proof {
                assert forall|a: int, j: int|
                    #![trigger cell(s@, a, j)]
                    0 <= a < k + 1 && 0 <= j < self.symbols.len() implies cell(s@, a, j)
                    == in_select(self@.productions, self@.productions[a], self@.symbols[j]) by {
                    if a < k {
                        assert(cell(prev, a, j) == in_select(
                            self@.productions,
                            self@.productions[a],
                            self@.symbols[j],
                        ));
                    } else {
                        assert(row@[j] == in_select(
                            self@.productions,
                            self@.productions[k as int],
                            self@.symbols[j],
                        ));
                    }
                }
            }
            k += 1;
        }
        s
    }
}

} // verus!
