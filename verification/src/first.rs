use crate::bits::{
    cleared_cells, copy_row, grid, lemma_table_grows, new_row, new_table, raised_cells,
    table_grows, union_into,
};
use crate::nullable::{derives_empty, nullable, vanishes};
use crate::rules::Rules;
use crate::symbol::{empty_name, is_nonterminal, kind_of, Name, ProductionView, SymbolKind};
use vstd::prelude::*;

verus! {

/// Every symbol of `body` before position `m` derives the empty string.
pub open spec fn prefix_vanishes(g: Seq<ProductionView>, body: Seq<Name>, m: int) -> bool {
    forall|j: int| #![trigger body[j]] 0 <= j < m ==> vanishes(g, body[j])
}

/// `t` is reached from `x` along at most `n` productions, each entered at a
/// body symbol before which every symbol derives the empty string. A symbol
/// that is no nonterminal reaches itself alone.
pub open spec fn first_within(g: Seq<ProductionView>, x: Name, t: Name, n: nat) -> bool
    decreases n,
{
    if !is_nonterminal(x) {
        t == x
    } else {
        n > 0 && exists|k: int, m: int|
            #![trigger g[k].body[m]]
            0 <= k < g.len() && g[k].head == x && 0 <= m < g[k].body.len() && prefix_vanishes(
                g,
                g[k].body,
                m,
            ) && first_within(g, g[k].body[m], t, (n - 1) as nat)
    }
}

/// `t` belongs to the first set of `x`.
pub open spec fn in_first(g: Seq<ProductionView>, x: Name, t: Name) -> bool {
    exists|n: nat| first_within(g, x, t, n)
}

/// The first set of `x`.
pub open spec fn first_set(g: Seq<ProductionView>, x: Name) -> Set<Name> {
    Set::new(|t: Name| in_first(g, x, t))
}

/// The flag of a table at row `i` and column `j`.
pub open spec fn cell(t: Seq<Vec<bool>>, i: int, j: int) -> bool {
    t[i]@[j]
}

/// A table of `n` rows of `n` flags.
pub open spec fn square(t: Seq<Vec<bool>>, n: int) -> bool {
    &&& t.len() == n
    &&& forall|i: int| #![trigger t[i]] 0 <= i < n ==> t[i]@.len() == n
}

/// No first set holds a nonterminal.
pub proof fn lemma_first_within_kind(g: Seq<ProductionView>, x: Name, t: Name, n: nat)
    requires
        first_within(g, x, t, n),
    ensures
        !is_nonterminal(t),
    decreases n,
{
    if is_nonterminal(x) {
        let (k, m) = choose|k: int, m: int|
            #![trigger g[k].body[m]]
            0 <= k < g.len() && g[k].head == x && 0 <= m < g[k].body.len() && prefix_vanishes(
                g,
                g[k].body,
                m,
            ) && first_within(g, g[k].body[m], t, (n - 1) as nat);
        lemma_first_within_kind(g, g[k].body[m], t, (n - 1) as nat);
    }
}

/// No first set holds a nonterminal.
pub proof fn lemma_first_holds_no_nonterminal(g: Seq<ProductionView>, x: Name, t: Name)
    requires
        first_set(g, x).contains(t),
    ensures
        !is_nonterminal(t),
{
    let n = choose|n: nat| first_within(g, x, t, n);
    lemma_first_within_kind(g, x, t, n);
}

/// What a body symbol reaches, the head reaches too, if everything before
/// the symbol derives the empty string.
pub proof fn lemma_first_step(g: Seq<ProductionView>, k: int, m: int, t: Name)
    requires
        0 <= k < g.len(),
        0 <= m < g[k].body.len(),
        is_nonterminal(g[k].head),
        prefix_vanishes(g, g[k].body, m),
        in_first(g, g[k].body[m], t),
    ensures
        in_first(g, g[k].head, t),
{
    let n = choose|n: nat| first_within(g, g[k].body[m], t, n);
    assert(first_within(g, g[k].head, t, n + 1));
}

impl Rules {
    /// Every symbol of the body of production `k` before position `m` passes.
    pub open spec fn prefix_passes(&self, flags: Seq<bool>, k: int, m: int) -> bool {
        forall|j: int|
            #![trigger self.bodies[k][j]]
            0 <= j < m ==> self.passes(flags, self.bodies[k][j] as int)
    }

    /// Every flag of the table stands for a member of a first set.
    pub open spec fn first_sound(&self, t: Seq<Vec<bool>>) -> bool {
        &&& square(t, self.symbols.len() as int)
        &&& forall|i: int, j: int|
            #![trigger cell(t, i, j)]
            0 <= i < t.len() && 0 <= j < t.len() && cell(t, i, j) ==> in_first(
                self@.productions,
                self@.symbols[i],
                self@.symbols[j],
            )
    }

    /// Every symbol that is no nonterminal is flagged in its own row.
    pub open spec fn first_seeded(&self, t: Seq<Vec<bool>>) -> bool {
        forall|i: int|
            #![trigger self.kinds[i]]
            0 <= i < self.symbols.len() && self.kinds[i] != SymbolKind::Nonterminal ==> cell(
                t,
                i,
                i,
            )
    }

    /// Production `k` could raise no further flag in the row of its head.
    pub open spec fn first_rule_closed(&self, flags: Seq<bool>, t: Seq<Vec<bool>>, k: int) -> bool {
        forall|m: int, j: int|
            #![trigger cell(t, self.bodies[k][m] as int, j)]
            0 <= m < self.bodies[k].len() && 0 <= j < self.symbols.len() && self.prefix_passes(
                flags,
                k,
                m,
            ) && cell(t, self.bodies[k][m] as int, j) ==> cell(t, self.heads[k] as int, j)
    }

    /// No production could raise a further flag.
    pub open spec fn first_closed(&self, flags: Seq<bool>, t: Seq<Vec<bool>>) -> bool {
        forall|k: int|
            0 <= k < self.productions.len() ==> #[trigger] self.first_rule_closed(flags, t, k)
    }

    /// The table holds the first sets: row by row, the members and no others.
    pub open spec fn first_exact(&self, t: Seq<Vec<bool>>) -> bool {
        &&& square(t, self.symbols.len() as int)
        &&& forall|i: int, j: int|
            #![trigger cell(t, i, j)]
            0 <= i < t.len() && 0 <= j < t.len() ==> cell(t, i, j) == in_first(
                self@.productions,
                self@.symbols[i],
                self@.symbols[j],
            )
    }

    pub proof fn lemma_prefix_sound(&self, flags: Seq<bool>, k: int, m: int)
        requires
            self.wf(),
            self.nullable_exact(flags),
            0 <= k < self.productions.len(),
            0 <= m <= self.bodies[k].len(),
            self.prefix_passes(flags, k, m),
        ensures
            prefix_vanishes(self@.productions, self@.productions[k].body, m),
    {
        let g = self@.productions;
        assert(self.rule_wf(k));
        assert forall|j: int| #![trigger g[k].body[j]] 0 <= j < m implies vanishes(
            g,
            g[k].body[j],
        ) by {
            let b = self.bodies[k][j];
            assert(self.passes(flags, b as int));
            if self.kinds[b as int] == SymbolKind::Empty {
                assert(derives_empty(g, g[k].body[j], 0));
            } else {
                assert(flags[b as int]);
            }
        }
    }

    pub proof fn lemma_prefix_complete(&self, flags: Seq<bool>, k: int, m: int)
        requires
            self.wf(),
            self.nullable_exact(flags),
            0 <= k < self.productions.len(),
            0 <= m <= self.bodies[k].len(),
            prefix_vanishes(self@.productions, self@.productions[k].body, m),
        ensures
            self.prefix_passes(flags, k, m),
    {
        let g = self@.productions;
        assert(self.rule_wf(k));
        assert forall|j: int| #![trigger self.bodies[k][j]] 0 <= j < m implies self.passes(
            flags,
            self.bodies[k][j] as int,
        ) by {
            let b = self.bodies[k][j] as int;
            assert(vanishes(g, g[k].body[j]));
            assert(self@.symbols[b] == g[k].body[j]);
            if self@.symbols[b] != empty_name() {
                assert(nullable(g, self@.symbols[b]));
                assert(flags[b]);
            } else {
                assert(self.kinds[b] == kind_of(self@.symbols[b]));
            }
        }
    }

    /// Under a seeded and closed table, whatever a symbol reaches is flagged
    /// in its row.
    pub proof fn lemma_first_complete(
        &self,
        flags: Seq<bool>,
        t: Seq<Vec<bool>>,
        i: int,
        x: Name,
        n: nat,
    ) -> (j: int)
        requires
            self.wf(),
            self.nullable_exact(flags),
            square(t, self.symbols.len() as int),
            self.first_seeded(t),
            self.first_closed(flags, t),
            0 <= i < self.symbols.len(),
            first_within(self@.productions, self@.symbols[i], x, n),
        ensures
            0 <= j < self.symbols.len(),
            self@.symbols[j] == x,
            cell(t, i, j),
        decreases n,
    {
        let g = self@.productions;
        let s = self@.symbols[i];
        assert(self.kinds[i] == kind_of(s));
        if !is_nonterminal(s) {
            i
        } else {
            let (k, m) = choose|k: int, m: int|
                #![trigger g[k].body[m]]
                0 <= k < g.len() && g[k].head == s && 0 <= m < g[k].body.len() && prefix_vanishes(
                    g,
                    g[k].body,
                    m,
                ) && first_within(g, g[k].body[m], x, (n - 1) as nat);
            assert(self.rule_wf(k));
            assert(self.heads[k] == i);
            let b = self.bodies[k][m] as int;
            let j = self.lemma_first_complete(flags, t, b, x, (n - 1) as nat);
            self.lemma_prefix_complete(flags, k, m);
            assert(self.first_rule_closed(flags, t, k));
            assert(cell(t, self.bodies[k][m] as int, j));
            j
        }
    }

    /// A sound, seeded and closed table is exact.
    pub proof fn lemma_first_exact(&self, flags: Seq<bool>, t: Seq<Vec<bool>>)
        requires
            self.wf(),
            self.nullable_exact(flags),
            self.first_sound(t),
            self.first_seeded(t),
            self.first_closed(flags, t),
        ensures
            self.first_exact(t),
    {
        let g = self@.productions;
        assert forall|i: int, j: int|
            #![trigger cell(t, i, j)]
            0 <= i < t.len() && 0 <= j < t.len() implies cell(t, i, j) == in_first(
            g,
            self@.symbols[i],
            self@.symbols[j],
        ) by {
            if in_first(g, self@.symbols[i], self@.symbols[j]) {
                let n = choose|n: nat| first_within(g, self@.symbols[i], self@.symbols[j], n);
                let j2 = self.lemma_first_complete(flags, t, i, self@.symbols[j], n);
                assert(j2 == j);
            }
        }
    }
}

impl Rules {
    /// Some symbol of the body of production `k` that stands before position
    /// `limit`, with only passing symbols before it, has column `j` flagged
    /// in its row.
    pub open spec fn reached_before(
        &self,
        flags: Seq<bool>,
        t: Seq<Vec<bool>>,
        k: int,
        limit: int,
        j: int,
    ) -> bool {
        exists|m: int|
            #![trigger self.bodies[k][m]]
            0 <= m < limit && self.prefix_passes(flags, k, m) && cell(
                t,
                self.bodies[k][m] as int,
                j,
            )
    }

    /// The body of production `k` reaches the symbol at position `j`.
    pub open spec fn body_reaches(&self, flags: Seq<bool>, t: Seq<Vec<bool>>, k: int, j: int) -> bool {
        self.reached_before(flags, t, k, self.bodies[k].len() as int, j)
    }

    /// The body of production `k` reaches the symbol at position `j`, by
    /// the rows of `g`.
    pub open spec fn reached_in(&self, flags: Seq<bool>, g: Seq<Seq<bool>>, k: int, j: int) -> bool {
        exists|m: int|
            #![trigger self.bodies[k][m]]
            0 <= m < self.bodies[k].len() && self.prefix_passes(flags, k, m)
                && g[self.bodies[k][m] as int][j]
    }

    /// The rows after production `k` had its turn: the row of its head has
    /// gained what its body reaches.
    pub open spec fn first_step(&self, flags: Seq<bool>, g: Seq<Seq<bool>>, k: int) -> Seq<Seq<bool>> {
        let h = self.heads[k] as int;
        g.update(h, Seq::new(g[h].len(), |j: int| g[h][j] || self.reached_in(flags, g, k, j)))
    }

    /// The rows after the first `k` productions had their turn, one after
    /// the other.
    pub open spec fn first_after(&self, flags: Seq<bool>, g: Seq<Seq<bool>>, k: int) -> Seq<Seq<bool>>
        decreases k,
    {
        if k <= 0 {
            g
        } else {
            self.first_step(flags, self.first_after(flags, g, k - 1), k - 1)
        }
    }

    pub proof fn lemma_reached_in(&self, flags: Seq<bool>, t: Seq<Vec<bool>>, k: int, j: int)
        requires
            self.wf(),
            square(t, self.symbols.len() as int),
            0 <= k < self.productions.len(),
        ensures
            self.reached_in(flags, grid(t), k, j) == self.body_reaches(flags, t, k, j),
    {
        assert(self.rule_wf(k));
        if self.reached_in(flags, grid(t), k, j) {
            let m = choose|m: int|
                #![trigger self.bodies[k][m]]
                0 <= m < self.bodies[k].len() && self.prefix_passes(flags, k, m) && grid(
                    t,
                )[self.bodies[k][m] as int][j];
            assert(cell(t, self.bodies[k][m] as int, j));
        }
        if self.body_reaches(flags, t, k, j) {
            let m = choose|m: int|
                #![trigger self.bodies[k][m]]
                0 <= m < self.bodies[k].len() && self.prefix_passes(flags, k, m) && cell(
                    t,
                    self.bodies[k][m] as int,
                    j,
                );
            assert(grid(t)[self.bodies[k][m] as int][j]);
        }
    }

    /// Scans the body of production `k` from the left: the row of each symbol
    /// is added to `acc`, and the scan stops behind the first symbol that does
    /// not pass. A terminal adds itself, its row holding nothing else.
    /// Returns whether `acc` gained a flag, and whether the whole body passed.
    pub fn scan_body(&self, flags: &Vec<bool>, t: &Vec<Vec<bool>>, k: usize, acc: &mut Vec<bool>) -> (r:
        (bool, bool))
        requires
            self.wf(),
            flags.len() == self.symbols.len(),
            square(t@, self.symbols.len() as int),
            k < self.productions.len(),
            old(acc).len() == self.symbols.len(),
        ensures
            final(acc).len() == self.symbols.len(),
            forall|j: int|
                #![trigger final(acc)@[j]]
                0 <= j < self.symbols.len() ==> final(acc)@[j] == (old(acc)@[j]
                    || self.body_reaches(flags@, t@, k as int, j)),
            r.0 == exists|j: int|
                #![trigger final(acc)@[j]]
                0 <= j < self.symbols.len() && final(acc)@[j] && !old(acc)@[j],
            r.1 == self.body_passes(flags@, k as int),
    {
        let body = &self.bodies[k];
        let mut added = false;
        let mut open = true;
        let mut m: usize = 0;
        let ghost mut gained: int = 0;
        while open && m < body.len()
            invariant
                self.wf(),
                flags.len() == self.symbols.len(),
                square(t@, self.symbols.len() as int),
                k < self.productions.len(),
                body == self.bodies[k as int],
                old(acc).len() == self.symbols.len(),
                acc.len() == self.symbols.len(),
                m <= body.len(),
                open ==> self.prefix_passes(flags@, k as int, m as int),
                !open ==> m >= 1 && !self.passes(flags@, self.bodies[k as int][m - 1] as int),
                forall|j: int|
                    #![trigger acc@[j]]
                    0 <= j < self.symbols.len() ==> acc@[j] == (old(acc)@[j]
                        || self.reached_before(flags@, t@, k as int, m as int, j)),
                added ==> 0 <= gained < self.symbols.len() && acc@[gained] && !old(acc)@[gained],
                !added ==> acc@ == old(acc)@,
            decreases
                    body.len() - m,
                    if open {
                        1int
                    } else {
                        0int
                    },
        {
            assert(self.rule_wf(k as int));
            let b = body[m];
            let ghost prev = acc@;
            let more = union_into(acc, &t[b]);
            proof {
                if more {
                    let j = choose|j: int|
                        #![trigger t[b as int]@[j]]
                        0 <= j < t[b as int].len() && t[b as int]@[j] && !prev[j];
                    assert(acc@[j]);
                    if !added {
                        gained = j;
                    } else {
                        assert(prev[gained]);
                        assert(acc@[gained]);
                    }
                } else {
                    assert(acc@ =~= prev) by {
                        assert forall|j: int| 0 <= j < acc.len() implies acc@[j] == prev[j] by {
                            if t[b as int]@[j] && !prev[j] {
                            }
                        }
                    }
                }
                assert forall|j: int|
                    #![trigger acc@[j]]
                    0 <= j < self.symbols.len() implies acc@[j] == (old(acc)@[j]
                    || self.reached_before(flags@, t@, k as int, m + 1, j)) by {
                    assert(prev[j] == (old(acc)@[j] || self.reached_before(
                        flags@,
                        t@,
                        k as int,
                        m as int,
                        j,
                    )));
                    assert(acc@[j] == (prev[j] || t[b as int]@[j]));
                    if self.reached_before(flags@, t@, k as int, m + 1, j) {
                        let w = choose|w: int|
                            #![trigger self.bodies[k as int][w]]
                            0 <= w < m + 1 && self.prefix_passes(flags@, k as int, w) && cell(
                                t@,
                                self.bodies[k as int][w] as int,
                                j,
                            );
                        if w < m {
                            assert(self.reached_before(flags@, t@, k as int, m as int, j));
                        }
                    }
                    if t[b as int]@[j] {
                        assert(cell(t@, self.bodies[k as int][m as int] as int, j));
                    }
                }
            }
            added = added || more;
            let pass = match self.kinds[b] {
                SymbolKind::Empty => true,
                _ => flags[b],
            };
            if !pass {
                open = false;
            }
            m += 1;
        }
        proof {
            let len = body.len() as int;
            if !open {
                assert forall|j: int| 0 <= j < self.symbols.len() implies self.reached_before(
                    flags@,
                    t@,
                    k as int,
                    len,
                    j,
                ) == self.reached_before(flags@, t@, k as int, m as int, j) by {
                    if self.reached_before(flags@, t@, k as int, len, j) {
                        let w = choose|w: int|
                            #![trigger self.bodies[k as int][w]]
                            0 <= w < len && self.prefix_passes(flags@, k as int, w) && cell(
                                t@,
                                self.bodies[k as int][w] as int,
                                j,
                            );
                        if w >= m {
                            assert(self.passes(flags@, self.bodies[k as int][m - 1] as int));
                        }
                    }
                }
                assert(!self.body_passes(flags@, k as int));
            }
            if added {
                assert(acc@[gained] && !old(acc)@[gained]);
            }
        }
        (added, open)
    }
}

impl Rules {
    /// The table to start from: each symbol that is no nonterminal is flagged
    /// in its own row, and no other flag is set.
    pub fn seed_first(&self) -> (t: Vec<Vec<bool>>)
        requires
            self.wf(),
        ensures
            square(t@, self.symbols.len() as int),
            forall|i: int, j: int|
                #![trigger cell(t@, i, j)]
                0 <= i < self.symbols.len() && 0 <= j < self.symbols.len() ==> cell(t@, i, j) == (i
                    == j && self.kinds[i] != SymbolKind::Nonterminal),
            self.first_sound(t@),
            self.first_seeded(t@),
    {
        let n = self.symbols.len();
        let mut t = new_table(n, n);
        let mut i: usize = 0;
        while i < n
            invariant
                self.wf(),
                n == self.symbols.len(),
                i <= n,
                square(t@, n as int),
                forall|a: int, j: int|
                    #![trigger cell(t@, a, j)]
                    0 <= a < n && 0 <= j < n && cell(t@, a, j) ==> a == j && a < i && self.kinds[a]
                        != SymbolKind::Nonterminal,
                forall|a: int|
                    #![trigger self.kinds[a]]
                    0 <= a < i && self.kinds[a] != SymbolKind::Nonterminal ==> cell(t@, a, a),
            decreases n - i,
        {
            let seed = match self.kinds[i] {
                SymbolKind::Nonterminal => false,
                _ => true,
            };
            if seed {
                let ghost prev = t@;
                let mut row = new_row(n);
                row.set(i, true);
                t.set(i, row);
                assert forall|a: int, j: int|
                    #![trigger cell(t@, a, j)]
                    0 <= a < n && 0 <= j < n && cell(t@, a, j) implies a == j && a < i + 1
                    && self.kinds[a] != SymbolKind::Nonterminal by {
                    if a != i {
                        assert(cell(prev, a, j));
                    }
                }
                assert forall|a: int|
                    #![trigger self.kinds[a]]
                    0 <= a < i + 1 && self.kinds[a] != SymbolKind::Nonterminal implies cell(
                    t@,
                    a,
                    a,
                ) by {
                    if a != i {
                        assert(cell(prev, a, a));
                    }
                }
            }
            i += 1;
        }
        proof {
            let g = self@.productions;
            assert forall|a: int, j: int|
                #![trigger cell(t@, a, j)]
                0 <= a < t.len() && 0 <= j < t.len() && cell(t@, a, j) implies in_first(
                g,
                self@.symbols[a],
                self@.symbols[j],
            ) by {
                assert(self.kinds[a] == kind_of(self@.symbols[a]));
                assert(first_within(g, self@.symbols[a], self@.symbols[j], 0));
            }
        }
        t
    }

    /// One pass over all productions: the row of each head gains what the
    /// body of the production reaches. Tells whether a flag was raised.
    pub fn first_pass(&self, flags: &Vec<bool>, t: &mut Vec<Vec<bool>>) -> (changed: bool)
        requires
            self.wf(),
            self.nullable_exact(flags@),
            self.first_sound(old(t)@),
            self.first_seeded(old(t)@),
        ensures
            grid(final(t)@) == self.first_after(
                flags@,
                grid(old(t)@),
                self.productions.len() as int,
            ),
            changed == (grid(final(t)@) != grid(old(t)@)),
            self.first_sound(final(t)@),
            self.first_seeded(final(t)@),
            table_grows(old(t)@, final(t)@),
            raised_cells(old(t)@).len() <= raised_cells(final(t)@).len(),
            cleared_cells(final(t)@).len() <= cleared_cells(old(t)@).len(),
            changed ==> cleared_cells(final(t)@).len() < cleared_cells(old(t)@).len(),
            !changed ==> self.first_closed(flags@, final(t)@),
    {
        let mut changed = false;
        let ghost mut witness: (int, int) = (0, 0);
        let mut k: usize = 0;
        while k < self.productions.len()
            invariant
                self.wf(),
                self.nullable_exact(flags@),
                k <= self.productions.len(),
                grid(t@) == self.first_after(flags@, grid(old(t)@), k as int),
                self.first_sound(t@),
                self.first_seeded(t@),
                table_grows(old(t)@, t@),
                changed ==> 0 <= witness.0 < t.len() && 0 <= witness.1 < t.len() && cell(
                    t@,
                    witness.0,
                    witness.1,
                ) && !cell(old(t)@, witness.0, witness.1),
                !changed ==> t@ == old(t)@,
                !changed ==> forall|j: int|
                    0 <= j < k ==> #[trigger] self.first_rule_closed(flags@, t@, j),
            decreases self.productions.len() - k,
        {
            assert(self.rule_wf(k as int));
            let head = self.heads[k];
            let mut acc = copy_row(&t[head]);
            let (added, _) = self.scan_body(flags, t, k, &mut acc);
            let ghost prev = t@;
            proof {
                let stepped = self.first_step(flags@, grid(prev), k as int);
                assert(stepped[head as int] =~= acc@) by {
                    assert forall|j: int| 0 <= j < acc.len() implies stepped[head as int][j]
                        == acc@[j] by {
                        self.lemma_reached_in(flags@, prev, k as int, j);
                        assert(acc@[j] == (prev[head as int]@[j] || self.body_reaches(
                            flags@,
                            prev,
                            k as int,
                            j,
                        )));
                    }
                }
                assert(stepped =~= grid(prev).update(head as int, acc@));
                let g = self@.productions;
                assert forall|j: int|
                    #![trigger acc@[j]]
                    0 <= j < self.symbols.len() && acc@[j] implies in_first(
                    g,
                    self@.symbols[head as int],
                    self@.symbols[j],
                ) by {
                    if !cell(prev, head as int, j) {
                        assert(self.body_reaches(flags@, prev, k as int, j));
                        let m = choose|m: int|
                            #![trigger self.bodies[k as int][m]]
                            0 <= m < self.bodies[k as int].len() && self.prefix_passes(
                                flags@,
                                k as int,
                                m,
                            ) && cell(prev, self.bodies[k as int][m] as int, j);
                        self.lemma_prefix_sound(flags@, k as int, m);
                        lemma_first_step(g, k as int, m, self@.symbols[j]);
                    }
                }
                if !added {
                    assert(acc@ =~= prev[head as int]@) by {
                        assert forall|j: int| 0 <= j < acc.len() implies acc@[j] == prev[head as int]@[j] by {
                            if acc@[j] && !prev[head as int]@[j] {
                            }
                        }
                    }
                    assert forall|m: int, j: int|
                        #![trigger cell(prev, self.bodies[k as int][m] as int, j)]
                        0 <= m < self.bodies[k as int].len() && 0 <= j < self.symbols.len()
                            && self.prefix_passes(flags@, k as int, m) && cell(
                            prev,
                            self.bodies[k as int][m] as int,
                            j,
                        ) implies cell(prev, head as int, j) by {
                        assert(self.body_reaches(flags@, prev, k as int, j));
                        assert(acc@[j]);
                    }
                    assert(self.first_rule_closed(flags@, prev, k as int));
                    assert(grid(prev).update(head as int, acc@) =~= grid(prev));
                }
            }
            if added {
                proof {
                    let j = choose|j: int|
                        #![trigger acc@[j]]
                        0 <= j < self.symbols.len() && acc@[j] && !prev[head as int]@[j];
                    if !changed {
                        witness = (head as int, j);
                    }
                }
                let ghost row = acc@;
                t.set(head, acc);
                changed = true;
                proof {
                    assert(grid(t@) =~= grid(prev).update(head as int, row));
                    assert forall|i: int, j: int|
                        #![trigger cell(t@, i, j)]
                        0 <= i < t.len() && 0 <= j < t.len() && cell(t@, i, j) implies in_first(
                        self@.productions,
                        self@.symbols[i],
                        self@.symbols[j],
                    ) by {
                        if i != head {
                            assert(cell(prev, i, j));
                        }
                    }
                    assert forall|i: int|
                        #![trigger self.kinds[i]]
                        0 <= i < self.symbols.len() && self.kinds[i]
                            != SymbolKind::Nonterminal implies cell(t@, i, i) by {
                        assert(cell(prev, i, i));
                    }
                    assert(table_grows(prev, t@)) by {
                        assert forall|i: int, j: int|
                            0 <= i < prev.len() && 0 <= j < prev[i].len()
                                && prev[i][j] implies t@[i][j] by {
                            if i == head {
                                assert(acc@[j]);
                            }
                        }
                    }
                    assert(table_grows(old(t)@, t@)) by {
                        assert forall|i: int, j: int|
                            0 <= i < old(t)@.len() && 0 <= j < old(t)@[i].len() && old(
                                t,
                            )@[i][j] implies t@[i][j] by {
                            assert(prev[i][j]);
                        }
                    }
                    assert(cell(t@, witness.0, witness.1)) by {
                        assert(cell(prev, witness.0, witness.1) ==> prev[witness.0][witness.1]);
                    }
                }
            }
            k += 1;
        }
        proof {
            lemma_table_grows(old(t)@, t@);
            if changed {
                assert(t@[witness.0][witness.1] && !old(t)@[witness.0][witness.1]);
                assert(grid(t@)[witness.0][witness.1] != grid(old(t)@)[witness.0][witness.1]);
            }
        }
        changed
    }

    /// The first sets: a seeded table, and passes repeated until one raises
    /// no flag.
    pub fn calc_first(&self, flags: &Vec<bool>) -> (t: Vec<Vec<bool>>)
        requires
            self.wf(),
            self.nullable_exact(flags@),
        ensures
            self.first_exact(t@),
    {
        let mut t = self.seed_first();
        let mut changed = true;
        while changed
            invariant
                self.wf(),
                self.nullable_exact(flags@),
                self.first_sound(t@),
                self.first_seeded(t@),
                !changed ==> self.first_closed(flags@, t@),
            decreases
                    cleared_cells(t@).len(),
                    if changed {
                        1int
                    } else {
                        0int
                    },
        {
            changed = self.first_pass(flags, &mut t);
        }
        proof {
            self.lemma_first_exact(flags@, t@);
        }
        t
    }
}

} // verus!
