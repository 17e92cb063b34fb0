use crate::bits::{
    cleared_cells, copy_row, grid, lemma_table_grows, lemma_table_grows_twice, new_row,
    new_table, raised_cells, table_grows, union_into,
};
use crate::first::{cell, first_within, in_first, lemma_first_within_kind, square};
use crate::nullable::{derives_empty, nullable, vanishes};
use crate::rules::{start_name, Rules};
use crate::symbol::{
    empty_name, eof_name, is_nonterminal, is_terminal, kind_of, Name, ProductionView,
    SymbolKind,
};
use vstd::prelude::*;

verus! {

/// Every symbol of `body` from position `from` up to, not including, `to`
/// derives the empty string.
pub open spec fn span_vanishes(g: Seq<ProductionView>, body: Seq<Name>, from: int, to: int) -> bool {
    forall|m: int| #![trigger body[m]] from <= m < to ==> vanishes(g, body[m])
}

/// `u` belongs to the first set of a symbol of `body` at or behind position
/// `from`, that is not the empty-string marker and is parted from `from` only
/// by symbols that derive the empty string.
pub open spec fn trailing_first(g: Seq<ProductionView>, body: Seq<Name>, from: int, u: Name) -> bool {
    exists|q: int|
        #![trigger body[q]]
        from <= q < body.len() && span_vanishes(g, body, from, q) && body[q] != empty_name()
            && in_first(g, body[q], u)
}

/// `u` follows `x` by at most `n` steps from one body to the head's own
/// followers: `u` is the end-of-input marker behind the start symbol, or
/// some body holds `x` with `u` in what trails it, or with a vanishing tail
/// and `u` following the head.
pub open spec fn follow_within(g: Seq<ProductionView>, x: Name, u: Name, n: nat) -> bool
    decreases n,
{
    (x == start_name() && u == eof_name()) || (n > 0 && is_nonterminal(x) && exists|
        k: int,
        i: int,
    |
        #![trigger g[k].body[i]]
        0 <= k < g.len() && 0 <= i < g[k].body.len() && g[k].body[i] == x && (trailing_first(
            g,
            g[k].body,
            i + 1,
            u,
        ) || (span_vanishes(g, g[k].body, i + 1, g[k].body.len() as int) && follow_within(
            g,
            g[k].head,
            u,
            (n - 1) as nat,
        ))))
}

/// `u` follows `x`; the empty-string marker may do so where a first set
/// hands it on.
pub open spec fn follows(g: Seq<ProductionView>, x: Name, u: Name) -> bool {
    exists|n: nat| follow_within(g, x, u, n)
}

/// `u` belongs to the follow set of `x`.
pub open spec fn in_follow(g: Seq<ProductionView>, x: Name, u: Name) -> bool {
    u != empty_name() && follows(g, x, u)
}

/// The follow set of `x`.
pub open spec fn follow_set(g: Seq<ProductionView>, x: Name) -> Set<Name> {
    Set::new(|u: Name| in_follow(g, x, u))
}

/// Nothing that follows is a nonterminal.
pub proof fn lemma_follow_within_kind(g: Seq<ProductionView>, x: Name, u: Name, n: nat)
    requires
        follow_within(g, x, u, n),
    ensures
        !is_nonterminal(u),
    decreases n,
{
    if x == start_name() && u == eof_name() {
        assert(eof_name().len() != empty_name().len());
    } else {
        let (k, i) = choose|k: int, i: int|
            #![trigger g[k].body[i]]
            0 <= k < g.len() && 0 <= i < g[k].body.len() && g[k].body[i] == x && (trailing_first(
                g,
                g[k].body,
                i + 1,
                u,
            ) || (span_vanishes(g, g[k].body, i + 1, g[k].body.len() as int) && follow_within(
                g,
                g[k].head,
                u,
                (n - 1) as nat,
            )));
        if trailing_first(g, g[k].body, i + 1, u) {
            let q = choose|q: int|
                #![trigger g[k].body[q]]
                i + 1 <= q < g[k].body.len() && span_vanishes(g, g[k].body, i + 1, q)
                    && g[k].body[q] != empty_name() && in_first(g, g[k].body[q], u);
            let m = choose|m: nat| first_within(g, g[k].body[q], u, m);
            lemma_first_within_kind(g, g[k].body[q], u, m);
        } else {
            lemma_follow_within_kind(g, g[k].head, u, (n - 1) as nat);
        }
    }
}

/// Only the start symbol and nonterminals are followed by anything.
pub proof fn lemma_follow_within_head(g: Seq<ProductionView>, x: Name, u: Name, n: nat)
    requires
        follow_within(g, x, u, n),
        is_nonterminal(start_name()),
    ensures
        is_nonterminal(x),
{
}

/// Follow sets hold terminals only, the end-of-input marker among them.
pub proof fn lemma_follow_holds_terminals(g: Seq<ProductionView>, x: Name, u: Name)
    requires
        follow_set(g, x).contains(u),
    ensures
        is_terminal(u),
{
    let n = choose|n: nat| follow_within(g, x, u, n);
    lemma_follow_within_kind(g, x, u, n);
}

impl Rules {
    /// Every symbol of the body of production `k` from position `p` up to,
    /// not including, `q` passes.
    pub open spec fn gap_passes(&self, flags: Seq<bool>, k: int, p: int, q: int) -> bool {
        forall|m: int|
            #![trigger self.bodies[k][m]]
            p <= m < q ==> self.passes(flags, self.bodies[k][m] as int)
    }

    /// Column `j` is flagged in the row of `f` of a symbol of the body of
    /// production `k` at or behind `p`, that is not the empty-string marker
    /// and has only passing symbols between `p` and itself.
    pub open spec fn trail_first(
        &self,
        flags: Seq<bool>,
        f: Seq<Vec<bool>>,
        k: int,
        p: int,
        j: int,
    ) -> bool {
        exists|q: int|
            #![trigger self.bodies[k][q]]
            p <= q < self.bodies[k].len() && self.gap_passes(flags, k, p, q)
                && self.kinds[self.bodies[k][q] as int] != SymbolKind::Empty && cell(
                f,
                self.bodies[k][q] as int,
                j,
            )
    }

    /// What trails position `p - 1` of the body of production `k`, when
    /// `base` is what follows the head.
    pub open spec fn trail(
        &self,
        flags: Seq<bool>,
        f: Seq<Vec<bool>>,
        k: int,
        base: Seq<bool>,
        p: int,
        j: int,
    ) -> bool {
        self.trail_first(flags, f, k, p, j) || (self.gap_passes(
            flags,
            k,
            p,
            self.bodies[k].len() as int,
        ) && base[j])
    }

    /// Every flag of the table stands for a symbol that follows.
    pub open spec fn follow_sound(&self, w: Seq<Vec<bool>>) -> bool {
        &&& square(w, self.symbols.len() as int)
        &&& forall|i: int, j: int|
            #![trigger cell(w, i, j)]
            0 <= i < w.len() && 0 <= j < w.len() && cell(w, i, j) ==> follows(
                self@.productions,
                self@.symbols[i],
                self@.symbols[j],
            )
    }

    /// Production `k` could raise no further flag.
    pub open spec fn follow_rule_closed(
        &self,
        flags: Seq<bool>,
        f: Seq<Vec<bool>>,
        w: Seq<Vec<bool>>,
        k: int,
    ) -> bool {
        forall|p: int, j: int|
            #![trigger cell(w, self.bodies[k][p - 1] as int, j)]
            1 <= p <= self.bodies[k].len() && 0 <= j < self.symbols.len()
                && self.kinds[self.bodies[k][p - 1] as int] == SymbolKind::Nonterminal
                && self.trail(flags, f, k, w[self.heads[k] as int]@, p, j) ==> cell(
                w,
                self.bodies[k][p - 1] as int,
                j,
            )
    }

    /// The end-of-input marker is flagged behind the start symbol, and no
    /// production could raise a further flag.
    pub open spec fn follow_closed(&self, flags: Seq<bool>, f: Seq<Vec<bool>>, w: Seq<Vec<bool>>) -> bool {
        &&& cell(w, self.start as int, self.eof as int)
        &&& forall|k: int|
            0 <= k < self.productions.len() ==> #[trigger] self.follow_rule_closed(flags, f, w, k)
    }

    /// The table marks what follows each symbol, the empty-string marker
    /// included where a first set handed it on.
    pub open spec fn follow_raw(&self, w: Seq<Vec<bool>>) -> bool {
        &&& square(w, self.symbols.len() as int)
        &&& forall|i: int, j: int|
            #![trigger cell(w, i, j)]
            0 <= i < w.len() && 0 <= j < w.len() ==> cell(w, i, j) == follows(
                self@.productions,
                self@.symbols[i],
                self@.symbols[j],
            )
    }

    /// The table holds the follow sets: row by row, the members and no others.
    pub open spec fn follow_exact(&self, w: Seq<Vec<bool>>) -> bool {
        &&& square(w, self.symbols.len() as int)
        &&& forall|i: int, j: int|
            #![trigger cell(w, i, j)]
            0 <= i < w.len() && 0 <= j < w.len() ==> cell(w, i, j) == in_follow(
                self@.productions,
                self@.symbols[i],
                self@.symbols[j],
            )
    }

    pub proof fn lemma_gap_sound(&self, flags: Seq<bool>, k: int, p: int, q: int)
        requires
            self.wf(),
            self.nullable_exact(flags),
            0 <= k < self.productions.len(),
            0 <= p,
            q <= self.bodies[k].len(),
            self.gap_passes(flags, k, p, q),
        ensures
            span_vanishes(self@.productions, self@.productions[k].body, p, q),
    {
        let g = self@.productions;
        assert(self.rule_wf(k));
        assert forall|m: int| #![trigger g[k].body[m]] p <= m < q implies vanishes(
            g,
            g[k].body[m],
        ) by {
            let b = self.bodies[k][m];
            assert(self.passes(flags, b as int));
            if self.kinds[b as int] == SymbolKind::Empty {
                assert(derives_empty(g, g[k].body[m], 0));
            } else {
                assert(flags[b as int]);
            }
        }
    }

    pub proof fn lemma_gap_complete(&self, flags: Seq<bool>, k: int, p: int, q: int)
        requires
            self.wf(),
            self.nullable_exact(flags),
            0 <= k < self.productions.len(),
            0 <= p,
            q <= self.bodies[k].len(),
            span_vanishes(self@.productions, self@.productions[k].body, p, q),
        ensures
            self.gap_passes(flags, k, p, q),
    {
        let g = self@.productions;
        assert(self.rule_wf(k));
        assert forall|m: int| #![trigger self.bodies[k][m]] p <= m < q implies self.passes(
            flags,
            self.bodies[k][m] as int,
        ) by {
            let b = self.bodies[k][m] as int;
            assert(vanishes(g, g[k].body[m]));
            assert(self@.symbols[b] == g[k].body[m]);
            if self@.symbols[b] != empty_name() {
                assert(nullable(g, self@.symbols[b]));
                assert(flags[b]);
            } else {
                assert(self.kinds[b] == kind_of(self@.symbols[b]));
            }
        }
    }

    /// Whatever the first set of a symbol of the grammar holds is a symbol of
    /// the grammar.
    pub proof fn lemma_first_declared(&self, i: int, t: Name, n: nat) -> (j: int)
        requires
            self.wf(),
            0 <= i < self.symbols.len(),
            first_within(self@.productions, self@.symbols[i], t, n),
        ensures
            0 <= j < self.symbols.len(),
            self@.symbols[j] == t,
        decreases n,
    {
        let g = self@.productions;
        let x = self@.symbols[i];
        if !is_nonterminal(x) {
            i
        } else {
            let (k, m) = choose|k: int, m: int|
                #![trigger g[k].body[m]]
                0 <= k < g.len() && g[k].head == x && 0 <= m < g[k].body.len()
                    && crate::first::prefix_vanishes(g, g[k].body, m) && first_within(
                    g,
                    g[k].body[m],
                    t,
                    (n - 1) as nat,
                );
            assert(self.rule_wf(k));
            self.lemma_first_declared(self.bodies[k][m] as int, t, (n - 1) as nat)
        }
    }

    /// What trails a nonterminal of a body follows it.
    pub proof fn lemma_trail_sound(
        &self,
        flags: Seq<bool>,
        f: Seq<Vec<bool>>,
        k: int,
        base: Seq<bool>,
        p: int,
        j: int,
    )
        requires
            self.wf(),
            self.nullable_exact(flags),
            self.first_exact(f),
            0 <= k < self.productions.len(),
            1 <= p <= self.bodies[k].len(),
            0 <= j < self.symbols.len(),
            base.len() == self.symbols.len(),
            self.kinds[self.bodies[k][p - 1] as int] == SymbolKind::Nonterminal,
            base[j] ==> follows(
                self@.productions,
                self@.symbols[self.heads[k] as int],
                self@.symbols[j],
            ),
            self.trail(flags, f, k, base, p, j),
        ensures
            follows(
                self@.productions,
                self@.symbols[self.bodies[k][p - 1] as int],
                self@.symbols[j],
            ),
    {
        let g = self@.productions;
        let u = self@.symbols[j];
        assert(self.rule_wf(k));
        let b = self.bodies[k][p - 1] as int;
        let x = self@.symbols[b];
        assert(g[k].body[p - 1] == x);
        assert(self.kinds[b] == kind_of(x));
        if self.trail_first(flags, f, k, p, j) {
            let q = choose|q: int|
                #![trigger self.bodies[k][q]]
                p <= q < self.bodies[k].len() && self.gap_passes(flags, k, p, q)
                    && self.kinds[self.bodies[k][q] as int] != SymbolKind::Empty && cell(
                    f,
                    self.bodies[k][q] as int,
                    j,
                );
            self.lemma_gap_sound(flags, k, p, q);
            let bq = self.bodies[k][q] as int;
            assert(self.kinds[bq] == kind_of(self@.symbols[bq]));
            assert(g[k].body[q] == self@.symbols[bq]);
            assert(in_first(g, g[k].body[q], u));
            assert(trailing_first(g, g[k].body, p, u));
            assert(follow_within(g, x, u, 1));
        } else {
            self.lemma_gap_sound(flags, k, p, self.bodies[k].len() as int);
            let n = choose|n: nat| follow_within(g, g[k].head, u, n);
            assert(follow_within(g, x, u, n + 1));
        }
    }

    /// Under a closed table, whatever follows a symbol of the grammar is
    /// flagged in its row.
    pub proof fn lemma_follow_complete(
        &self,
        flags: Seq<bool>,
        f: Seq<Vec<bool>>,
        w: Seq<Vec<bool>>,
        i: int,
        u: Name,
        n: nat,
    ) -> (j: int)
        requires
            self.wf(),
            self.nullable_exact(flags),
            self.first_exact(f),
            square(w, self.symbols.len() as int),
            self.follow_closed(flags, f, w),
            0 <= i < self.symbols.len(),
            follow_within(self@.productions, self@.symbols[i], u, n),
        ensures
            0 <= j < self.symbols.len(),
            self@.symbols[j] == u,
            cell(w, i, j),
        decreases n,
    {
        let g = self@.productions;
        let x = self@.symbols[i];
        if x == start_name() && u == eof_name() {
            assert(i == self.start);
            self.eof as int
        } else {
            let (k, pos) = choose|k: int, pos: int|
                #![trigger g[k].body[pos]]
                0 <= k < g.len() && 0 <= pos < g[k].body.len() && g[k].body[pos] == x && (
                trailing_first(g, g[k].body, pos + 1, u) || (span_vanishes(
                    g,
                    g[k].body,
                    pos + 1,
                    g[k].body.len() as int,
                ) && follow_within(g, g[k].head, u, (n - 1) as nat)));
            assert(self.rule_wf(k));
            assert(self.bodies[k][pos] == i);
            assert(self.kinds[i] == kind_of(x));
            assert(self.follow_rule_closed(flags, f, w, k));
            let p = pos + 1;
            if trailing_first(g, g[k].body, p, u) {
                let q = choose|q: int|
                    #![trigger g[k].body[q]]
                    p <= q < g[k].body.len() && span_vanishes(g, g[k].body, p, q) && g[k].body[q]
                        != empty_name() && in_first(g, g[k].body[q], u);
                let bq = self.bodies[k][q] as int;
                let m = choose|m: nat| first_within(g, g[k].body[q], u, m);
                let j = self.lemma_first_declared(bq, u, m);
                assert(cell(f, bq, j));
                self.lemma_gap_complete(flags, k, p, q);
                assert(self.kinds[bq] == kind_of(self@.symbols[bq]));
                assert(self.trail_first(flags, f, k, p, j));
                assert(cell(w, self.bodies[k][p - 1] as int, j));
                j
            } else {
                let h = self.heads[k] as int;
                let j = self.lemma_follow_complete(flags, f, w, h, u, (n - 1) as nat);
                self.lemma_gap_complete(flags, k, p, self.bodies[k].len() as int);
                assert(w[h]@[j]);
                assert(self.trail(flags, f, k, w[h]@, p, j));
                assert(cell(w, self.bodies[k][p - 1] as int, j));
                j
            }
        }
    }

    /// A sound and closed table marks exactly what follows.
    pub proof fn lemma_follow_raw(&self, flags: Seq<bool>, f: Seq<Vec<bool>>, w: Seq<Vec<bool>>)
        requires
            self.wf(),
            self.nullable_exact(flags),
            self.first_exact(f),
            self.follow_sound(w),
            self.follow_closed(flags, f, w),
        ensures
            self.follow_raw(w),
    {
        let g = self@.productions;
        assert forall|i: int, j: int|
            #![trigger cell(w, i, j)]
            0 <= i < w.len() && 0 <= j < w.len() implies cell(w, i, j) == follows(
            g,
            self@.symbols[i],
            self@.symbols[j],
        ) by {
            if follows(g, self@.symbols[i], self@.symbols[j]) {
                let n = choose|n: nat| follow_within(g, self@.symbols[i], self@.symbols[j], n);
                let j2 = self.lemma_follow_complete(flags, f, w, i, self@.symbols[j], n);
                assert(j2 == j);
            }
        }
    }
}

impl Rules {
    /// How what trails a position is made from what trails the next one.
    pub proof fn lemma_trail_step(
        &self,
        flags: Seq<bool>,
        f: Seq<Vec<bool>>,
        k: int,
        base: Seq<bool>,
        p: int,
        j: int,
    )
        requires
            0 <= k < self.productions.len(),
            1 <= p <= self.bodies[k].len(),
        ensures
            ({
                let b = self.bodies[k][p - 1] as int;
                let here = self.trail(flags, f, k, base, p - 1, j);
                let next = self.trail(flags, f, k, base, p, j);
                if self.kinds[b] == SymbolKind::Empty {
                    here == next
                } else if flags[b] {
                    here == (cell(f, b, j) || next)
                } else {
                    here == cell(f, b, j)
                }
            }),
    {
        let b = self.bodies[k][p - 1] as int;
        let len = self.bodies[k].len() as int;
        let here = self.trail(flags, f, k, base, p - 1, j);
        let next = self.trail(flags, f, k, base, p, j);
        let open = self.passes(flags, b);
        assert(self.gap_passes(flags, k, p - 1, p - 1));
        if open {
            assert forall|q: int|
                #![trigger self.gap_passes(flags, k, p, q)]
                p <= q <= len implies self.gap_passes(flags, k, p - 1, q) == self.gap_passes(
                flags,
                k,
                p,
                q,
            ) by {
                if self.gap_passes(flags, k, p, q) {
                    assert forall|m: int|
                        #![trigger self.bodies[k][m]]
                        p - 1 <= m < q implies self.passes(flags, self.bodies[k][m] as int) by {
                        if m == p - 1 {
                        }
                    }
                }
            }
        } else {
            assert forall|q: int|
                #![trigger self.gap_passes(flags, k, p, q)]
                p <= q <= len implies !self.gap_passes(flags, k, p - 1, q) by {
                if self.gap_passes(flags, k, p - 1, q) {
                    assert(self.passes(flags, self.bodies[k][p - 1] as int));
                }
            }
        }
        if self.trail_first(flags, f, k, p - 1, j) {
            let q = choose|q: int|
                #![trigger self.bodies[k][q]]
                p - 1 <= q < len && self.gap_passes(flags, k, p - 1, q)
                    && self.kinds[self.bodies[k][q] as int] != SymbolKind::Empty && cell(
                    f,
                    self.bodies[k][q] as int,
                    j,
                );
            if q >= p {
                assert(self.gap_passes(flags, k, p, q));
                assert(self.trail_first(flags, f, k, p, j));
            }
        }
        if self.trail_first(flags, f, k, p, j) && open {
            let q = choose|q: int|
                #![trigger self.bodies[k][q]]
                p <= q < len && self.gap_passes(flags, k, p, q)
                    && self.kinds[self.bodies[k][q] as int] != SymbolKind::Empty && cell(
                    f,
                    self.bodies[k][q] as int,
                    j,
                );
            assert(self.gap_passes(flags, k, p - 1, q));
            assert(self.trail_first(flags, f, k, p - 1, j));
        }
        if self.kinds[b] != SymbolKind::Empty && cell(f, b, j) {
            assert(self.kinds[self.bodies[k][p - 1] as int] != SymbolKind::Empty);
            assert(self.trail_first(flags, f, k, p - 1, j));
        }
    }

    /// The symbol at position `i` is a nonterminal that stands in the body
    /// of production `k` behind position `lo`, trailed by the symbol at
    /// position `j`.
    pub open spec fn trails_from(
        &self,
        flags: Seq<bool>,
        f: Seq<Vec<bool>>,
        base: Seq<bool>,
        k: int,
        lo: int,
        i: int,
        j: int,
    ) -> bool {
        self.kinds[i] == SymbolKind::Nonterminal && exists|q: int|
            #![trigger self.bodies[k][q - 1]]
            lo < q <= self.bodies[k].len() && self.bodies[k][q - 1] == i && self.trail(
                flags,
                f,
                k,
                base,
                q,
                j,
            )
    }

    /// The rows after production `k` had its turn: the row of each
    /// nonterminal of its body has gained what trails the nonterminal there,
    /// with the row of the head, as it was before, trailing the whole body.
    pub open spec fn follow_step(
        &self,
        flags: Seq<bool>,
        f: Seq<Vec<bool>>,
        g: Seq<Seq<bool>>,
        k: int,
    ) -> Seq<Seq<bool>> {
        Seq::new(
            g.len(),
            |i: int|
                Seq::new(
                    g[i].len(),
                    |j: int|
                        g[i][j] || self.trails_from(flags, f, g[self.heads[k] as int], k, 0, i, j),
                ),
        )
    }

    /// The rows after the first `k` productions had their turn, one after
    /// the other.
    pub open spec fn follow_after(
        &self,
        flags: Seq<bool>,
        f: Seq<Vec<bool>>,
        g: Seq<Seq<bool>>,
        k: int,
    ) -> Seq<Seq<bool>>
        decreases k,
    {
        if k <= 0 {
            g
        } else {
            self.follow_step(flags, f, self.follow_after(flags, f, g, k - 1), k - 1)
        }
    }

    /// Scans the body of production `k` from the right with what follows the
    /// head as the first trailing context. Behind a terminal, and behind a
    /// nonterminal that is not nullable, the context becomes the first set of
    /// that symbol; behind a nullable nonterminal it gains that first set;
    /// the empty-string marker leaves it as it is. The row of each
    /// nonterminal gains the context that trails it. Tells whether a flag was
    /// raised.
    pub fn follow_scan(&self, flags: &Vec<bool>, f: &Vec<Vec<bool>>, k: usize, w: &mut Vec<Vec<bool>>) -> (added:
        bool)
        requires
            self.wf(),
            self.nullable_exact(flags@),
            self.first_exact(f@),
            k < self.productions.len(),
            self.follow_sound(old(w)@),
        ensures
            grid(final(w)@) == self.follow_step(flags@, f@, grid(old(w)@), k as int),
            added == (grid(final(w)@) != grid(old(w)@)),
            self.follow_sound(final(w)@),
            table_grows(old(w)@, final(w)@),
            added ==> exists|i: int, j: int|
                #![trigger cell(final(w)@, i, j)]
                0 <= i < self.symbols.len() && 0 <= j < self.symbols.len() && cell(
                    final(w)@,
                    i,
                    j,
                ) && !cell(old(w)@, i, j),
            !added ==> final(w)@ == old(w)@ && self.follow_rule_closed(
                flags@,
                f@,
                final(w)@,
                k as int,
            ),
    {
        assert(self.rule_wf(k as int));
        let body = &self.bodies[k];
        let head = self.heads[k];
        let mut trailing = copy_row(&w[head]);
        let ghost base = trailing@;
        let ghost g = self@.productions;
        let mut added = false;
        let ghost mut witness: (int, int) = (0, 0);
        let mut p: usize = body.len();
        assert forall|j: int| 0 <= j < self.symbols.len() implies trailing@[j] == self.trail(
            flags@,
            f@,
            k as int,
            base,
            p as int,
            j,
        ) by {
            assert(self.gap_passes(flags@, k as int, p as int, p as int));
            assert(!self.trail_first(flags@, f@, k as int, p as int, j));
        }
        while p > 0
            invariant
                self.wf(),
                self.nullable_exact(flags@),
                self.first_exact(f@),
                k < self.productions.len(),
                body == self.bodies[k as int],
                head == self.heads[k as int],
                g == self@.productions,
                self.follow_sound(old(w)@),
                self.follow_sound(w@),
                table_grows(old(w)@, w@),
                p <= body.len(),
                trailing.len() == self.symbols.len(),
                base == old(w)@[head as int]@,
                forall|j: int|
                    #![trigger trailing@[j]]
                    0 <= j < self.symbols.len() ==> trailing@[j] == self.trail(
                        flags@,
                        f@,
                        k as int,
                        base,
                        p as int,
                        j,
                    ),
                forall|i: int, j: int|
                    #![trigger cell(w@, i, j)]
                    0 <= i < self.symbols.len() && 0 <= j < self.symbols.len() ==> cell(w@, i, j)
                        == (cell(old(w)@, i, j) || self.trails_from(
                        flags@,
                        f@,
                        base,
                        k as int,
                        p as int,
                        i,
                        j,
                    )),
                added ==> 0 <= witness.0 < self.symbols.len() && 0 <= witness.1
                    < self.symbols.len() && cell(w@, witness.0, witness.1) && !cell(
                    old(w)@,
                    witness.0,
                    witness.1,
                ),
                !added ==> w@ == old(w)@,
                !added ==> forall|q: int, j: int|
                    #![trigger cell(w@, self.bodies[k as int][q - 1] as int, j)]
                    p < q <= body.len() && 0 <= j < self.symbols.len()
                        && self.kinds[self.bodies[k as int][q - 1] as int]
                        == SymbolKind::Nonterminal && self.trail(
                        flags@,
                        f@,
                        k as int,
                        base,
                        q,
                        j,
                    ) ==> cell(w@, self.bodies[k as int][q - 1] as int, j),
            decreases p,
        {
            assert(self.rule_wf(k as int));
            let b = body[p - 1];
            let ghost before = trailing@;
            let ghost prev = w@;
            proof {
                assert forall|j: int| 0 <= j < self.symbols.len() implies before[j] == self.trail(
                    flags@,
                    f@,
                    k as int,
                    base,
                    p as int,
                    j,
                ) by {
                    assert(trailing@[j] == self.trail(flags@, f@, k as int, base, p as int, j));
                }
            }
            match self.kinds[b] {
                SymbolKind::Empty => {},
                SymbolKind::Nonterminal => {
                    let mut row = copy_row(&w[b]);
                    let more = union_into(&mut row, &trailing);
                    proof {
                        assert forall|j: int|
                            #![trigger row@[j]]
                            0 <= j < self.symbols.len() && row@[j] implies follows(
                            g,
                            self@.symbols[b as int],
                            self@.symbols[j],
                        ) by {
                            if cell(prev, b as int, j) {
                            } else {
                                assert(before[j]);
                                if base[j] {
                                    assert(cell(old(w)@, head as int, j));
                                }
                                self.lemma_trail_sound(flags@, f@, k as int, base, p as int, j);
                            }
                        }
                    }
                    if more {
                        proof {
                            let j = choose|j: int|
                                #![trigger trailing@[j]]
                                0 <= j < trailing.len() && trailing@[j] && !prev[b as int]@[j];
                            assert(row@[j]);
                            if !added {
                                witness = (b as int, j);
                            }
                        }
                        w.set(b, row);
                        added = true;
                        proof {
                            assert forall|i: int, j: int|
                                #![trigger cell(w@, i, j)]
                                0 <= i < w.len() && 0 <= j < w.len() && cell(
                                    w@,
                                    i,
                                    j,
                                ) implies follows(g, self@.symbols[i], self@.symbols[j]) by {
                                if i != b {
                                    assert(cell(prev, i, j));
                                } else {
                                    assert(row@[j]);
                                }
                            }
                            assert(table_grows(prev, w@)) by {
                                assert forall|i: int, j: int|
                                    0 <= i < prev.len() && 0 <= j < prev[i].len()
                                        && prev[i][j] implies w@[i][j] by {
                                    if i == b {
                                        assert(row@[j]);
                                    }
                                }
                            }
                            assert(table_grows(old(w)@, w@)) by {
                                assert forall|i: int, j: int|
                                    0 <= i < old(w)@.len() && 0 <= j < old(w)@[i].len() && old(
                                        w,
                                    )@[i][j] implies w@[i][j] by {
                                    assert(prev[i][j]);
                                }
                            }
                            assert(cell(w@, witness.0, witness.1)) by {
                                assert(cell(prev, witness.0, witness.1)
                                    ==> prev[witness.0][witness.1]);
                            }
                        }
                    } else {
                        proof {
                            assert forall|j: int|
                                0 <= j < self.symbols.len() && before[j] implies cell(
                                prev,
                                b as int,
                                j,
                            ) by {
                                if trailing@[j] && !prev[b as int]@[j] {
                                }
                            }
                        }
                    }
                    if flags[b] {
                        let _ = union_into(&mut trailing, &f[b]);
                    } else {
                        trailing = copy_row(&f[b]);
                    }
                },
                _ => {
                    trailing = copy_row(&f[b]);
                },
            }
            proof {
                assert forall|j: int|
                    #![trigger trailing@[j]]
                    0 <= j < self.symbols.len() implies trailing@[j] == self.trail(
                    flags@,
                    f@,
                    k as int,
                    base,
                    p - 1,
                    j,
                ) by {
                    self.lemma_trail_step(flags@, f@, k as int, base, p as int, j);
                    assert(before[j] == self.trail(flags@, f@, k as int, base, p as int, j));
                    assert(cell(f@, b as int, j) == f@[b as int]@[j]);
                    if self.kinds[b as int] != SymbolKind::Nonterminal && self.kinds[b as int]
                        != SymbolKind::Empty {
                        assert(self.kinds[b as int] == kind_of(self@.symbols[b as int]));
                        if flags@[b as int] {
                            assert(nullable(g, self@.symbols[b as int]));
                            self.lemma_vanishing_nonterminal(b as int);
                        }
                    }
                }
                if !added {
                    assert forall|q: int, j: int|
                        #![trigger cell(w@, self.bodies[k as int][q - 1] as int, j)]
                        p - 1 < q <= body.len() && 0 <= j < self.symbols.len()
                            && self.kinds[self.bodies[k as int][q - 1] as int]
                            == SymbolKind::Nonterminal && self.trail(
                            flags@,
                            f@,
                            k as int,
                            base,
                            q,
                            j,
                        ) implies cell(w@, self.bodies[k as int][q - 1] as int, j) by {
                        if q == p {
                            assert(before[j]);
                        }
                    }
                }
                assert forall|i: int, j: int|
                    #![trigger cell(w@, i, j)]
                    0 <= i < self.symbols.len() && 0 <= j < self.symbols.len() implies cell(
                    w@,
                    i,
                    j,
                ) == (cell(old(w)@, i, j) || self.trails_from(
                    flags@,
                    f@,
                    base,
                    k as int,
                    p - 1,
                    i,
                    j,
                )) by {
                    let here = self.trails_from(flags@, f@, base, k as int, p - 1, i, j);
                    let above = self.trails_from(flags@, f@, base, k as int, p as int, i, j);
                    let now = i == b && self.kinds[i] == SymbolKind::Nonterminal && before[j];
                    assert(cell(prev, i, j) == (cell(old(w)@, i, j) || above));
                    assert(before[j] == self.trail(flags@, f@, k as int, base, p as int, j));
                    assert(here == (above || now)) by {
                        if here {
                            let q = choose|q: int|
                                #![trigger self.bodies[k as int][q - 1]]
                                p - 1 < q <= self.bodies[k as int].len()
                                    && self.bodies[k as int][q - 1] == i && self.trail(
                                    flags@,
                                    f@,
                                    k as int,
                                    base,
                                    q,
                                    j,
                                );
                            if q > p {
                                assert(above);
                            }
                        }
                        if above {
                            let q = choose|q: int|
                                #![trigger self.bodies[k as int][q - 1]]
                                p < q <= self.bodies[k as int].len()
                                    && self.bodies[k as int][q - 1] == i && self.trail(
                                    flags@,
                                    f@,
                                    k as int,
                                    base,
                                    q,
                                    j,
                                );
                            assert(here);
                        }
                        if now {
                            assert(self.bodies[k as int][p - 1] == i);
                            assert(here);
                        }
                    }
                    assert(cell(w@, i, j) == (cell(prev, i, j) || now)) by {
                        if i == b && self.kinds[i] == SymbolKind::Nonterminal {
                            if w@ == prev {
                                if before[j] {
                                    assert(cell(prev, b as int, j));
                                }
                            } else {
                                assert(w@[i]@[j] == (prev[i]@[j] || before[j]));
                            }
                        } else {
                            assert(w@[i] == prev[i]);
                        }
                    }
                }
            }
            p -= 1;
        }
        proof {
            if !added {
                assert(w@[head as int]@ == base);
                assert(self.follow_rule_closed(flags@, f@, w@, k as int));
            }
            let stepped = self.follow_step(flags@, f@, grid(old(w)@), k as int);
            assert(grid(w@) =~= stepped) by {
                assert forall|i: int| 0 <= i < w.len() implies grid(w@)[i] =~= stepped[i] by {
                    assert(w@[i].len() == old(w)@[i].len());
                    assert forall|j: int| 0 <= j < w@[i].len() implies grid(w@)[i][j]
                        == stepped[i][j] by {
                        assert(cell(w@, i, j) == (cell(old(w)@, i, j) || self.trails_from(
                            flags@,
                            f@,
                            base,
                            k as int,
                            0,
                            i,
                            j,
                        )));
                    }
                }
            }
            if added {
                assert(grid(w@)[witness.0][witness.1] != grid(old(w)@)[witness.0][witness.1]);
            }
        }
        added
    }
}

impl Rules {
    /// One pass over all productions, each scanned by [`Rules::follow_scan`].
    /// Tells whether a flag was raised.
    pub fn follow_pass(&self, flags: &Vec<bool>, f: &Vec<Vec<bool>>, w: &mut Vec<Vec<bool>>) -> (changed:
        bool)
        requires
            self.wf(),
            self.nullable_exact(flags@),
            self.first_exact(f@),
            self.follow_sound(old(w)@),
        ensures
            grid(final(w)@) == self.follow_after(
                flags@,
                f@,
                grid(old(w)@),
                self.productions.len() as int,
            ),
            changed == (grid(final(w)@) != grid(old(w)@)),
            self.follow_sound(final(w)@),
            table_grows(old(w)@, final(w)@),
            raised_cells(old(w)@).len() <= raised_cells(final(w)@).len(),
            cleared_cells(final(w)@).len() <= cleared_cells(old(w)@).len(),
            changed ==> cleared_cells(final(w)@).len() < cleared_cells(old(w)@).len(),
            !changed ==> final(w)@ == old(w)@ && forall|k: int|
                0 <= k < self.productions.len() ==> #[trigger] self.follow_rule_closed(
                    flags@,
                    f@,
                    final(w)@,
                    k,
                ),
    {
        let mut changed = false;
        let ghost mut witness: (int, int) = (0, 0);
        let mut k: usize = 0;
        while k < self.productions.len()
            invariant
                self.wf(),
                self.nullable_exact(flags@),
                self.first_exact(f@),
                k <= self.productions.len(),
                grid(w@) == self.follow_after(flags@, f@, grid(old(w)@), k as int),
                self.follow_sound(w@),
                table_grows(old(w)@, w@),
                changed ==> 0 <= witness.0 < self.symbols.len() && 0 <= witness.1
                    < self.symbols.len() && cell(w@, witness.0, witness.1) && !cell(
                    old(w)@,
                    witness.0,
                    witness.1,
                ),
                !changed ==> w@ == old(w)@,
                !changed ==> forall|j: int|
                    0 <= j < k ==> #[trigger] self.follow_rule_closed(flags@, f@, w@, j),
            decreases self.productions.len() - k,
        {
            let ghost prev = w@;
            let added = self.follow_scan(flags, f, k, w);
            proof {
                if added {
                    let (i, j) = choose|i: int, j: int|
                        #![trigger cell(w@, i, j)]
                        0 <= i < self.symbols.len() && 0 <= j < self.symbols.len() && cell(
                            w@,
                            i,
                            j,
                        ) && !cell(prev, i, j);
                    if !changed {
                        witness = (i, j);
                    } else {
                        assert(prev[witness.0][witness.1]);
                    }
                }
                lemma_table_grows_twice(old(w)@, prev, w@);
            }
            changed = changed || added;
            k += 1;
        }
        proof {
            lemma_table_grows(old(w)@, w@);
            if changed {
                assert(w@[witness.0][witness.1] && !old(w)@[witness.0][witness.1]);
                assert(grid(w@)[witness.0][witness.1] != grid(old(w)@)[witness.0][witness.1]);
            }
        }
        changed
    }

    /// The follow sets: the end-of-input marker is put behind the start
    /// symbol, passes are repeated until one raises no flag, and the
    /// empty-string marker is then taken out of every row.
    pub fn calc_follow(&self, flags: &Vec<bool>, f: &Vec<Vec<bool>>) -> (w: Vec<Vec<bool>>)
        requires
            self.wf(),
            self.nullable_exact(flags@),
            self.first_exact(f@),
        ensures
            self.follow_exact(w@),
    {
        let n = self.symbols.len();
        let mut w = new_table(n, n);
        let mut seed = new_row(n);
        seed.set(self.eof, true);
        w.set(self.start, seed);
        proof {
            let g = self@.productions;
            assert forall|i: int, j: int|
                #![trigger cell(w@, i, j)]
                0 <= i < w.len() && 0 <= j < w.len() && cell(w@, i, j) implies follows(
                g,
                self@.symbols[i],
                self@.symbols[j],
            ) by {
                assert(i == self.start && j == self.eof);
                assert(follow_within(g, self@.symbols[i], self@.symbols[j], 0));
            }
        }
        let mut changed = true;
        while changed
            invariant
                self.wf(),
                self.nullable_exact(flags@),
                self.first_exact(f@),
                self.follow_sound(w@),
                cell(w@, self.start as int, self.eof as int),
                !changed ==> self.follow_closed(flags@, f@, w@),
            decreases
                    cleared_cells(w@).len(),
                    if changed {
                        1int
                    } else {
                        0int
                    },
        {
            let ghost prev = w@;
            changed = self.follow_pass(flags, f, &mut w);
            assert(cell(w@, self.start as int, self.eof as int)) by {
                assert(prev[self.start as int][self.eof as int]);
            }
        }
        proof {
            self.lemma_follow_raw(flags@, f@, w@);
        }
        let ghost raw = w@;
        let mut i: usize = 0;
        while i < n
            invariant
                self.wf(),
                n == self.symbols.len(),
                i <= n,
                self.follow_raw(raw),
                square(w@, n as int),
                forall|a: int, j: int|
                    #![trigger cell(w@, a, j)]
                    0 <= a < i && 0 <= j < n ==> cell(w@, a, j) == (cell(raw, a, j)
                        && self.kinds[j] != SymbolKind::Empty),
                forall|a: int, j: int|
                    #![trigger cell(w@, a, j)]
                    i <= a < n && 0 <= j < n ==> cell(w@, a, j) == cell(raw, a, j),
            decreases n - i,
        {
            let ghost prev = w@;
            let row = self.without_empty(&w[i]);
            w.set(i, row);
            proof {
                assert forall|a: int, j: int|
                    #![trigger cell(w@, a, j)]
                    0 <= a < i + 1 && 0 <= j < n implies cell(w@, a, j) == (cell(raw, a, j)
                    && self.kinds[j] != SymbolKind::Empty) by {
                    if a < i {
                        assert(cell(prev, a, j) == (cell(raw, a, j) && self.kinds[j]
                            != SymbolKind::Empty));
                    } else {
                        assert(cell(prev, a, j) == cell(raw, a, j));
                        assert(row@[j] == (prev[a]@[j] && self.kinds[j] != SymbolKind::Empty));
                    }
                }
                assert forall|a: int, j: int|
                    #![trigger cell(w@, a, j)]
                    i + 1 <= a < n && 0 <= j < n implies cell(w@, a, j) == cell(raw, a, j) by {
                    assert(cell(prev, a, j) == cell(raw, a, j));
                }
            }
            i += 1;
        }
        proof {
            let g = self@.productions;
            assert forall|a: int, j: int|
                #![trigger cell(w@, a, j)]
                0 <= a < w.len() && 0 <= j < w.len() implies cell(w@, a, j) == in_follow(
                g,
                self@.symbols[a],
                self@.symbols[j],
            ) by {
                assert(cell(w@, a, j) == (cell(raw, a, j) && self.kinds[j] != SymbolKind::Empty));
                assert(self.kinds[j] == kind_of(self@.symbols[j]));
                assert(cell(raw, a, j) == follows(g, self@.symbols[a], self@.symbols[j]));
            }
        }
        w
    }

    /// The row without the flag of the empty-string marker.
    pub fn without_empty(&self, row: &Vec<bool>) -> (r: Vec<bool>)
        requires
            self.wf(),
            row.len() == self.symbols.len(),
        ensures
            r.len() == row.len(),
            forall|j: int|
                #![trigger r@[j]]
                0 <= j < r.len() ==> r@[j] == (row@[j] && self.kinds[j] != SymbolKind::Empty),
    {
        let mut r: Vec<bool> = Vec::new();
        let mut j: usize = 0;
        while j < row.len()
            invariant
                self.wf(),
                row.len() == self.symbols.len(),
                j <= row.len(),
                r.len() == j,
                forall|c: int|
                    #![trigger r@[c]]
                    0 <= c < j ==> r@[c] == (row@[c] && self.kinds[c] != SymbolKind::Empty),
            decreases row.len() - j,
        {
            let keep = match self.kinds[j] {
                SymbolKind::Empty => false,
                _ => row[j],
            };
            let ghost prev = r@;
            r.push(keep);
            assert forall|c: int|
                #![trigger r@[c]]
                0 <= c < j + 1 implies r@[c] == (row@[c] && self.kinds[c]
                != SymbolKind::Empty) by {
                if c < j {
                    assert(prev[c] == (row@[c] && self.kinds[c] != SymbolKind::Empty));
                }
            }
            j += 1;
        }
        r
    }
}

} // verus!
