use crate::bits::{cleared, lemma_row_grows, new_row, raised, row_grows};
use crate::rules::Rules;
use crate::symbol::{empty_name, Name, ProductionView, SymbolKind};
use vstd::prelude::*;

verus! {

/// `x` derives the empty string by a derivation tree of height at most `n`:
/// it is the empty-string marker, or some production of `x` has a body whose
/// symbols all do so within `n - 1`.
pub open spec fn derives_empty(g: Seq<ProductionView>, x: Name, n: nat) -> bool
    decreases n,
{
    x == empty_name() || (n > 0 && exists|k: int|
        #![trigger g[k]]
        0 <= k < g.len() && g[k].head == x && forall|m: int|
            #![trigger g[k].body[m]]
            0 <= m < g[k].body.len() ==> derives_empty(g, g[k].body[m], (n - 1) as nat))
}

/// `x` derives the empty string in finitely many steps.
pub open spec fn vanishes(g: Seq<ProductionView>, x: Name) -> bool {
    exists|n: nat| derives_empty(g, x, n)
}

/// `x` is nullable: a symbol other than the empty-string marker that derives
/// the empty string.
pub open spec fn nullable(g: Seq<ProductionView>, x: Name) -> bool {
    x != empty_name() && vanishes(g, x)
}

/// Every symbol of the body derives the empty string.
pub open spec fn body_vanishes(g: Seq<ProductionView>, body: Seq<Name>) -> bool {
    forall|m: int| #![trigger body[m]] 0 <= m < body.len() ==> vanishes(g, body[m])
}

pub proof fn lemma_derives_empty_mono(g: Seq<ProductionView>, x: Name, n: nat, n2: nat)
    requires
        derives_empty(g, x, n),
        n <= n2,
    ensures
        derives_empty(g, x, n2),
    decreases n,
{
    if x != empty_name() {
        let k = choose|k: int|
            #![trigger g[k]]
            0 <= k < g.len() && g[k].head == x && forall|m: int|
                #![trigger g[k].body[m]]
                0 <= m < g[k].body.len() ==> derives_empty(g, g[k].body[m], (n - 1) as nat);
        assert forall|m: int| #![trigger g[k].body[m]] 0 <= m < g[k].body.len() implies derives_empty(
            g,
            g[k].body[m],
            (n2 - 1) as nat,
        ) by {
            lemma_derives_empty_mono(g, g[k].body[m], (n - 1) as nat, (n2 - 1) as nat);
        }
    }
}

/// A height within which each of the first `len` symbols of `body` derives
/// the empty string.
pub proof fn lemma_common_height(g: Seq<ProductionView>, body: Seq<Name>, len: nat) -> (f: nat)
    requires
        len <= body.len(),
        body_vanishes(g, body),
    ensures
        forall|m: int| #![trigger body[m]] 0 <= m < len ==> derives_empty(g, body[m], f),
    decreases len,
{
    if len == 0 {
        0
    } else {
        let f0 = lemma_common_height(g, body, (len - 1) as nat);
        let x = body[len - 1];
        assert(vanishes(g, x));
        let f1 = choose|n: nat| derives_empty(g, x, n);
        let f = if f0 >= f1 {
            f0
        } else {
            f1
        };
        assert forall|m: int| #![trigger body[m]] 0 <= m < len implies derives_empty(
            g,
            body[m],
            f,
        ) by {
            if m < len - 1 {
                lemma_derives_empty_mono(g, body[m], f0, f);
            } else {
                lemma_derives_empty_mono(g, body[m], f1, f);
            }
        }
        f
    }
}

/// The head of a production whose body derives the empty string does so too.
pub proof fn lemma_vanishing_body(g: Seq<ProductionView>, k: int)
    requires
        0 <= k < g.len(),
        body_vanishes(g, g[k].body),
    ensures
        vanishes(g, g[k].head),
{
    let f = lemma_common_height(g, g[k].body, g[k].body.len());
    assert(derives_empty(g, g[k].head, f + 1));
}

impl Rules {
    /// The symbol at position `i` is the empty-string marker or is flagged.
    pub open spec fn passes(&self, flags: Seq<bool>, i: int) -> bool {
        self.kinds[i] == SymbolKind::Empty || flags[i]
    }

    /// Every symbol of the body of production `k` passes.
    pub open spec fn body_passes(&self, flags: Seq<bool>, k: int) -> bool {
        forall|m: int|
            #![trigger self.bodies[k][m]]
            0 <= m < self.bodies[k].len() ==> self.passes(flags, self.bodies[k][m] as int)
    }

    /// Every flagged symbol is nullable.
    pub open spec fn nullable_sound(&self, flags: Seq<bool>) -> bool {
        &&& flags.len() == self.symbols.len()
        &&& forall|i: int|
            #![trigger flags[i]]
            0 <= i < flags.len() && flags[i] ==> nullable(self@.productions, self@.symbols[i])
    }

    /// No production could flag a further symbol.
    pub open spec fn nullable_closed(&self, flags: Seq<bool>) -> bool {
        forall|k: int|
            #![trigger self.heads[k]]
            0 <= k < self.productions.len() && self.body_passes(flags, k)
                ==> flags[self.heads[k] as int]
    }

    /// The flags mark the nullable symbols, and no others.
    pub open spec fn nullable_exact(&self, flags: Seq<bool>) -> bool {
        &&& flags.len() == self.symbols.len()
        &&& forall|i: int|
            #![trigger flags[i]]
            0 <= i < flags.len() ==> flags[i] == nullable(self@.productions, self@.symbols[i])
    }

    pub proof fn lemma_passes_sound(&self, flags: Seq<bool>, i: int)
        requires
            self.wf(),
            self.nullable_sound(flags),
            0 <= i < self.symbols.len(),
            self.passes(flags, i),
        ensures
            vanishes(self@.productions, self@.symbols[i]),
    {
        if self.kinds[i] == SymbolKind::Empty {
            assert(self@.symbols[i] == empty_name());
            assert(derives_empty(self@.productions, self@.symbols[i], 0));
        } else {
            assert(flags[i]);
        }
    }

    /// A symbol of the grammar that derives the empty string and is not the
    /// empty-string marker is a nonterminal.
    pub proof fn lemma_vanishing_nonterminal(&self, i: int)
        requires
            self.wf(),
            0 <= i < self.symbols.len(),
            nullable(self@.productions, self@.symbols[i]),
        ensures
            self.kinds[i] == SymbolKind::Nonterminal,
    {
        let g = self@.productions;
        let x = self@.symbols[i];
        let n = choose|n: nat| derives_empty(g, x, n);
        let k = choose|k: int|
            #![trigger g[k]]
            0 <= k < g.len() && g[k].head == x && forall|m: int|
                #![trigger g[k].body[m]]
                0 <= m < g[k].body.len() ==> derives_empty(g, g[k].body[m], (n - 1) as nat);
        assert(crate::rules::production_ok(self@.symbols, g[k]));
    }

    /// Under closed flags, whatever derives the empty string passes.
    pub proof fn lemma_nullable_complete(&self, flags: Seq<bool>, i: int, n: nat)
        requires
            self.wf(),
            flags.len() == self.symbols.len(),
            self.nullable_closed(flags),
            0 <= i < self.symbols.len(),
            derives_empty(self@.productions, self@.symbols[i], n),
        ensures
            self.passes(flags, i),
        decreases n,
    {
        let g = self@.productions;
        let x = self@.symbols[i];
        if x != empty_name() {
            let k = choose|k: int|
                #![trigger g[k]]
                0 <= k < g.len() && g[k].head == x && forall|m: int|
                    #![trigger g[k].body[m]]
                    0 <= m < g[k].body.len() ==> derives_empty(g, g[k].body[m], (n - 1) as nat);
            assert(self.rule_wf(k));
            assert(self.heads[k] == i);
            assert forall|m: int|
                #![trigger self.bodies[k][m]]
                0 <= m < self.bodies[k].len() implies self.passes(
                flags,
                self.bodies[k][m] as int,
            ) by {
                assert(self@.symbols[self.bodies[k][m] as int] == g[k].body[m]);
                self.lemma_nullable_complete(flags, self.bodies[k][m] as int, (n - 1) as nat);
            }
            assert(self.body_passes(flags, k));
        }
    }

    /// Sound and closed flags are exact.
    pub proof fn lemma_nullable_exact(&self, flags: Seq<bool>)
        requires
            self.wf(),
            self.nullable_sound(flags),
            self.nullable_closed(flags),
        ensures
            self.nullable_exact(flags),
    {
        let g = self@.productions;
        assert forall|i: int| #![trigger flags[i]] 0 <= i < flags.len() implies flags[i]
            == nullable(g, self@.symbols[i]) by {
            if nullable(g, self@.symbols[i]) {
                let n = choose|n: nat| derives_empty(g, self@.symbols[i], n);
                self.lemma_nullable_complete(flags, i, n);
            }
        }
    }

    /// The flags after production `k` had its turn: the head is flagged if
    /// the body passes.
    pub open spec fn nullable_step(&self, flags: Seq<bool>, k: int) -> Seq<bool> {
        if self.body_passes(flags, k) {
            flags.update(self.heads[k] as int, true)
        } else {
            flags
        }
    }

    /// The flags after the first `k` productions had their turn, one after
    /// the other.
    pub open spec fn nullable_after(&self, flags: Seq<bool>, k: int) -> Seq<bool>
        decreases k,
    {
        if k <= 0 {
            flags
        } else {
            self.nullable_step(self.nullable_after(flags, k - 1), k - 1)
        }
    }

    /// Whether every symbol of the body of production `k` passes.
    pub fn check_body(&self, flags: &Vec<bool>, k: usize) -> (r: bool)
        requires
            self.wf(),
            flags.len() == self.symbols.len(),
            k < self.productions.len(),
        ensures
            r == self.body_passes(flags@, k as int),
    {
        let body = &self.bodies[k];
        let mut m: usize = 0;
        while m < body.len()
            invariant
                self.wf(),
                flags.len() == self.symbols.len(),
                k < self.productions.len(),
                body == self.bodies[k as int],
                m <= body.len(),
                forall|j: int|
                    #![trigger self.bodies[k as int][j]]
                    0 <= j < m ==> self.passes(flags@, self.bodies[k as int][j] as int),
            decreases body.len() - m,
        {
            assert(self.rule_wf(k as int));
            let b = body[m];
            let pass = match self.kinds[b] {
                SymbolKind::Empty => true,
                _ => flags[b],
            };
            if !pass {
                assert(!self.passes(flags@, self.bodies[k as int][m as int] as int));
                return false;
            }
            m += 1;
        }
        true
    }

    /// One pass over all productions: the head of each production whose body
    /// passes is flagged. Tells whether a flag was raised.
    pub fn nullable_pass(&self, flags: &mut Vec<bool>) -> (changed: bool)
        requires
            self.wf(),
            self.nullable_sound(old(flags)@),
        ensures
            final(flags)@ == self.nullable_after(old(flags)@, self.productions.len() as int),
            changed == (final(flags)@ != old(flags)@),
            self.nullable_sound(final(flags)@),
            row_grows(old(flags)@, final(flags)@),
            raised(old(flags)@).len() <= raised(final(flags)@).len(),
            changed ==> cleared(final(flags)@).len() < cleared(old(flags)@).len(),
            !changed ==> self.nullable_closed(final(flags)@),
    {
        let mut changed = false;
        let ghost mut witness: int = 0;
        let mut k: usize = 0;
        while k < self.productions.len()
            invariant
                self.wf(),
                k <= self.productions.len(),
                flags@ == self.nullable_after(old(flags)@, k as int),
                self.nullable_sound(flags@),
                row_grows(old(flags)@, flags@),
                changed ==> 0 <= witness < flags.len() && flags@[witness] && !old(flags)@[witness],
                !changed ==> flags@ == old(flags)@,
                !changed ==> forall|j: int|
                    #![trigger self.heads[j]]
                    0 <= j < k && self.body_passes(flags@, j) ==> flags@[self.heads[j] as int],
            decreases self.productions.len() - k,
        {
            assert(self.rule_wf(k as int));
            let head = self.heads[k];
            let ghost before = flags@;
            proof {
                if before[head as int] {
                    assert(before.update(head as int, true) =~= before);
                }
            }
            if !flags[head] && self.check_body(flags, k) {
                proof {
                    let g = self@.productions;
                    assert forall|m: int| #![trigger g[k as int].body[m]] 0 <= m < g[k as int].body.len() implies vanishes(
                        g,
                        g[k as int].body[m],
                    ) by {
                        let b = self.bodies[k as int][m];
                        assert(self.passes(flags@, b as int));
                        self.lemma_passes_sound(flags@, b as int);
                    }
                    lemma_vanishing_body(g, k as int);
                    witness = head as int;
                }
                let ghost prev = flags@;
                flags.set(head, true);
                changed = true;
                assert forall|i: int|
                    #![trigger flags@[i]]
                    0 <= i < flags.len() && flags@[i] implies nullable(
                    self@.productions,
                    self@.symbols[i],
                ) by {
                    if i != head {
                        assert(prev[i]);
                    }
                }
            }
            k += 1;
        }
        proof {
            lemma_row_grows(old(flags)@, flags@);
            if changed {
                assert(flags@[witness] != old(flags)@[witness]);
            }
        }
        changed
    }

    /// The nullable symbols: passes are repeated until one raises no flag.
    pub fn calc_nullable(&self) -> (flags: Vec<bool>)
        requires
            self.wf(),
        ensures
            self.nullable_exact(flags@),
    {
        let mut flags = new_row(self.symbols.len());
        let mut changed = true;
        while changed
            invariant
                self.wf(),
                self.nullable_sound(flags@),
                !changed ==> self.nullable_closed(flags@),
            decreases
                    cleared(flags@).len(),
                    if changed {
                        1int
                    } else {
                        0int
                    },
        {
            changed = self.nullable_pass(&mut flags);
        }
        proof {
            self.lemma_nullable_exact(flags@);
        }
        flags
    }
}

} // verus!
