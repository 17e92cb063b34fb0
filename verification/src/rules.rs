use crate::symbol::{
    eof_name, is_nonterminal, kind_of, names, Name, Production, ProductionView, Symbol,
    SymbolKind,
};
use vstd::prelude::*;
use vstd::string::StringExecFns;

verus! {

/// The mathematical value of a grammar: its symbols and its productions,
/// each listed once.
pub struct Grammar {
    pub symbols: Seq<Name>,
    pub productions: Seq<ProductionView>,
}

/// The name of the start symbol.
pub open spec fn start_name() -> Name {
    seq!['S']
}

/// The values of a run of productions, in order.
pub open spec fn views(s: Seq<Production>) -> Seq<ProductionView> {
    Seq::new(s.len(), |i: int| s[i]@)
}

/// A sequence without its repetitions: of equal items the first stays.
pub open spec fn dedup<T>(s: Seq<T>) -> Seq<T>
    decreases s.len(),
{
    if s.len() == 0 {
        Seq::empty()
    } else {
        let r = dedup(s.drop_last());
        if r.contains(s.last()) {
            r
        } else {
            r.push(s.last())
        }
    }
}

/// Every symbol of the production belongs to `symbols`.
pub open spec fn declared(symbols: Seq<Name>, p: ProductionView) -> bool {
    &&& symbols.contains(p.head)
    &&& forall|m: int| 0 <= m < p.body.len() ==> symbols.contains(#[trigger] p.body[m])
}

/// The production can stand in a grammar over `symbols`.
pub open spec fn production_ok(symbols: Seq<Name>, p: ProductionView) -> bool {
    is_nonterminal(p.head) && declared(symbols, p)
}

/// A nonterminal named `S` belongs to `symbols`.
pub open spec fn has_start(symbols: Seq<Name>) -> bool {
    symbols.contains(start_name()) && is_nonterminal(start_name())
}

impl Grammar {
    pub open spec fn well_formed(self) -> bool {
        &&& self.symbols.no_duplicates()
        &&& self.productions.no_duplicates()
        &&& self.symbols.contains(eof_name())
        &&& has_start(self.symbols)
        &&& forall|k: int|
            0 <= k < self.productions.len() ==> production_ok(
                self.symbols,
                #[trigger] self.productions[k],
            )
    }
}

/// Why a grammar was refused.
#[derive(Clone, Copy, Debug, PartialEq, Eq, Structural)]
pub enum GrammarLoadError {
    /// A line of grammar text is no rule.
    MalformedLine,
    /// The head of the production at this position is no nonterminal.
    InvalidHead { production: usize },
    /// The production at this position names a symbol outside the symbol set.
    UndeclaredSymbol { production: usize },
    /// The symbol set holds no nonterminal `S`.
    MissingStart,
}

pub proof fn lemma_dedup<T>(s: Seq<T>)
    ensures
        dedup(s).no_duplicates(),
        forall|x: T| dedup(s).contains(x) <==> s.contains(x),
        dedup(s).len() <= s.len(),
    decreases s.len(),
{
    if s.len() > 0 {
        let t = s.drop_last();
        lemma_dedup(t);
        let r = dedup(t);
        assert forall|x: T| dedup(s).contains(x) <==> s.contains(x) by {
            if s.contains(x) {
                let i = choose|i: int| 0 <= i < s.len() && s[i] == x;
                if i < s.len() - 1 {
                    assert(t[i] == x);
                    assert(t.contains(x));
                    assert(r.contains(x));
                    let j = choose|j: int| 0 <= j < r.len() && r[j] == x;
                    assert(dedup(s)[j] == x);
                } else if !r.contains(s.last()) {
                    assert(dedup(s)[r.len() as int] == x);
                }
            }
            if dedup(s).contains(x) {
                let j = choose|j: int| 0 <= j < dedup(s).len() && dedup(s)[j] == x;
                if j < r.len() {
                    assert(r[j] == x);
                    assert(r.contains(x));
                    assert(t.contains(x));
                    let i = choose|i: int| 0 <= i < t.len() && t[i] == x;
                    assert(s[i] == x);
                } else {
                    assert(s[s.len() - 1] == x);
                }
            }
        }
    }
}

/// The position of the first symbol of `symbols` that carries the name of `s`.
pub fn find_symbol(symbols: &Vec<Symbol>, s: &Symbol) -> (r: Option<usize>)
    ensures
        match r {
            Some(i) => i < symbols.len() && symbols[i as int]@ == s@ && forall|j: int|
                0 <= j < i ==> symbols[j]@ != s@,
            None => !names(symbols@).contains(s@),
        },
{
    let mut i: usize = 0;
    while i < symbols.len()
        invariant
            i <= symbols.len(),
            forall|j: int| 0 <= j < i ==> symbols[j]@ != s@,
        decreases symbols.len() - i,
    {
        if symbols[i] == *s {
            return Some(i);
        }
        i += 1;
    }
    None
}

/// The position of the first production of `productions` equal to `p`.
pub fn find_production(productions: &Vec<Production>, p: &Production) -> (r: Option<usize>)
    ensures
        match r {
            Some(i) => i < productions.len() && productions[i as int]@ == p@ && forall|j: int|
                0 <= j < i ==> productions[j]@ != p@,
            None => !views(productions@).contains(p@),
        },
{
    let mut i: usize = 0;
    while i < productions.len()
        invariant
            i <= productions.len(),
            forall|j: int| 0 <= j < i ==> productions[j]@ != p@,
        decreases productions.len() - i,
    {
        if productions[i] == *p {
            return Some(i);
        }
        i += 1;
    }
    None
}

/// Copies a run of productions.
pub fn clone_productions(v: &Vec<Production>) -> (r: Vec<Production>)
    ensures
        views(r@) == views(v@),
{
    let mut r: Vec<Production> = Vec::new();
    let mut i: usize = 0;
    while i < v.len()
        invariant
            i <= v.len(),
            r.len() == i,
            forall|j: int| 0 <= j < i ==> r[j]@ == v[j]@,
        decreases v.len() - i,
    {
        r.push(v[i].clone());
        i += 1;
    }
    assert(views(r@) =~= views(v@));
    r
}

/// The symbols of `symbols`, each once, in the order of first occurrence.
pub fn distinct_symbols(symbols: &Vec<Symbol>) -> (r: Vec<Symbol>)
    ensures
        names(r@) == dedup(names(symbols@)),
{
    let mut r: Vec<Symbol> = Vec::new();
    let mut i: usize = 0;
    assert(names(symbols@).take(0) =~= Seq::empty());
    assert(names(r@) =~= Seq::empty());
    while i < symbols.len()
        invariant
            i <= symbols.len(),
            names(r@) == dedup(names(symbols@).take(i as int)),
        decreases symbols.len() - i,
    {
        let ghost before = names(symbols@).take(i as int);
        let ghost after = names(symbols@).take(i + 1);
        assert(after.drop_last() =~= before);
        assert(after.last() == symbols[i as int]@);
        let ghost old_r = r@;
        match find_symbol(&r, &symbols[i]) {
            None => {
                r.push(symbols[i].clone());
                assert(names(r@) =~= names(old_r).push(symbols[i as int]@));
            },
            Some(j) => {
                assert(names(r@)[j as int] == symbols[i as int]@);
            },
        }
        i += 1;
    }
    assert(names(symbols@).take(symbols.len() as int) =~= names(symbols@));
    r
}

/// `head` and `body` give, for the head and for each body symbol of `p`, a
/// position in `symbols` that carries its name.
pub open spec fn indexed(symbols: Seq<Name>, p: ProductionView, head: usize, body: Seq<usize>) -> bool {
    &&& head < symbols.len()
    &&& symbols[head as int] == p.head
    &&& body.len() == p.body.len()
    &&& forall|m: int|
        0 <= m < body.len() ==> (#[trigger] body[m]) < symbols.len() && symbols[body[m] as int]
            == p.body[m]
}

/// A grammar that passed the checks of [`Rules::build`], together with the
/// position in the symbol list of every symbol that a production names.
pub struct Rules {
    pub symbols: Vec<Symbol>,
    pub productions: Vec<Production>,
    pub kinds: Vec<SymbolKind>,
    pub heads: Vec<usize>,
    pub bodies: Vec<Vec<usize>>,
    pub start: usize,
    pub eof: usize,
}

impl View for Rules {
    type V = Grammar;

    open spec fn view(&self) -> Grammar {
        Grammar { symbols: names(self.symbols@), productions: views(self.productions@) }
    }
}

/// The positions found for the symbols of a body.
fn index_body(symbols: &Vec<Symbol>, body: &Vec<Symbol>) -> (r: Option<Vec<usize>>)
    ensures
        match r {
            Some(v) => v.len() == body.len() && forall|m: int|
                0 <= m < v.len() ==> (#[trigger] v[m]) < symbols.len() && symbols[v[m] as int]@
                    == body[m]@,
            None => exists|m: int|
                0 <= m < body.len() && !names(symbols@).contains(#[trigger] names(body@)[m]),
        },
{
    let mut v: Vec<usize> = Vec::new();
    let mut m: usize = 0;
    while m < body.len()
        invariant
            m <= body.len(),
            v.len() == m,
            forall|j: int|
                0 <= j < m ==> (#[trigger] v[j]) < symbols.len() && symbols[v[j] as int]@
                    == body[j]@,
        decreases body.len() - m,
    {
        match find_symbol(symbols, &body[m]) {
            Some(i) => {
                v.push(i);
            },
            None => {
                assert(names(body@)[m as int] == body[m as int]@);
                return None;
            },
        }
        m += 1;
    }
    Some(v)
}

/// The class of each symbol of the list.
fn classify(symbols: &Vec<Symbol>) -> (r: Vec<SymbolKind>)
    ensures
        r.len() == symbols.len(),
        forall|i: int| 0 <= i < r.len() ==> r[i] == kind_of(#[trigger] symbols[i]@),
{
    let mut r: Vec<SymbolKind> = Vec::new();
    let mut i: usize = 0;
    while i < symbols.len()
        invariant
            i <= symbols.len(),
            r.len() == i,
            forall|j: int| 0 <= j < i ==> r[j] == kind_of(#[trigger] symbols[j]@),
        decreases symbols.len() - i,
    {
        r.push(symbols[i].kind());
        i += 1;
    }
    r
}

impl Rules {
    /// The positions recorded for production `k` fit the symbol list.
    pub open spec fn rule_wf(&self, k: int) -> bool {
        indexed(self@.symbols, self@.productions[k], self.heads[k], self.bodies[k]@)
    }

    /// The grammar is well formed, and the classes and positions recorded
    /// beside it are those of its symbols.
    pub open spec fn wf(&self) -> bool {
        &&& self@.well_formed()
        &&& self.kinds.len() == self.symbols.len()
        &&& forall|i: int|
            #![trigger self.kinds[i]]
            0 <= i < self.symbols.len() ==> self.kinds[i] == kind_of(self@.symbols[i])
        &&& self.heads.len() == self.productions.len()
        &&& self.bodies.len() == self.productions.len()
        &&& forall|k: int| 0 <= k < self.productions.len() ==> #[trigger] self.rule_wf(k)
        &&& self.start < self.symbols.len()
        &&& self@.symbols[self.start as int] == start_name()
        &&& self.eof < self.symbols.len()
        &&& self@.symbols[self.eof as int] == eof_name()
    }

    /// Checks a grammar and lists its symbols and productions once each, the
    /// end-of-input marker added to the symbols. The first production that
    /// cannot stand in the grammar is reported; a grammar without the start
    /// symbol `S` is refused after that.
    pub fn build(symbols: &Vec<Symbol>, generators: &Vec<Production>) -> (r: Result<
        Rules,
        GrammarLoadError,
    >)
        ensures
            ({
                let syms = dedup(names(symbols@).push(eof_name()));
                let prods = views(generators@);
                match r {
                    Ok(rules) => {
                        &&& rules.wf()
                        &&& rules@.symbols == syms
                        &&& rules@.productions == dedup(prods)
                        &&& forall|k: int|
                            0 <= k < prods.len() ==> production_ok(syms, #[trigger] prods[k])
                        &&& has_start(syms)
                    },
                    Err(GrammarLoadError::InvalidHead { production }) => {
                        &&& production < prods.len()
                        &&& forall|k: int|
                            0 <= k < production ==> production_ok(syms, #[trigger] prods[k])
                        &&& !is_nonterminal(prods[production as int].head)
                    },
                    Err(GrammarLoadError::UndeclaredSymbol { production }) => {
                        &&& production < prods.len()
                        &&& forall|k: int|
                            0 <= k < production ==> production_ok(syms, #[trigger] prods[k])
                        &&& is_nonterminal(prods[production as int].head)
                        &&& !declared(syms, prods[production as int])
                    },
                    Err(GrammarLoadError::MissingStart) => {
                        &&& forall|k: int|
                            0 <= k < prods.len() ==> production_ok(syms, #[trigger] prods[k])
                        &&& !has_start(syms)
                    },
                    Err(GrammarLoadError::MalformedLine) => false,
                }
            }),
    {
        let mut syms = distinct_symbols(symbols);
        let eof_symbol = Symbol::eof_symbol();
        let ghost listed = syms@;
        let ghost wanted = names(symbols@).push(eof_name());
        assert(wanted.drop_last() =~= names(symbols@));
        let eof = match find_symbol(&syms, &eof_symbol) {
            Some(i) => {
                assert(names(listed)[i as int] == eof_name());
                i
            },
            None => {
                syms.push(eof_symbol);
                assert(names(syms@) =~= names(listed).push(eof_name()));
                syms.len() - 1
            },
        };
        assert(names(syms@) == dedup(wanted));
        proof {
            lemma_dedup(wanted);
        }
        let kinds = classify(&syms);
        let mut prods: Vec<Production> = Vec::new();
        let mut heads: Vec<usize> = Vec::new();
        let mut bodies: Vec<Vec<usize>> = Vec::new();
        let mut k: usize = 0;
        assert(views(generators@).take(0) =~= Seq::empty());
        assert(views(prods@) =~= Seq::empty());
        while k < generators.len()
            invariant
                k <= generators.len(),
                names(syms@) == dedup(names(symbols@).push(eof_name())),
                views(prods@) == dedup(views(generators@).take(k as int)),
                heads.len() == prods.len(),
                bodies.len() == prods.len(),
                forall|j: int|
                    0 <= j < prods.len() ==> indexed(
                        names(syms@),
                        #[trigger] views(prods@)[j],
                        heads[j],
                        bodies[j]@,
                    ),
                forall|j: int|
                    0 <= j < k ==> production_ok(names(syms@), #[trigger] views(generators@)[j]),
            decreases generators.len() - k,
        {
            let p = &generators[k];
            let ghost pv = views(generators@)[k as int];
            assert(pv == p@);
            if !p.head.is_not_end_symbol() {
                return Err(GrammarLoadError::InvalidHead { production: k });
            }
            let head = match find_symbol(&syms, &p.head) {
                Some(i) => i,
                None => {
                    return Err(GrammarLoadError::UndeclaredSymbol { production: k });
                },
            };
            let body = match index_body(&syms, &p.vec) {
                Some(v) => v,
                None => {
                    return Err(GrammarLoadError::UndeclaredSymbol { production: k });
                },
            };
            proof {
                assert(names(syms@)[head as int] == pv.head);
                assert forall|m: int| 0 <= m < body.len() implies (#[trigger] body[m])
                    < syms.len() && names(syms@)[body[m] as int] == pv.body[m] by {
                    assert(syms[body[m] as int]@ == p.vec[m]@);
                }
                assert(indexed(names(syms@), pv, head, body@));
                assert forall|m: int| 0 <= m < pv.body.len() implies names(syms@).contains(
                    #[trigger] pv.body[m],
                ) by {
                    assert(names(syms@)[body[m] as int] == pv.body[m]);
                }
                let before = views(generators@).take(k as int);
                let after = views(generators@).take(k + 1);
                assert(after.drop_last() =~= before);
                assert(after.last() == pv);
            }
            let ghost old_prods = prods@;
            let ghost old_heads = heads@;
            let ghost old_bodies = bodies@;
            match find_production(&prods, p) {
                None => {
                    prods.push(p.clone());
                    heads.push(head);
                    bodies.push(body);
                    assert(views(prods@) =~= views(old_prods).push(pv));
                    assert forall|j: int| 0 <= j < prods.len() implies indexed(
                        names(syms@),
                        #[trigger] views(prods@)[j],
                        heads[j],
                        bodies[j]@,
                    ) by {
                        if j < old_prods.len() {
                            assert(views(prods@)[j] == views(old_prods)[j]);
                            assert(heads[j] == old_heads[j]);
                            assert(bodies[j] == old_bodies[j]);
                        }
                    }
                },
                Some(j) => {
                    assert(views(prods@)[j as int] == pv);
                },
            }
            k += 1;
        }
        assert(views(generators@).take(generators.len() as int) =~= views(generators@));
        let start_symbol = Symbol { text: String::from_str("S") };
        proof {
            reveal_strlit("S");
            assert(start_symbol@ =~= start_name());
        }
        let start = match find_symbol(&syms, &start_symbol) {
            Some(i) => i,
            None => {
                return Err(GrammarLoadError::MissingStart);
            },
        };
        assert(names(syms@)[start as int] == start_name());
        if !start_symbol.is_not_end_symbol() {
            return Err(GrammarLoadError::MissingStart);
        }
        let rules = Rules { symbols: syms, productions: prods, kinds, heads, bodies, start, eof };
        proof {
            lemma_dedup(views(generators@));
            assert(names(rules.symbols@)[eof as int] == eof_name());
            assert forall|k: int| 0 <= k < rules@.productions.len() implies production_ok(
                rules@.symbols,
                #[trigger] rules@.productions[k],
            ) by {
                let pv = rules@.productions[k];
                assert(dedup(views(generators@)).contains(pv));
                assert(views(generators@).contains(pv));
                let j = choose|j: int| 0 <= j < generators.len() && views(generators@)[j] == pv;
                assert(production_ok(names(syms@), views(generators@)[j]));
            }
        }
        Ok(rules)
    }
}

} // verus!
