use crate::chars::char_is_uppercase;
use vstd::prelude::*;
use vstd::string::StringExecFns;
use vstd::string::StrSliceExecFns;

verus! {

/// The four classes a grammar symbol can belong to.
#[derive(Clone, Copy, Debug, PartialEq, Eq, Hash, Structural)]
pub enum SymbolKind {
    /// Appears literally in the token stream.
    Terminal,
    /// Defined by productions and expanded while parsing.
    Nonterminal,
    /// The marker of the empty string.
    Empty,
    /// The marker of the exhausted token stream.
    EndOfInput,
}

/// The name of a symbol, as contracts see it.
pub type Name = Seq<char>;

/// The reserved name of the empty-string marker.
pub open spec fn empty_name() -> Name {
    seq!['\u{3b5}']
}

/// The reserved name of the end-of-input marker.
pub open spec fn eof_name() -> Name {
    seq!['e', 'o', 'f']
}

/// The class of a symbol, decided by its name alone: the two reserved names
/// first, then the case of the leading character.
pub open spec fn kind_of(name: Name) -> SymbolKind {
    if name == empty_name() {
        SymbolKind::Empty
    } else if name == eof_name() {
        SymbolKind::EndOfInput
    } else if name.len() > 0 && char_is_uppercase(name[0]) {
        SymbolKind::Nonterminal
    } else {
        SymbolKind::Terminal
    }
}

/// Terminal-like for the parser: a terminal proper or the end-of-input marker.
pub open spec fn is_terminal(name: Name) -> bool {
    kind_of(name) == SymbolKind::Terminal || kind_of(name) == SymbolKind::EndOfInput
}

/// A symbol that productions define.
pub open spec fn is_nonterminal(name: Name) -> bool {
    kind_of(name) == SymbolKind::Nonterminal
}

/// A grammar symbol, identified by its name.
#[derive(Debug, Hash)]
pub struct Symbol {
    pub text: String,
}

impl View for Symbol {
    type V = Name;

    open spec fn view(&self) -> Name {
        self.text@
    }
}

impl Clone for Symbol {
    fn clone(&self) -> (r: Symbol)
        ensures
            r@ == self@,
    {
        Symbol { text: self.text.clone() }
    }
}

impl PartialEq for Symbol {
    fn eq(&self, other: &Symbol) -> (r: bool) {
        self.text == other.text
    }
}

impl Eq for Symbol {}

impl vstd::std_specs::cmp::PartialEqSpecImpl for Symbol {
    open spec fn obeys_eq_spec() -> bool {
        true
    }

    open spec fn eq_spec(&self, other: &Symbol) -> bool {
        self@ == other@
    }
}

impl From<String> for Symbol {
    fn from(text: String) -> (r: Symbol) {
        Symbol { text }
    }
}

impl vstd::std_specs::convert::FromSpecImpl<String> for Symbol {
    open spec fn obeys_from_spec() -> bool {
        true
    }

    open spec fn from_spec(text: String) -> Symbol {
        Symbol { text }
    }
}

impl From<&str> for Symbol {
    fn from(text: &str) -> (r: Symbol)
        ensures
            r@ == text@,
    {
        Symbol { text: String::from_str(text) }
    }
}

impl vstd::std_specs::convert::FromSpecImpl<&str> for Symbol {
    /// No text can be made into a string within a contract, so the result
    /// is told by its name, in the clause of `from` itself.
    open spec fn obeys_from_spec() -> bool {
        false
    }

    open spec fn from_spec(text: &str) -> Symbol {
        arbitrary()
    }
}

impl Symbol {
    /// The symbol of this name.
    pub fn new(text: &String) -> (r: Symbol)
        ensures
            r@ == text@,
    {
        Symbol { text: text.clone() }
    }

    /// The empty-string marker.
    pub fn empty_symbol() -> (r: Symbol)
        ensures
            r@ == empty_name(),
    {
        proof {
            reveal_strlit("\u{3b5}");
        }
        let r = Symbol { text: String::from_str("\u{3b5}") };
        assert(r@ =~= empty_name());
        r
    }

    /// The end-of-input marker.
    pub fn eof_symbol() -> (r: Symbol)
        ensures
            r@ == eof_name(),
    {
        proof {
            reveal_strlit("eof");
        }
        let r = Symbol { text: String::from_str("eof") };
        assert(r@ =~= eof_name());
        r
    }

    pub fn is_empty_symbol(&self) -> (r: bool)
        ensures
            r == (self@ == empty_name()),
    {
        let e = Symbol::empty_symbol();
        *self == e
    }

    /// The class of the symbol.
    pub fn kind(&self) -> (r: SymbolKind)
        ensures
            r == kind_of(self@),
    {
        if self.is_empty_symbol() {
            return SymbolKind::Empty;
        }
        let eof = Symbol::eof_symbol();
        if *self == eof {
            return SymbolKind::EndOfInput;
        }
        let s = self.text.as_str();
        if s.unicode_len() > 0 && s.get_char(0).is_uppercase() {
            SymbolKind::Nonterminal
        } else {
            SymbolKind::Terminal
        }
    }

    /// Whether the symbol is a terminal, the end-of-input marker included.
    pub fn is_end_symbol(&self) -> (r: bool)
        ensures
            r == is_terminal(self@),
    {
        match self.kind() {
            SymbolKind::Terminal => true,
            SymbolKind::EndOfInput => true,
            _ => false,
        }
    }

    /// Whether the symbol is a nonterminal.
    pub fn is_not_end_symbol(&self) -> (r: bool)
        ensures
            r == is_nonterminal(self@),
    {
        match self.kind() {
            SymbolKind::Nonterminal => true,
            _ => false,
        }
    }
}

/// The names of a run of symbols, in order.
pub open spec fn names(s: Seq<Symbol>) -> Seq<Name> {
    Seq::new(s.len(), |i: int| s[i]@)
}

/// Copies a run of symbols.
pub fn clone_symbols(v: &Vec<Symbol>) -> (r: Vec<Symbol>)
    ensures
        names(r@) == names(v@),
{
    let mut r: Vec<Symbol> = Vec::new();
    let mut i: usize = 0;
    while i < v.len()
        invariant
            i <= v.len(),
            r.len() == i,
            forall|j: int| 0 <= j < i ==> r[j]@ == v[j]@,
        decreases v.len() - i,
    {
        r.push(v[i].clone());
        i += 1;
    }
    assert(names(r@) =~= names(v@));
    r
}

/// Whether two runs of symbols carry the same names in the same order.
pub fn same_symbols(a: &Vec<Symbol>, b: &Vec<Symbol>) -> (r: bool)
    ensures
        r == (names(a@) == names(b@)),
{
    if a.len() != b.len() {
        assert(names(a@).len() != names(b@).len());
        return false;
    }
    let mut i: usize = 0;
    while i < a.len()
        invariant
            i <= a.len(),
            a.len() == b.len(),
            forall|j: int| 0 <= j < i ==> a[j]@ == b[j]@,
        decreases a.len() - i,
    {
        if a[i] != b[i] {
            assert(names(a@)[i as int] != names(b@)[i as int]);
            return false;
        }
        i += 1;
    }
    assert(names(a@) =~= names(b@));
    true
}

/// The mathematical value of a production.
pub struct ProductionView {
    pub head: Name,
    pub body: Seq<Name>,
}

/// A production: a head and the ordered symbols of its body. A body that
/// holds the empty-string marker alone is an epsilon production.
#[derive(Debug, Hash)]
pub struct Production {
    pub head: Symbol,
    pub vec: Vec<Symbol>,
}

impl View for Production {
    type V = ProductionView;

    open spec fn view(&self) -> ProductionView {
        ProductionView { head: self.head@, body: names(self.vec@) }
    }
}

impl Clone for Production {
    fn clone(&self) -> (r: Production)
        ensures
            r@ == self@,
    {
        Production { head: self.head.clone(), vec: clone_symbols(&self.vec) }
    }
}

impl PartialEq for Production {
    fn eq(&self, other: &Production) -> (r: bool) {
        self.head == other.head && same_symbols(&self.vec, &other.vec)
    }
}

impl Eq for Production {}

impl vstd::std_specs::cmp::PartialEqSpecImpl for Production {
    open spec fn obeys_eq_spec() -> bool {
        true
    }

    open spec fn eq_spec(&self, other: &Production) -> bool {
        self@ == other@
    }
}

/// Whether a body is that of an epsilon production.
pub open spec fn is_epsilon_body(body: Seq<Name>) -> bool {
    body.len() == 1 && body[0] == empty_name()
}

/// Whether some symbol of a body is a terminal.
pub open spec fn has_terminal(body: Seq<Name>) -> bool {
    exists|i: int| 0 <= i < body.len() && is_terminal(#[trigger] body[i])
}

impl Production {
    pub fn new_by_vec(head_symbol: Symbol, vec: &Vec<Symbol>) -> (r: Production)
        ensures
            r@ == (ProductionView { head: head_symbol@, body: names(vec@) }),
    {
        Production { head: head_symbol, vec: clone_symbols(vec) }
    }

    pub fn is_contain_end_symbol(&self) -> (r: bool)
        ensures
            r == has_terminal(self@.body),
    {
        let mut i: usize = 0;
        while i < self.vec.len()
            invariant
                i <= self.vec.len(),
                forall|j: int| 0 <= j < i ==> !is_terminal(#[trigger] self@.body[j]),
            decreases self.vec.len() - i,
        {
            if self.vec[i].is_end_symbol() {
                assert(is_terminal(self@.body[i as int]));
                return true;
            }
            i += 1;
        }
        false
    }

    pub fn is_not_contain_end_symbol(&self) -> (r: bool)
        ensures
            r == !has_terminal(self@.body),
    {
        !self.is_contain_end_symbol()
    }

    pub fn is_empty_production(&self) -> (r: bool)
        ensures
            r == is_epsilon_body(self@.body),
    {
        self.vec.len() == 1 && self.vec[0].is_empty_symbol()
    }
}

} // verus!
