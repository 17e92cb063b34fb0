use crate::symbol::{has_terminal, is_epsilon_body, is_nonterminal, names, Name, Symbol};
use vstd::prelude::*;

verus! {

/// A run of symbols, such as the body of a production.
#[derive(Debug)]
pub struct SymBolList {
    pub vec: Vec<Symbol>,
}

impl View for SymBolList {
    type V = Seq<Name>;

    open spec fn view(&self) -> Seq<Name> {
        names(self.vec@)
    }
}

/// What is known of the nonterminals: for some of them, whether they derive
/// the empty string. Of two entries for one symbol the later one counts.
pub open spec fn statuses(entries: Seq<(Symbol, bool)>) -> Seq<(Name, bool)> {
    Seq::new(entries.len(), |i: int| (entries[i].0@, entries[i].1))
}

/// What the entries say of `x`, if anything.
pub open spec fn status_of(entries: Seq<(Name, bool)>, x: Name) -> Option<bool>
    decreases entries.len(),
{
    if entries.len() == 0 {
        None
    } else if entries.last().0 == x {
        Some(entries.last().1)
    } else {
        status_of(entries.drop_last(), x)
    }
}

/// Every nonterminal of the list is known to derive the empty string.
pub open spec fn all_known_true(list: Seq<Name>, entries: Seq<(Name, bool)>) -> bool {
    forall|i: int|
        #![trigger list[i]]
        0 <= i < list.len() && is_nonterminal(list[i]) ==> status_of(entries, list[i]) == Some(
            true,
        )
}

/// Some nonterminal of the list is not known to fail to derive the empty
/// string: it is marked true, or not marked at all.
pub open spec fn some_not_known_false(list: Seq<Name>, entries: Seq<(Name, bool)>) -> bool {
    exists|i: int|
        #![trigger list[i]]
        0 <= i < list.len() && is_nonterminal(list[i]) && status_of(entries, list[i]) != Some(
            false,
        )
}

/// What the entries say of `x`.
pub fn find_status(entries: &Vec<(Symbol, bool)>, x: &Symbol) -> (r: Option<bool>)
    ensures
        r == status_of(statuses(entries@), x@),
{
    let mut i: usize = entries.len();
    assert(statuses(entries@).take(i as int) =~= statuses(entries@));
    while i > 0
        invariant
            i <= entries.len(),
            status_of(statuses(entries@), x@) == status_of(
                statuses(entries@).take(i as int),
                x@,
            ),
        decreases i,
    {
        let ghost part = statuses(entries@).take(i as int);
        assert(part.drop_last() =~= statuses(entries@).take(i - 1));
        assert(part.last() == (entries[i - 1].0@, entries[i - 1].1));
        if entries[i - 1].0 == *x {
            return Some(entries[i - 1].1);
        }
        i -= 1;
    }
    None
}

impl SymBolList {
    pub fn is_contain_end_symbol(&self) -> (r: bool)
        ensures
            r == has_terminal(self@),
    {
        let mut i: usize = 0;
        while i < self.vec.len()
            invariant
                i <= self.vec.len(),
                forall|j: int| 0 <= j < i ==> !crate::symbol::is_terminal(#[trigger] self@[j]),
            decreases self.vec.len() - i,
        {
            if self.vec[i].is_end_symbol() {
                assert(crate::symbol::is_terminal(self@[i as int]));
                return true;
            }
            i += 1;
        }
        false
    }

    pub fn is_not_contain_end_symbol(&self) -> (r: bool)
        ensures
            r == !has_terminal(self@),
    {
        !self.is_contain_end_symbol()
    }

    /// Whether the list is the empty-string marker alone.
    pub fn is_empty_str_symbol_list(&self) -> (r: bool)
        ensures
            r == is_epsilon_body(self@),
    {
        self.vec.len() == 1 && self.vec[0].is_empty_symbol()
    }

    pub fn is_all_true_not_end_symbol(&self, status_map: &Vec<(Symbol, bool)>) -> (r: bool)
        ensures
            r == all_known_true(self@, statuses(status_map@)),
    {
        let mut i: usize = 0;
        while i < self.vec.len()
            invariant
                i <= self.vec.len(),
                forall|j: int|
                    #![trigger self@[j]]
                    0 <= j < i && is_nonterminal(self@[j]) ==> status_of(
                        statuses(status_map@),
                        self@[j],
                    ) == Some(true),
            decreases self.vec.len() - i,
        {
            assert(self@[i as int] == self.vec[i as int]@);
            if self.vec[i].is_not_end_symbol() {
                let known = match find_status(status_map, &self.vec[i]) {
                    Some(status) => status,
                    None => false,
                };
                if !known {
                    return false;
                }
            }
            i += 1;
        }
        true
    }

    pub fn is_contain_false_not_end_symbol(&self, status_map: &Vec<(Symbol, bool)>) -> (r: bool)
        ensures
            r == some_not_known_false(self@, statuses(status_map@)),
    {
        let mut i: usize = 0;
        while i < self.vec.len()
            invariant
                i <= self.vec.len(),
                forall|j: int|
                    #![trigger self@[j]]
                    0 <= j < i ==> !(is_nonterminal(self@[j]) && status_of(
                        statuses(status_map@),
                        self@[j],
                    ) != Some(false)),
            decreases self.vec.len() - i,
        {
            assert(self@[i as int] == self.vec[i as int]@);
            if self.vec[i].is_not_end_symbol() {
                let open = match find_status(status_map, &self.vec[i]) {
                    Some(status) => status,
                    None => true,
                };
                if open {
                    return true;
                }
            }
            i += 1;
        }
        false
    }
}

} // verus!
