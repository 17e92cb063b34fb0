use crate::first::cell;
use crate::select::in_select;
use crate::driver::{
    certified, lookaheads, outcome_of_error, parse_outcome, Driver, Lookahead, Outcome,
    ParseError,
};
use crate::rules::views;
use crate::rules::{production_ok, Grammar, GrammarLoadError};
use crate::symbol::is_nonterminal;
use crate::termination::heads_ok;
use crate::symbol::{names, Name, Production, ProductionView, Symbol};
use crate::syntax::Syntax;
use crate::syntax_file_parser::{lines_grammar, SyntaxParser};
use crate::validate::{clash, first_clash, is_ll1, overlap_pred, NotLL1Error};
use vstd::prelude::*;

verus! {

/// One cell of the parse table: the production to expand `nonterminal` by
/// when `lookahead` is the next token.
#[derive(Debug)]
pub struct TableEntry {
    pub nonterminal: Symbol,
    pub lookahead: Symbol,
    pub production: Production,
}

/// The key under which an entry is found.
pub open spec fn entry_key(e: TableEntry) -> (Name, Name) {
    (e.nonterminal@, e.lookahead@)
}

/// The map that a list of entries stands for: of two entries with one key
/// the later one counts.
pub open spec fn table_map(entries: Seq<TableEntry>) -> Map<(Name, Name), ProductionView>
    decreases entries.len(),
{
    if entries.len() == 0 {
        Map::empty()
    } else {
        table_map(entries.drop_last()).insert(entry_key(entries.last()), entries.last().production@)
    }
}

/// Production `k` of `g` is an alternative of the nonterminal of `key` and
/// selects the lookahead of `key`.
pub open spec fn chooses(g: Seq<ProductionView>, key: (Name, Name), k: int) -> bool {
    0 <= k < g.len() && g[k].head == key.0 && in_select(g, g[k], key.1)
}

/// The parse table of a grammar: under a nonterminal and a lookahead stands
/// the production of that nonterminal that selects the lookahead. In an
/// LL(1) grammar there is at most one.
pub open spec fn table_of(g: Seq<ProductionView>) -> Map<(Name, Name), ProductionView> {
    Map::new(
        |key: (Name, Name)| exists|k: int| chooses(g, key, k),
        |key: (Name, Name)| g[choose|k: int| chooses(g, key, k)],
    )
}

/// In an LL(1) grammar whose productions are listed once, one production at
/// most is chosen under a key.
pub proof fn lemma_one_choice(g: Seq<ProductionView>, key: (Name, Name), a: int, b: int)
    requires
        is_ll1(g),
        chooses(g, key, a),
        chooses(g, key, b),
    ensures
        a == b,
{
    if a < b {
        assert(clash(g, a, b));
    } else if b < a {
        assert(clash(g, b, a));
    }
}

/// The parse table: from a nonterminal and a lookahead terminal to the
/// production to apply.
#[derive(Debug)]
pub struct AnalyzeTable {
    pub analyze_table: Vec<TableEntry>,
}

impl View for AnalyzeTable {
    type V = Map<(Name, Name), ProductionView>;

    open spec fn view(&self) -> Map<(Name, Name), ProductionView> {
        table_map(self.analyze_table@)
    }
}

impl AnalyzeTable {
    /// The production under `nonterminal` and `lookahead`, if there is one.
    pub fn get(&self, nonterminal: &Symbol, lookahead: &Symbol) -> (r: Option<&Production>)
        ensures
            match r {
                Some(p) => self@.contains_key((nonterminal@, lookahead@)) && p@ == self@[(
                    nonterminal@,
                    lookahead@,
                )],
                None => !self@.contains_key((nonterminal@, lookahead@)),
            },
    {
        let ghost key = (nonterminal@, lookahead@);
        let mut i: usize = self.analyze_table.len();
        assert(self.analyze_table@.take(i as int) =~= self.analyze_table@);
        while i > 0
            invariant
                i <= self.analyze_table.len(),
                key == (nonterminal@, lookahead@),
                self@.contains_key(key) == table_map(
                    self.analyze_table@.take(i as int),
                ).contains_key(key),
                self@.contains_key(key) ==> self@[key] == table_map(
                    self.analyze_table@.take(i as int),
                )[key],
            decreases i,
        {
            let e = &self.analyze_table[i - 1];
            proof {
                let part = self.analyze_table@.take(i as int);
                assert(part.drop_last() =~= self.analyze_table@.take(i - 1));
                assert(part.last() == *e);
            }
            if e.nonterminal == *nonterminal && e.lookahead == *lookahead {
                return Some(&e.production);
            }
            i -= 1;
        }
        None
    }
}

impl Syntax {
    /// Builds the parse table of an LL(1) grammar, computing the sets first
    /// where they are not there yet: for every production and every symbol
    /// of its select set, the production is entered under its head and that
    /// symbol.
    pub fn build_analyze_table(&mut self) -> (r: AnalyzeTable)
        requires
            old(self).wf(),
            is_ll1(old(self)@.productions),
        ensures
            final(self).wf(),
            final(self).is_generated,
            final(self).rules == old(self).rules,
            r@ == table_of(old(self)@.productions),
            certified(r@),
    {
        self.generate_sets();
        let ghost g = self@.productions;
        let ghost names = self@.symbols;
        let count = self.rules.productions.len();
        let n = self.rules.symbols.len();
        let mut entries: Vec<TableEntry> = Vec::new();
        let mut k: usize = 0;
        while k < count
            invariant
                self.wf(),
                self.is_generated,
                self.rules == old(self).rules,
                is_ll1(g),
                g == self@.productions,
                names == self@.symbols,
                count == self.rules.productions.len(),
                n == self.rules.symbols.len(),
                k <= count,
                forall|key: (Name, Name)|
                    #![trigger table_map(entries@).contains_key(key)]
                    table_map(entries@).contains_key(key) ==> exists|a: int|
                        chooses(g, key, a) && a < k,
                forall|a: int, j: int|
                    #![trigger cell(self.select@, a, j)]
                    0 <= a < k && 0 <= j < n && cell(self.select@, a, j) ==> table_map(
                        entries@,
                    ).contains_key((g[a].head, names[j])) && table_map(entries@)[(
                        g[a].head,
                        names[j],
                    )] == g[a],
            decreases count - k,
        {
            let mut j: usize = 0;
            while j < n
                invariant
                    self.wf(),
                    self.is_generated,
                    self.rules == old(self).rules,
                    is_ll1(g),
                    g == self@.productions,
                    names == self@.symbols,
                    count == self.rules.productions.len(),
                    n == self.rules.symbols.len(),
                    k < count,
                    j <= n,
                    forall|key: (Name, Name)|
                        #![trigger table_map(entries@).contains_key(key)]
                        table_map(entries@).contains_key(key) ==> exists|a: int|
                            chooses(g, key, a) && a <= k,
                    forall|a: int, c: int|
                        #![trigger cell(self.select@, a, c)]
                        0 <= a < k && 0 <= c < n && cell(self.select@, a, c) ==> table_map(
                            entries@,
                        ).contains_key((g[a].head, names[c])) && table_map(entries@)[(
                            g[a].head,
                            names[c],
                        )] == g[a],
                    forall|c: int|
                        #![trigger cell(self.select@, k as int, c)]
                        0 <= c < j && cell(self.select@, k as int, c) ==> table_map(
                            entries@,
                        ).contains_key((g[k as int].head, names[c])) && table_map(entries@)[(
                            g[k as int].head,
                            names[c],
                        )] == g[k as int],
                decreases n - j,
            {
                assert(self.rules.rule_wf(k as int));
                if self.select[k][j] {
                    let p = &self.rules.productions[k];
                    let entry = TableEntry {
                        nonterminal: p.head.clone(),
                        lookahead: self.rules.symbols[j].clone(),
                        production: p.clone(),
                    };
                    let ghost before = entries@;
                    let ghost key = (g[k as int].head, names[j as int]);
                    entries.push(entry);
                    proof {
                        assert(entries@.drop_last() =~= before);
                        assert(entry_key(entries@.last()) == key);
                        assert(table_map(entries@) == table_map(before).insert(key, g[k as int]));
                        assert(cell(self.select@, k as int, j as int));
                        assert(in_select(g, g[k as int], names[j as int]));
                        assert(chooses(g, key, k as int));
                        assert forall|a: int, c: int|
                            #![trigger cell(self.select@, a, c)]
                            0 <= a < k && 0 <= c < n && cell(
                                self.select@,
                                a,
                                c,
                            ) implies table_map(entries@).contains_key((g[a].head, names[c]))
                            && table_map(entries@)[(g[a].head, names[c])] == g[a] by {
                            assert(in_select(g, g[a], names[c]));
                            if (g[a].head, names[c]) == key {
                                assert(c == j);
                                assert(chooses(g, key, a));
                                lemma_one_choice(g, key, a, k as int);
                            }
                        }
                        assert forall|c: int|
                            #![trigger cell(self.select@, k as int, c)]
                            0 <= c < j + 1 && cell(self.select@, k as int, c) implies table_map(
                            entries@,
                        ).contains_key((g[k as int].head, names[c])) && table_map(entries@)[(
                            g[k as int].head,
                            names[c],
                        )] == g[k as int] by {
                            if c < j {
                                assert(table_map(before).contains_key((g[k as int].head, names[c])));
                            }
                        }
                        assert forall|key2: (Name, Name)|
                            #![trigger table_map(entries@).contains_key(key2)]
                            table_map(entries@).contains_key(key2) implies exists|a: int|
                            chooses(g, key2, a) && a <= k by {
                            if key2 != key {
                                assert(table_map(before).contains_key(key2));
                            }
                        }
                    }
                }
                j += 1;
            }
            k += 1;
        }
        let table = AnalyzeTable { analyze_table: entries };
        proof {
            let m = table@;
            let want = table_of(g);
            assert forall|key: (Name, Name)| m.contains_key(key) == want.contains_key(key) by {
                if want.contains_key(key) {
                    let a = choose|a: int| chooses(g, key, a);
                    let j = self.rules.lemma_select_declared(a, key.1);
                    assert(cell(self.select@, a, j));
                }
            }
            assert forall|key: (Name, Name)| m.contains_key(key) implies m[key] == want[key] by {
                let a = choose|a: int| chooses(g, key, a);
                let j = self.rules.lemma_select_declared(a, key.1);
                assert(cell(self.select@, a, j));
            }
            assert(m =~= want);
            assert(heads_ok(g)) by {
                assert forall|k: int| 0 <= k < g.len() implies is_nonterminal(
                    #[trigger] g[k].head,
                ) by {
                    assert(production_ok(self@.symbols, self@.productions[k]));
                }
            }
        }
        table
    }
}

/// Why no parse table was built from a grammar text.
#[derive(Debug)]
pub enum TableError {
    /// The text is no grammar.
    Load(GrammarLoadError),
    /// The grammar is not LL(1).
    NotLL1(NotLL1Error),
}

impl AnalyzeTable {
    /// Reads a grammar from its lines of text and builds its parse table.
    /// The first line that states no rule ends the reading; a grammar that
    /// cannot stand, or is not LL(1), gives no table.
    pub fn from_syntax_lines(lines: &Vec<String>) -> (r: Result<AnalyzeTable, TableError>)
        ensures
            match r {
                Ok(table) => certified(table@) && exists|g: Grammar|
                    #![trigger g.well_formed()]
                    lines_grammar(lines@) == Ok::<Grammar, GrammarLoadError>(g) && is_ll1(
                        g.productions,
                    ) && table@ == table_of(g.productions),
                Err(TableError::Load(e)) => lines_grammar(lines@) == Err::<
                    Grammar,
                    GrammarLoadError,
                >(e),
                Err(TableError::NotLL1(e)) => exists|g: Grammar|
                    #![trigger g.well_formed()]
                    {
                        &&& lines_grammar(lines@) == Ok::<Grammar, GrammarLoadError>(g)
                        &&& !is_ll1(g.productions)
                        &&& first_clash(g.productions, e.first as int, e.second as int)
                        &&& e.nonterminal@ == g.productions[e.first as int].head
                        &&& names(e.overlap@) == g.symbols.filter(
                            overlap_pred(
                                g.productions,
                                g.productions[e.first as int],
                                g.productions[e.second as int],
                            ),
                        )
                    },
            },
    {
        let mut syntax = match SyntaxParser::read_lines(lines) {
            Ok(s) => s,
            Err(e) => {
                return Err(TableError::Load(e));
            },
        };
        let ghost g = syntax@;
        match syntax.check_if_ll() {
            Ok(_) => {
                let table = syntax.build_analyze_table();
                assert(g.well_formed());
                Ok(table)
            },
            Err(e) => {
                assert(g.well_formed());
                Err(TableError::NotLL1(e))
            },
        }
    }
}

/// Why a text was not parsed by a grammar text.
#[derive(Debug)]
pub enum RunError {
    /// No parse table was built.
    Table(TableError),
    /// The parser refused the tokens.
    Parse(ParseError),
}

/// Reads a grammar from its lines of text, builds its parse table and
/// parses `tokens` by it. On acceptance the productions applied are
/// returned, in order.
pub fn parse_lines(lines: &Vec<String>, tokens: &Vec<Lookahead>) -> (r: Result<
    Vec<Production>,
    RunError,
>)
    ensures
        match r {
            Ok(trace) => {
                &&& lines_grammar(lines@) matches Ok(g)
                &&& is_ll1(g.productions)
                &&& parse_outcome(table_of(g.productions), lookaheads(tokens@)) == (
                Outcome::Accepted { trace: views(trace@) })
            },
            Err(RunError::Table(TableError::Load(e))) => lines_grammar(lines@) == Err::<
                Grammar,
                GrammarLoadError,
            >(e),
            Err(RunError::Table(TableError::NotLL1(e))) => {
                &&& lines_grammar(lines@) matches Ok(g)
                &&& !is_ll1(g.productions)
                &&& first_clash(g.productions, e.first as int, e.second as int)
                &&& e.nonterminal@ == g.productions[e.first as int].head
                &&& names(e.overlap@) == g.symbols.filter(
                    overlap_pred(
                        g.productions,
                        g.productions[e.first as int],
                        g.productions[e.second as int],
                    ),
                )
            },
            Err(RunError::Parse(e)) => {
                &&& lines_grammar(lines@) matches Ok(g)
                &&& is_ll1(g.productions)
                &&& !(e is StepLimit)
                &&& parse_outcome(table_of(g.productions), lookaheads(tokens@))
                    == outcome_of_error(e)
            },
        },
{
    let table = match AnalyzeTable::from_syntax_lines(lines) {
        Ok(table) => table,
        Err(e) => {
            return Err(RunError::Table(e));
        },
    };
    let driver = Driver::new(table);
    match driver.parse(tokens) {
        Ok(trace) => Ok(trace),
        Err(e) => Err(RunError::Parse(e)),
    }
}

} // verus!
