use crate::chars::{char_is_whitespace, string_of, to_chars};
use crate::rules::{
    declared, dedup, find_production, find_symbol, has_start, lemma_dedup, production_ok, views,
    Grammar, GrammarLoadError,
};
use crate::symbol::{eof_name, is_nonterminal, names, Name, Production, ProductionView, Symbol};
use crate::syntax::{describes, Analysis, Syntax};
use vstd::prelude::*;

verus! {

/// A character that parts the symbols of a body: space, tab, line feed,
/// form feed or carriage return.
pub open spec fn is_blank(c: char) -> bool {
    c == ' ' || c == '\t' || c == '\n' || c == '\x0C' || c == '\r'
}

/// The arrow `->` stands at position `i` of the line.
pub open spec fn arrow_at(line: Seq<char>, i: int) -> bool {
    0 <= i && i + 1 < line.len() && line[i] == '-' && line[i + 1] == '>'
}

/// The line holds one arrow, at position `i`.
pub open spec fn sole_arrow(line: Seq<char>, i: int) -> bool {
    arrow_at(line, i) && forall|j: int| arrow_at(line, j) ==> j == i
}

/// The text without the white space it begins with.
pub open spec fn trim_start(s: Seq<char>) -> Seq<char>
    decreases s.len(),
{
    if s.len() > 0 && char_is_whitespace(s[0]) {
        trim_start(s.skip(1))
    } else {
        s
    }
}

/// The text without the white space it ends with.
pub open spec fn trim_end(s: Seq<char>) -> Seq<char>
    decreases s.len(),
{
    if s.len() > 0 && char_is_whitespace(s.last()) {
        trim_end(s.drop_last())
    } else {
        s
    }
}

/// The text without the white space around it.
pub open spec fn trim(s: Seq<char>) -> Seq<char> {
    trim_end(trim_start(s))
}

/// The word `cur`, if it holds anything.
pub open spec fn word(cur: Seq<char>) -> Seq<Name> {
    if cur.len() > 0 {
        seq![cur]
    } else {
        Seq::empty()
    }
}

/// The words of `s`, when `cur` is the part already read of the word that
/// `s` may go on with.
pub open spec fn words_after(s: Seq<char>, cur: Seq<char>) -> Seq<Name>
    decreases s.len(),
{
    if s.len() == 0 {
        word(cur)
    } else if is_blank(s[0]) {
        word(cur) + words_after(s.skip(1), Seq::empty())
    } else {
        words_after(s.skip(1), cur.push(s[0]))
    }
}

/// The words of a text: its longest runs of characters that are not blank.
pub open spec fn words(s: Seq<char>) -> Seq<Name> {
    words_after(s, Seq::empty())
}

/// The rule that a line of grammar text states: the text before its one
/// arrow, trimmed, is the head, which must be a nonterminal; the words of
/// the text behind the arrow, trimmed, are the body. Any other line states
/// none.
pub open spec fn rule_of(line: Seq<char>) -> Option<ProductionView> {
    if exists|i: int| sole_arrow(line, i) {
        let i = choose|i: int| sole_arrow(line, i);
        let head = trim(line.take(i));
        if is_nonterminal(head) {
            Some(ProductionView { head, body: words(trim(line.skip(i + 2))) })
        } else {
            None
        }
    } else {
        None
    }
}

/// The position of the arrow of a line that holds exactly one.
pub fn find_arrow(line: &Vec<char>) -> (r: Option<usize>)
    ensures
        match r {
            Some(i) => sole_arrow(line@, i as int),
            None => !exists|i: int| sole_arrow(line@, i),
        },
{
    let mut found: Option<usize> = None;
    let mut i: usize = 0;
    if line.len() < 2 {
        return None;
    }
    let last = line.len() - 1;
    while i < last
        invariant
            last == line.len() - 1,
            i <= last,
            match found {
                Some(a) => a < i && arrow_at(line@, a as int) && forall|j: int|
                    j < i && arrow_at(line@, j) ==> j == a,
                None => forall|j: int| j < i ==> !arrow_at(line@, j),
            },
        decreases last - i,
    {
        if line[i] == '-' && line[i + 1] == '>' {
            match found {
                Some(a) => {
                    assert(arrow_at(line@, i as int));
                    assert forall|c: int| !sole_arrow(line@, c) by {
                        if sole_arrow(line@, c) {
                            assert(arrow_at(line@, a as int));
                            assert(arrow_at(line@, i as int));
                        }
                    }
                    return None;
                },
                None => {
                    found = Some(i);
                },
            }
        }
        i += 1;
    }
    found
}

/// The bounds of the text between `from` and `to` without the white space
/// around it.
pub fn trim_bounds(line: &Vec<char>, from: usize, to: usize) -> (r: (usize, usize))
    requires
        from <= to <= line.len(),
    ensures
        from <= r.0 <= r.1 <= to,
        line@.subrange(r.0 as int, to as int) == trim_start(
            line@.subrange(from as int, to as int),
        ),
        line@.subrange(r.0 as int, r.1 as int) == trim(line@.subrange(from as int, to as int)),
{
    let mut a: usize = from;
    while a < to && line[a].is_whitespace()
        invariant
            from <= a <= to <= line.len(),
            trim_start(line@.subrange(from as int, to as int)) == trim_start(
                line@.subrange(a as int, to as int),
            ),
        decreases to - a,
    {
        assert(line@.subrange(a as int, to as int).skip(1) =~= line@.subrange(a + 1, to as int));
        a += 1;
    }
    assert(trim_start(line@.subrange(a as int, to as int)) == line@.subrange(a as int, to as int));
    let mut b: usize = to;
    while b > a && line[b - 1].is_whitespace()
        invariant
            a <= b <= to <= line.len(),
            trim_end(line@.subrange(a as int, to as int)) == trim_end(
                line@.subrange(a as int, b as int),
            ),
        decreases b,
    {
        assert(line@.subrange(a as int, b as int).drop_last() =~= line@.subrange(a as int, b - 1));
        b -= 1;
    }
    assert(trim_end(line@.subrange(a as int, b as int)) == line@.subrange(a as int, b as int));
    (a, b)
}

/// The words of the line from position `from` up to, not including, `to`,
/// each as a symbol.
pub fn read_words_between(line: &Vec<char>, from: usize, to: usize) -> (r: Vec<Symbol>)
    requires
        from <= to <= line.len(),
    ensures
        names(r@) == words(line@.subrange(from as int, to as int)),
{
    let mut out: Vec<Symbol> = Vec::new();
    let mut begin: usize = from;
    let mut i: usize = from;
    proof {
        assert(line@.subrange(begin as int, i as int) =~= Seq::empty());
        assert(line@.subrange(from as int, to as int) =~= line@.subrange(i as int, to as int));
        assert(names(out@) =~= Seq::empty());
        assert(names(out@) + words(line@.subrange(from as int, to as int)) =~= words(
            line@.subrange(from as int, to as int),
        ));
    }
    while i < to
        invariant
            from <= begin <= i <= to <= line.len(),
            words(line@.subrange(from as int, to as int)) == names(out@) + words_after(
                line@.subrange(i as int, to as int),
                line@.subrange(begin as int, i as int),
            ),
        decreases to - i,
    {
        let c = line[i];
        let ghost rest = line@.subrange(i as int, to as int);
        let ghost cur = line@.subrange(begin as int, i as int);
        let ghost prev = out@;
        proof {
            assert(rest.skip(1) =~= line@.subrange(i + 1, to as int));
            assert(rest[0] == c);
        }
        if c == ' ' || c == '\t' || c == '\n' || c == '\x0C' || c == '\r' {
            if begin < i {
                out.push(Symbol { text: string_of(line, begin, i) });
                assert(names(out@) =~= names(prev) + word(cur));
            } else {
                assert(names(out@) =~= names(prev) + word(cur));
            }
            begin = i + 1;
            proof {
                assert(line@.subrange(begin as int, i + 1) =~= Seq::empty());
                assert(names(prev) + (word(cur) + words_after(rest.skip(1), Seq::empty()))
                    =~= (names(prev) + word(cur)) + words_after(rest.skip(1), Seq::empty()));
            }
        } else {
            proof {
                assert(line@.subrange(begin as int, i + 1) =~= cur.push(c));
            }
        }
        i += 1;
    }
    let ghost cur = line@.subrange(begin as int, i as int);
    let ghost prev = out@;
    if begin < i {
        out.push(Symbol { text: string_of(line, begin, i) });
        assert(names(out@) =~= names(prev) + word(cur));
    } else {
        assert(names(out@) =~= names(prev) + word(cur));
    }
    out
}

/// The words of the line from position `from` on, each as a symbol.
pub fn read_words(line: &Vec<char>, from: usize) -> (r: Vec<Symbol>)
    requires
        from <= line.len(),
    ensures
        names(r@) == words(line@.skip(from as int)),
{
    assert(line@.skip(from as int) =~= line@.subrange(from as int, line.len() as int));
    read_words_between(line, from, line.len())
}

/// The rule that a line of grammar text states.
pub fn read_rule(line: &Vec<char>) -> (r: Option<Production>)
    ensures
        match r {
            Some(p) => rule_of(line@) == Some(p@),
            None => rule_of(line@).is_none(),
        },
{
    match find_arrow(line) {
        None => None,
        Some(i) => {
            proof {
                let c = choose|c: int| sole_arrow(line@, c);
                assert(c == i);
                assert(line@.take(i as int) =~= line@.subrange(0, i as int));
            }
            let (a, b) = trim_bounds(line, 0, i);
            let head = Symbol { text: string_of(line, a, b) };
            if !head.is_not_end_symbol() {
                return None;
            }
            assert(arrow_at(line@, i as int));
            assert(line@.skip(i + 2) =~= line@.subrange(i + 2, line.len() as int));
            let (from, to) = trim_bounds(line, i + 2, line.len());
            let body = read_words_between(line, from, to);
            Some(Production { head, vec: body })
        },
    }
}

/// Collects the symbols and productions of a grammar from its lines of
/// text. Nothing is held twice.
pub struct SyntaxParser {
    pub symbols: Vec<Symbol>,
    pub generators: Vec<Production>,
}

/// Adds to `symbols` each symbol of `more` that it does not hold yet.
pub fn add_symbols(symbols: &mut Vec<Symbol>, more: &Vec<Symbol>)
    requires
        names(old(symbols)@).no_duplicates(),
    ensures
        names(final(symbols)@) == dedup(names(old(symbols)@) + names(more@)),
        names(final(symbols)@).no_duplicates(),
{
    let ghost base = names(symbols@);
    let mut i: usize = 0;
    proof {
        lemma_dedup_distinct(base);
        assert(base + names(more@).take(0) =~= base);
    }
    while i < more.len()
        invariant
            i <= more.len(),
            base == names(old(symbols)@),
            names(symbols@) == dedup(base + names(more@).take(i as int)),
        decreases more.len() - i,
    {
        let ghost before = base + names(more@).take(i as int);
        let ghost after = base + names(more@).take(i + 1);
        let ghost prev = symbols@;
        proof {
            assert(after.drop_last() =~= before);
            assert(after.last() == more[i as int]@);
        }
        match find_symbol(symbols, &more[i]) {
            None => {
                symbols.push(more[i].clone());
                assert(names(symbols@) =~= names(prev).push(more[i as int]@));
            },
            Some(j) => {
                assert(names(prev)[j as int] == more[i as int]@);
            },
        }
        i += 1;
    }
    proof {
        assert(names(more@).take(more.len() as int) =~= names(more@));
        lemma_dedup(base + names(more@));
    }
}

/// A sequence that holds nothing twice is left as it is.
pub proof fn lemma_dedup_distinct<T>(s: Seq<T>)
    requires
        s.no_duplicates(),
    ensures
        dedup(s) == s,
    decreases s.len(),
{
    if s.len() > 0 {
        let t = s.drop_last();
        lemma_dedup_distinct(t);
        lemma_dedup(t);
        if t.contains(s.last()) {
            let i = choose|i: int| 0 <= i < t.len() && t[i] == s.last();
            assert(s[i] == s[s.len() - 1]);
        }
        assert(t.push(s.last()) =~= s);
    }
}

impl SyntaxParser {
    /// Nothing is held twice.
    pub open spec fn wf(&self) -> bool {
        names(self.symbols@).no_duplicates() && views(self.generators@).no_duplicates()
    }

    pub fn new() -> (r: SyntaxParser)
        ensures
            r.wf(),
            r.symbols@.len() == 0,
            r.generators@.len() == 0,
    {
        SyntaxParser { symbols: Vec::new(), generators: Vec::new() }
    }

    /// Reads one line of grammar text, `Head -> s1 s2 ... sn`. The head and
    /// the symbols of the body join the symbols, the rule joins the
    /// productions, each unless it is held already. A line that states no
    /// rule is refused and changes nothing.
    pub fn add_syntax_line(&mut self, line: String) -> (r: Result<(), GrammarLoadError>)
        requires
            old(self).wf(),
        ensures
            final(self).wf(),
            match rule_of(line@) {
                Some(p) => {
                    &&& r == Ok::<(), GrammarLoadError>(())
                    &&& names(final(self).symbols@) == dedup(
                        names(old(self).symbols@) + seq![p.head] + p.body,
                    )
                    &&& views(final(self).generators@) == dedup(
                        views(old(self).generators@).push(p),
                    )
                },
                None => {
                    &&& r == Err::<(), GrammarLoadError>(GrammarLoadError::MalformedLine)
                    &&& *final(self) == *old(self)
                },
            },
    {
        let chars = to_chars(line.as_str());
        match read_rule(&chars) {
            None => Err(GrammarLoadError::MalformedLine),
            Some(p) => {
                let ghost s0 = names(self.symbols@);
                let ghost g0 = views(self.generators@);
                let mut head: Vec<Symbol> = Vec::new();
                head.push(p.head.clone());
                assert(names(head@) =~= seq![p@.head]);
                add_symbols(&mut self.symbols, &head);
                let ghost s1 = names(self.symbols@);
                add_symbols(&mut self.symbols, &p.vec);
                proof {
                    lemma_dedup_distinct(s1);
                    lemma_dedup_append(s0 + seq![p@.head], p@.body);
                    assert((s0 + seq![p@.head]) + p@.body =~= s0 + seq![p@.head] + p@.body);
                    lemma_dedup_distinct(g0);
                    assert(g0.push(p@).drop_last() =~= g0);
                }
                let ghost prev = self.generators@;
                match find_production(&self.generators, &p) {
                    None => {
                        self.generators.push(p);
                        assert(views(self.generators@) =~= views(prev).push(p@));
                    },
                    Some(j) => {
                        assert(views(prev)[j as int] == p@);
                    },
                }
                proof {
                    lemma_dedup(g0.push(p@));
                }
                Ok(())
            },
        }
    }
}

/// Repetitions may be dropped from the front part first.
pub proof fn lemma_dedup_append<T>(a: Seq<T>, b: Seq<T>)
    ensures
        dedup(dedup(a) + b) == dedup(a + b),
    decreases b.len(),
{
    if b.len() == 0 {
        assert(dedup(a) + b =~= dedup(a));
        assert(a + b =~= a);
        lemma_dedup(a);
        lemma_dedup_distinct(dedup(a));
    } else {
        let b0 = b.drop_last();
        lemma_dedup_append(a, b0);
        assert((dedup(a) + b).drop_last() =~= dedup(a) + b0);
        assert((a + b).drop_last() =~= a + b0);
        assert((dedup(a) + b).last() == b.last());
        assert((a + b).last() == b.last());
    }
}

/// The symbols that the first `n` lines name, each once, in the order of
/// first occurrence.
pub open spec fn lines_symbols(lines: Seq<String>, n: int) -> Seq<Name>
    decreases n,
{
    if n <= 0 {
        Seq::empty()
    } else {
        let p = rule_of(lines[n - 1]@).unwrap();
        dedup(lines_symbols(lines, n - 1) + seq![p.head] + p.body)
    }
}

/// The rules that the first `n` lines state, each once, in the order of
/// first occurrence.
pub open spec fn lines_rules(lines: Seq<String>, n: int) -> Seq<ProductionView>
    decreases n,
{
    if n <= 0 {
        Seq::empty()
    } else {
        dedup(lines_rules(lines, n - 1).push(rule_of(lines[n - 1]@).unwrap()))
    }
}

/// The grammar that lines of text state: its symbols are those that the
/// lines name and the end-of-input marker, its productions the rules that
/// the lines state. A line that states no rule makes the text malformed; a
/// rule with a symbol outside the symbols cannot occur; a text without the
/// start symbol `S` is refused.
pub open spec fn lines_grammar(lines: Seq<String>) -> Result<Grammar, GrammarLoadError> {
    if exists|i: int| 0 <= i < lines.len() && rule_of(#[trigger] lines[i]@).is_none() {
        Err(GrammarLoadError::MalformedLine)
    } else {
        let symbols = dedup(lines_symbols(lines, lines.len() as int).push(eof_name()));
        if has_start(symbols) {
            Ok(Grammar { symbols, productions: lines_rules(lines, lines.len() as int) })
        } else {
            Err(GrammarLoadError::MissingStart)
        }
    }
}

impl SyntaxParser {
    /// Reads a grammar from its lines of text.
    pub fn read_lines(lines: &Vec<String>) -> (r: Result<Syntax, GrammarLoadError>)
        ensures
            match r {
                Ok(s) => s.wf() && !s.is_generated && lines_grammar(lines@) == Ok::<
                    Grammar,
                    GrammarLoadError,
                >(s@),
                Err(e) => lines_grammar(lines@) == Err::<Grammar, GrammarLoadError>(e),
            },
    {
        let mut parser = SyntaxParser::new();
        let mut i: usize = 0;
        assert(names(parser.symbols@) =~= lines_symbols(lines@, 0));
        assert(views(parser.generators@) =~= lines_rules(lines@, 0));
        while i < lines.len()
            invariant
                i <= lines.len(),
                parser.wf(),
                forall|j: int| 0 <= j < i ==> rule_of(#[trigger] lines[j]@).is_some(),
                names(parser.symbols@) == lines_symbols(lines@, i as int),
                views(parser.generators@) == lines_rules(lines@, i as int),
                forall|k: int|
                    0 <= k < parser.generators.len() ==> is_nonterminal(
                        #[trigger] views(parser.generators@)[k].head,
                    ) && declared(names(parser.symbols@), views(parser.generators@)[k]),
            decreases lines.len() - i,
        {
            let ghost s0 = names(parser.symbols@);
            let ghost g0 = views(parser.generators@);
            match parser.add_syntax_line(lines[i].clone()) {
                Ok(_) => {},
                Err(e) => {
                    assert(rule_of(lines[i as int]@).is_none());
                    return Err(e);
                },
            }
            proof {
                let p = rule_of(lines[i as int]@).unwrap();
                let s1 = names(parser.symbols@);
                let g1 = views(parser.generators@);
                lemma_dedup(s0 + seq![p.head] + p.body);
                lemma_dedup(g0.push(p));
                assert forall|k: int| 0 <= k < g1.len() implies is_nonterminal(
                    #[trigger] g1[k].head,
                ) && declared(s1, g1[k]) by {
                    let q = g1[k];
                    assert(g1.contains(q));
                    assert(g0.push(p).contains(q));
                    let full = s0 + seq![p.head] + p.body;
                    if g0.contains(q) {
                        let c = choose|c: int| 0 <= c < g0.len() && g0[c] == q;
                        assert(declared(s0, g0[c]));
                        let at = choose|at: int| 0 <= at < s0.len() && s0[at] == q.head;
                        assert(full[at] == q.head);
                        assert(full.contains(q.head));
                        assert forall|m: int| 0 <= m < q.body.len() implies s1.contains(
                            #[trigger] q.body[m],
                        ) by {
                            assert(s0.contains(q.body[m]));
                            let at2 = choose|at2: int| 0 <= at2 < s0.len() && s0[at2] == q.body[m];
                            assert(full[at2] == q.body[m]);
                            assert(full.contains(q.body[m]));
                        }
                    } else {
                        let c = choose|c: int| 0 <= c < g0.push(p).len() && g0.push(p)[c] == q;
                        assert(q == p);
                        assert(full[s0.len() as int] == p.head);
                        assert(full.contains(q.head));
                        assert forall|m: int| 0 <= m < q.body.len() implies s1.contains(
                            #[trigger] q.body[m],
                        ) by {
                            assert(full[s0.len() + 1 + m] == p.body[m]);
                            assert(full.contains(q.body[m]));
                        }
                    }
                }
            }
            i += 1;
        }
        let ghost syms = dedup(names(parser.symbols@).push(eof_name()));
        proof {
            lemma_dedup(names(parser.symbols@).push(eof_name()));
            lemma_dedup_distinct(views(parser.generators@));
            assert forall|k: int| 0 <= k < parser.generators.len() implies production_ok(
                syms,
                #[trigger] views(parser.generators@)[k],
            ) by {
                let q = views(parser.generators@)[k];
                let base = names(parser.symbols@);
                assert(declared(base, q));
                let at = choose|at: int| 0 <= at < base.len() && base[at] == q.head;
                assert(base.push(eof_name())[at] == q.head);
                assert(base.push(eof_name()).contains(q.head));
                assert forall|m: int| 0 <= m < q.body.len() implies syms.contains(
                    #[trigger] q.body[m],
                ) by {
                    assert(base.contains(q.body[m]));
                    let at2 = choose|at2: int| 0 <= at2 < base.len() && base[at2] == q.body[m];
                    assert(base.push(eof_name())[at2] == q.body[m]);
                    assert(base.push(eof_name()).contains(q.body[m]));
                }
            }
        }
        match Syntax::new(&parser.symbols, &parser.generators) {
            Ok(s) => Ok(s),
            Err(e) => {
                assert(e == GrammarLoadError::MissingStart);
                Err(e)
            },
        }
    }
}

impl SyntaxParser {
    /// Reads a grammar from its lines of text and writes out its sets.
    pub fn analyse_lines(lines: &Vec<String>) -> (r: Result<Analysis, GrammarLoadError>)
        ensures
            match r {
                Ok(a) => lines_grammar(lines@) matches Ok(g) && describes(a, g),
                Err(e) => lines_grammar(lines@) == Err::<Grammar, GrammarLoadError>(e),
            },
    {
        match SyntaxParser::read_lines(lines) {
            Ok(mut syntax) => Ok(syntax.analysis()),
            Err(e) => Err(e),
        }
    }
}

} // verus!
