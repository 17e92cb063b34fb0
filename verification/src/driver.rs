use crate::rules::{start_name, views};
use crate::symbol::{
    empty_name, eof_name, is_nonterminal, names, Name, Production, ProductionView, Symbol,
};
use crate::table::{table_of, AnalyzeTable};
use crate::termination::{halts, heads_ok, lemma_halts, lemma_run_ends};
use crate::validate::is_ll1;
use vstd::prelude::*;
use vstd::string::StringExecFns;

verus! {

/// The mathematical value of a lookahead: the name of its terminal and its
/// place in the source.
pub struct LookaheadView {
    pub symbol: Name,
    pub line: usize,
    pub column: usize,
}

/// One token as the parser sees it: the terminal it stands for and its
/// place in the source.
#[derive(Debug)]
pub struct Lookahead {
    pub symbol: Symbol,
    pub line: usize,
    pub column: usize,
}

impl View for Lookahead {
    type V = LookaheadView;

    open spec fn view(&self) -> LookaheadView {
        LookaheadView { symbol: self.symbol@, line: self.line, column: self.column }
    }
}

impl Clone for Lookahead {
    fn clone(&self) -> (r: Lookahead)
        ensures
            r@ == self@,
    {
        Lookahead { symbol: self.symbol.clone(), line: self.line, column: self.column }
    }
}

/// The lookahead that stands for the exhausted token stream.
pub open spec fn end_view() -> LookaheadView {
    LookaheadView { symbol: eof_name(), line: 0, column: 0 }
}

/// The values of a run of tokens, in order.
pub open spec fn lookaheads(s: Seq<Lookahead>) -> Seq<LookaheadView> {
    Seq::new(s.len(), |i: int| s[i]@)
}

/// The lookahead at position `pos`: the token there, or the end of input
/// behind the last token.
pub open spec fn lookahead_at(tokens: Seq<LookaheadView>, pos: int) -> LookaheadView {
    if 0 <= pos < tokens.len() {
        tokens[pos]
    } else {
        end_view()
    }
}

/// Why a parse failed.
pub enum Failure {
    /// The terminal on top of the stack is not the lookahead.
    UnexpectedToken { expected: Name, found: Name, line: usize, column: usize },
    /// The table holds nothing under the nonterminal on top of the stack
    /// and the lookahead.
    NoApplicableProduction { nonterminal: Name, lookahead: Name, line: usize, column: usize },
}

/// What one step of the parser does.
pub enum Move {
    /// The end-of-input marker is on top and the input is exhausted.
    Accept,
    /// The terminal on top is the lookahead: it leaves the stack, and the
    /// next token becomes the lookahead.
    Shift { stack: Seq<Name> },
    /// The nonterminal on top gives way to the body of a production.
    Expand { stack: Seq<Name>, production: ProductionView },
    /// The parse fails.
    Fail { failure: Failure },
}

/// How a parse ends.
pub enum Outcome {
    /// The input was accepted; the productions applied, in order.
    Accepted { trace: Seq<ProductionView> },
    /// The input was refused.
    Rejected { failure: Failure },
    /// The allowed number of steps was used up before the parse ended.
    OutOfSteps,
}

/// What the symbols of `body` from position `i` on add to the stack: the
/// last symbol first, so that the first ends on top; the empty-string marker
/// adds nothing.
pub open spec fn pushed_from(body: Seq<Name>, i: int) -> Seq<Name>
    decreases body.len() - i,
{
    if i < 0 || i >= body.len() {
        Seq::empty()
    } else if body[i] == empty_name() {
        pushed_from(body, i + 1)
    } else {
        pushed_from(body, i + 1).push(body[i])
    }
}

/// What expanding by a production with this body adds to the stack.
pub open spec fn pushed(body: Seq<Name>) -> Seq<Name> {
    pushed_from(body, 0)
}

/// The stack a parse starts from: the start symbol above the end-of-input
/// marker.
pub open spec fn initial_stack() -> Seq<Name> {
    seq![eof_name(), start_name()]
}

/// A stack the parser can work on: the end-of-input marker lies at the
/// bottom.
pub open spec fn stack_ok(stack: Seq<Name>) -> bool {
    stack.len() > 0 && stack[0] == eof_name()
}

/// One step of the parser, decided by the top of the stack and the
/// lookahead.
pub open spec fn step_of(
    table: Map<(Name, Name), ProductionView>,
    stack: Seq<Name>,
    la: LookaheadView,
) -> Move {
    let top = stack.last();
    if is_nonterminal(top) {
        if table.contains_key((top, la.symbol)) {
            let p = table[(top, la.symbol)];
            Move::Expand { stack: stack.drop_last() + pushed(p.body), production: p }
        } else {
            Move::Fail {
                failure: Failure::NoApplicableProduction {
                    nonterminal: top,
                    lookahead: la.symbol,
                    line: la.line,
                    column: la.column,
                },
            }
        }
    } else if top == eof_name() && la.symbol == eof_name() {
        Move::Accept
    } else if top == la.symbol {
        Move::Shift { stack: stack.drop_last() }
    } else {
        Move::Fail {
            failure: Failure::UnexpectedToken {
                expected: top,
                found: la.symbol,
                line: la.line,
                column: la.column,
            },
        }
    }
}

/// The parse from a stack and a position in the input, in at most `steps`
/// steps; `trace` holds the productions applied so far.
pub open spec fn run(
    table: Map<(Name, Name), ProductionView>,
    stack: Seq<Name>,
    tokens: Seq<LookaheadView>,
    pos: int,
    steps: nat,
    trace: Seq<ProductionView>,
) -> Outcome
    decreases steps,
{
    if steps == 0 {
        Outcome::OutOfSteps
    } else {
        match step_of(table, stack, lookahead_at(tokens, pos)) {
            Move::Accept => Outcome::Accepted { trace },
            Move::Shift { stack: rest } => run(table, rest, tokens, pos + 1, (steps - 1) as nat, trace),
            Move::Expand { stack: grown, production } => run(
                table,
                grown,
                tokens,
                pos,
                (steps - 1) as nat,
                trace.push(production),
            ),
            Move::Fail { failure } => Outcome::Rejected { failure },
        }
    }
}

/// The whole parse of `tokens` in at most `steps` steps.
pub open spec fn parse_of(
    table: Map<(Name, Name), ProductionView>,
    tokens: Seq<LookaheadView>,
    steps: nat,
) -> Outcome {
    run(table, initial_stack(), tokens, 0, steps, Seq::empty())
}

/// The table is that of an LL(1) grammar whose productions have
/// nonterminals for their heads.
pub open spec fn certified(table: Map<(Name, Name), ProductionView>) -> bool {
    exists|g: Seq<ProductionView>| is_ll1(g) && heads_ok(g) && table == table_of(g)
}

/// The outcome of the whole parse of `tokens`, where it comes to an end.
pub open spec fn parse_outcome(
    table: Map<(Name, Name), ProductionView>,
    tokens: Seq<LookaheadView>,
) -> Outcome {
    parse_of(table, tokens, choose|n: nat| !(parse_of(table, tokens, n) is OutOfSteps))
}

/// A parse that ends within some steps has its outcome then, and with any
/// number of steps: either they do not suffice, or the outcome is the same.
pub proof fn lemma_outcome(
    table: Map<(Name, Name), ProductionView>,
    tokens: Seq<LookaheadView>,
    steps: nat,
)
    requires
        !(parse_of(table, tokens, steps) is OutOfSteps),
    ensures
        parse_outcome(table, tokens) == parse_of(table, tokens, steps),
        forall|n: nat|
            #![trigger parse_of(table, tokens, n)]
            parse_of(table, tokens, n) is OutOfSteps || parse_of(table, tokens, n) == parse_of(
                table,
                tokens,
                steps,
            ),
{
    let stack = initial_stack();
    assert forall|n: nat|
        #![trigger parse_of(table, tokens, n)]
        parse_of(table, tokens, n) is OutOfSteps || parse_of(table, tokens, n) == parse_of(
            table,
            tokens,
            steps,
        ) by {
        if n <= steps {
            lemma_run_ends(table, stack, tokens, 0, n, steps, Seq::empty());
        } else {
            lemma_run_ends(table, stack, tokens, 0, steps, n, Seq::empty());
        }
    }
    let chosen = choose|n: nat| !(parse_of(table, tokens, n) is OutOfSteps);
    assert(!(parse_of(table, tokens, chosen) is OutOfSteps));
}

/// What the parser did in one step.
#[derive(Debug)]
pub enum Action {
    Accept,
    Shift,
    Expand(Production),
}

/// Why the parser stopped without accepting.
#[derive(Debug)]
pub enum ParseError {
    /// The terminal on top of the stack is not the token found.
    UnexpectedTokenError { expected: Symbol, found: Symbol, line: usize, column: usize },
    /// No production of the nonterminal on top of the stack applies under
    /// the lookahead.
    NoApplicableProductionError {
        nonterminal: Symbol,
        lookahead: Symbol,
        line: usize,
        column: usize,
    },
    /// The allowed number of steps was used up.
    StepLimit,
}

/// The outcome that an error stands for.
pub open spec fn outcome_of_error(e: ParseError) -> Outcome {
    match e {
        ParseError::UnexpectedTokenError { expected, found, line, column } => Outcome::Rejected {
            failure: Failure::UnexpectedToken { expected: expected@, found: found@, line, column },
        },
        ParseError::NoApplicableProductionError {
            nonterminal,
            lookahead,
            line,
            column,
        } => Outcome::Rejected {
            failure: Failure::NoApplicableProduction {
                nonterminal: nonterminal@,
                lookahead: lookahead@,
                line,
                column,
            },
        },
        ParseError::StepLimit => Outcome::OutOfSteps,
    }
}

/// The outcome that the result of a parse stands for.
pub open spec fn outcome_of(r: Result<Vec<Production>, ParseError>) -> Outcome {
    match r {
        Ok(trace) => Outcome::Accepted { trace: views(trace@) },
        Err(e) => outcome_of_error(e),
    }
}

/// The move that the result of a step stands for, with the stack it left.
/// A step never runs out of steps; that error stands for no move of its own.
pub open spec fn move_of(r: Result<Action, ParseError>, stack: Seq<Name>) -> Move {
    match r {
        Ok(Action::Accept) => Move::Accept,
        Ok(Action::Shift) => Move::Shift { stack },
        Ok(Action::Expand(p)) => Move::Expand { stack, production: p@ },
        Err(ParseError::UnexpectedTokenError { expected, found, line, column }) => Move::Fail {
            failure: Failure::UnexpectedToken { expected: expected@, found: found@, line, column },
        },
        Err(
            ParseError::NoApplicableProductionError { nonterminal, lookahead, line, column },
        ) => Move::Fail {
            failure: Failure::NoApplicableProduction {
                nonterminal: nonterminal@,
                lookahead: lookahead@,
                line,
                column,
            },
        },
        Err(ParseError::StepLimit) => Move::Accept,
    }
}

impl Lookahead {
    /// The lookahead that stands for the exhausted token stream.
    pub fn end() -> (r: Lookahead)
        ensures
            r@ == end_view(),
    {
        Lookahead { symbol: Symbol::eof_symbol(), line: 0, column: 0 }
    }
}

/// The predictive parser: a stack machine driven by a parse table.
#[derive(Debug)]
pub struct Driver {
    pub table: AnalyzeTable,
}

impl Driver {
    pub fn new(table: AnalyzeTable) -> (r: Driver)
        ensures
            r.table == table,
    {
        Driver { table }
    }

    /// The stack a parse starts from.
    pub fn start_stack() -> (r: Vec<Symbol>)
        ensures
            names(r@) == initial_stack(),
    {
        let mut r: Vec<Symbol> = Vec::new();
        r.push(Symbol::eof_symbol());
        let start = Symbol { text: String::from_str("S") };
        proof {
            reveal_strlit("S");
            assert(start@ =~= start_name());
        }
        r.push(start);
        assert(names(r@) =~= initial_stack());
        r
    }

    /// Puts the body of a production on the stack, the last symbol first;
    /// the empty-string marker is left out.
    pub fn push_body(stack: &mut Vec<Symbol>, body: &Vec<Symbol>)
        ensures
            names(final(stack)@) == names(old(stack)@) + pushed(names(body@)),
    {
        let ghost b = names(body@);
        let mut i: usize = body.len();
        proof {
            assert(pushed_from(b, i as int) =~= Seq::empty());
            assert(names(stack@) =~= names(old(stack)@) + pushed_from(b, i as int));
        }
        while i > 0
            invariant
                i <= body.len(),
                b == names(body@),
                names(stack@) == names(old(stack)@) + pushed_from(b, i as int),
            decreases i,
        {
            let s = &body[i - 1];
            let ghost prev = stack@;
            assert(b[i - 1] == s@);
            if !s.is_empty_symbol() {
                stack.push(s.clone());
                assert(names(stack@) =~= names(prev).push(s@));
                assert(names(stack@) =~= names(old(stack)@) + pushed_from(b, i - 1));
            }
            i -= 1;
        }
    }

    /// One step of the parser on `stack` under the lookahead `la`.
    pub fn step(&self, stack: &mut Vec<Symbol>, la: &Lookahead) -> (r: Result<Action, ParseError>)
        requires
            stack_ok(names(old(stack)@)),
        ensures
            !(r matches Err(ParseError::StepLimit)),
            move_of(r, names(final(stack)@)) == step_of(self.table@, names(old(stack)@), la@),
            r is Err ==> final(stack)@ == old(stack)@,
            r matches Ok(Action::Accept) ==> final(stack)@ == old(stack)@,
            r is Ok ==> stack_ok(names(final(stack)@)),
    {
        let ghost before = names(stack@);
        let top = stack[stack.len() - 1].clone();
        assert(top@ == before.last());
        if top.is_not_end_symbol() {
            match self.table.get(&top, &la.symbol) {
                Some(p) => {
                    let production = p.clone();
                    stack.pop();
                    assert(names(stack@) =~= before.drop_last());
                    Self::push_body(stack, &production.vec);
                    assert(names(stack@)[0] == before[0]);
                    Ok(Action::Expand(production))
                },
                None => Err(
                    ParseError::NoApplicableProductionError {
                        nonterminal: top,
                        lookahead: la.symbol.clone(),
                        line: la.line,
                        column: la.column,
                    },
                ),
            }
        } else {
            let eof = Symbol::eof_symbol();
            if top == eof && la.symbol == eof {
                Ok(Action::Accept)
            } else if top == la.symbol {
                assert(stack.len() > 1) by {
                    if stack.len() == 1 {
                        assert(before.last() == before[0]);
                    }
                }
                stack.pop();
                assert(names(stack@) =~= before.drop_last());
                Ok(Action::Shift)
            } else {
                Err(
                    ParseError::UnexpectedTokenError {
                        expected: top,
                        found: la.symbol.clone(),
                        line: la.line,
                        column: la.column,
                    },
                )
            }
        }
    }

    /// Parses `tokens` from the start symbol by the table of an LL(1)
    /// grammar. On acceptance the productions applied are returned, in
    /// order. The first failure ends the parse.
    pub fn parse(&self, tokens: &Vec<Lookahead>) -> (r: Result<Vec<Production>, ParseError>)
        requires
            certified(self.table@),
        ensures
            !(r matches Err(ParseError::StepLimit)),
            outcome_of(r) == parse_outcome(self.table@, lookaheads(tokens@)),
            forall|n: nat|
                #![trigger parse_of(self.table@, lookaheads(tokens@), n)]
                parse_of(self.table@, lookaheads(tokens@), n) is OutOfSteps || parse_of(
                    self.table@,
                    lookaheads(tokens@),
                    n,
                ) == outcome_of(r),
    {
        let mut stack = Self::start_stack();
        let mut trace: Vec<Production> = Vec::new();
        let mut pos: usize = 0;
        let ghost toks = lookaheads(tokens@);
        let ghost table = self.table@;
        let ghost mut budget: nat = 0;
        let ghost mut used: nat = 0;
        proof {
            let g = choose|g: Seq<ProductionView>| is_ll1(g) && heads_ok(g) && table == table_of(g);
            budget = lemma_halts(g, names(stack@), toks, 0);
            assert(views(trace@) =~= Seq::empty());
        }
        loop
            invariant
                toks == lookaheads(tokens@),
                table == self.table@,
                stack_ok(names(stack@)),
                pos <= tokens.len(),
                halts(table, names(stack@), toks, pos as int, budget),
                forall|n: nat|
                    #![trigger parse_of(table, toks, n)]
                    n >= used ==> parse_of(table, toks, n) == run(
                        table,
                        names(stack@),
                        toks,
                        pos as int,
                        (n - used) as nat,
                        views(trace@),
                    ),
            decreases budget,
        {
            let la = if pos < tokens.len() {
                tokens[pos].clone()
            } else {
                Lookahead::end()
            };
            assert(la@ == lookahead_at(toks, pos as int));
            let ghost before = names(stack@);
            let ghost so_far = views(trace@);
            let ghost at = pos as int;
            let result = self.step(&mut stack, &la);
            proof {
                assert forall|n: nat| n > used implies #[trigger] parse_of(table, toks, n) == match step_of(
                    table,
                    before,
                    la@,
                ) {
                    Move::Accept => Outcome::Accepted { trace: so_far },
                    Move::Shift { stack: rest } => run(
                        table,
                        rest,
                        toks,
                        at + 1,
                        (n - used - 1) as nat,
                        so_far,
                    ),
                    Move::Expand { stack: grown, production } => run(
                        table,
                        grown,
                        toks,
                        at,
                        (n - used - 1) as nat,
                        so_far.push(production),
                    ),
                    Move::Fail { failure } => Outcome::Rejected { failure },
                } by {
                    assert(parse_of(table, toks, n) == run(
                        table,
                        before,
                        toks,
                        at,
                        (n - used) as nat,
                        so_far,
                    ));
                }
            }
            match result {
                Ok(Action::Accept) => {
                    proof {
                        lemma_outcome(table, toks, (used + 1) as nat);
                    }
                    return Ok(trace);
                },
                Ok(Action::Shift) => {
                    assert(pos < tokens.len()) by {
                        if pos >= tokens.len() {
                            assert(la@.symbol == eof_name());
                        }
                    }
                    pos += 1;
                },
                Ok(Action::Expand(p)) => {
                    let ghost pv = p@;
                    trace.push(p);
                    assert(views(trace@) =~= so_far.push(pv));
                },
                Err(e) => {
                    proof {
                        lemma_outcome(table, toks, (used + 1) as nat);
                    }
                    return Err(e);
                },
            }
            proof {
                budget = (budget - 1) as nat;
                used = used + 1;
            }
        }
    }

    /// Parses `tokens` from the start symbol in at most `max_steps` steps,
    /// by any table. On acceptance the productions applied are returned, in
    /// order. The first failure ends the parse.
    pub fn parse_within(&self, tokens: &Vec<Lookahead>, max_steps: usize) -> (r: Result<
        Vec<Production>,
        ParseError,
    >)
        ensures
            outcome_of(r) == parse_of(self.table@, lookaheads(tokens@), max_steps as nat),
    {
        let mut stack = Self::start_stack();
        let mut trace: Vec<Production> = Vec::new();
        let mut pos: usize = 0;
        let mut steps: usize = max_steps;
        let ghost toks = lookaheads(tokens@);
        let ghost goal = parse_of(self.table@, toks, max_steps as nat);
        assert(views(trace@) =~= Seq::empty());
        while steps > 0
            invariant
                toks == lookaheads(tokens@),
                goal == parse_of(self.table@, toks, max_steps as nat),
                stack_ok(names(stack@)),
                pos <= tokens.len(),
                goal == run(self.table@, names(stack@), toks, pos as int, steps as nat, views(trace@)),
            decreases steps,
        {
            let la = if pos < tokens.len() {
                tokens[pos].clone()
            } else {
                Lookahead::end()
            };
            assert(la@ == lookahead_at(toks, pos as int));
            let ghost so_far = views(trace@);
            match self.step(&mut stack, &la) {
                Ok(Action::Accept) => {
                    return Ok(trace);
                },
                Ok(Action::Shift) => {
                    assert(pos < tokens.len()) by {
                        if pos >= tokens.len() {
                            assert(la@.symbol == eof_name());
                        }
                    }
                    pos += 1;
                },
                Ok(Action::Expand(p)) => {
                    let ghost pv = p@;
                    trace.push(p);
                    assert(views(trace@) =~= so_far.push(pv));
                },
                Err(e) => {
                    return Err(e);
                },
            }
            steps -= 1;
        }
        Err(ParseError::StepLimit)
    }
}

} // verus!
