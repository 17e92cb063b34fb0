use crate::driver::{
    initial_stack, lemma_outcome, lookahead_at, parse_of, parse_outcome, pushed, pushed_from,
    run, step_of, LookaheadView, Move, Outcome,
};
use crate::first::{first_within, in_first, lemma_first_step, prefix_vanishes};
use crate::follow::{follow_within, follows, in_follow, span_vanishes, trailing_first};
use crate::nullable::{body_vanishes, derives_empty, lemma_vanishing_body, vanishes};
use crate::rules::start_name;
use crate::select::{body_first, in_select};
use crate::symbol::{empty_name, eof_name, is_nonterminal, Name, ProductionView};
use crate::table::{chooses, lemma_one_choice, table_of};
use crate::validate::is_ll1;
use vstd::prelude::*;

verus! {

/// The terminals that a run of tokens stands for.
pub open spec fn symbols_of(tokens: Seq<LookaheadView>) -> Seq<Name> {
    Seq::new(tokens.len(), |i: int| tokens[i].symbol)
}

/// `trace` is a leftmost derivation of `input` from the symbols of `stack`,
/// read from the top down to the end-of-input marker at the bottom: a
/// nonterminal on top is replaced by the body of the next production of the
/// trace, which must be one of its own; a terminal on top is the next symbol
/// of the input; at the marker both the trace and the input are used up.
pub open spec fn replays(
    g: Seq<ProductionView>,
    stack: Seq<Name>,
    trace: Seq<ProductionView>,
    input: Seq<Name>,
) -> bool
    decreases trace.len() + input.len(),
{
    if stack.len() == 0 {
        false
    } else if is_nonterminal(stack.last()) {
        trace.len() > 0 && g.contains(trace[0]) && trace[0].head == stack.last() && replays(
            g,
            stack.drop_last() + pushed(trace[0].body),
            trace.skip(1),
            input,
        )
    } else if stack.last() == eof_name() {
        stack.len() == 1 && trace.len() == 0 && input.len() == 0
    } else {
        input.len() > 0 && input[0] == stack.last() && replays(
            g,
            stack.drop_last(),
            trace,
            input.skip(1),
        )
    }
}

/// `trace` is a leftmost derivation of `input` from the start symbol.
pub open spec fn derives(g: Seq<ProductionView>, trace: Seq<ProductionView>, input: Seq<Name>) -> bool {
    replays(g, initial_stack(), trace, input)
}

/// The next symbol of the input, or the end-of-input marker behind it.
pub open spec fn next_name(input: Seq<Name>) -> Name {
    if input.len() > 0 {
        input[0]
    } else {
        eof_name()
    }
}

/// Every symbol of the stack above position `i` derives the empty string.
pub open spec fn above_vanish(g: Seq<ProductionView>, stack: Seq<Name>, i: int) -> bool {
    forall|j: int| #![trigger stack[j]] i < j < stack.len() ==> vanishes(g, stack[j])
}

/// `u` can begin what the stack derives: it belongs to the first set of a
/// symbol of the stack above which every symbol derives the empty string.
pub open spec fn stack_first(g: Seq<ProductionView>, stack: Seq<Name>, u: Name) -> bool {
    exists|i: int|
        #![trigger stack[i]]
        0 <= i < stack.len() && above_vanish(g, stack, i) && in_first(g, stack[i], u)
}

/// The stack holds no empty-string marker.
pub open spec fn no_empty(stack: Seq<Name>) -> bool {
    forall|i: int| #![trigger stack[i]] 0 <= i < stack.len() ==> stack[i] != empty_name()
}

/// Whatever can begin the part of the stack below a nonterminal follows
/// that nonterminal.
pub open spec fn linked(g: Seq<ProductionView>, stack: Seq<Name>) -> bool {
    forall|a: int, u: Name|
        #![trigger stack_first(g, stack.take(a), u)]
        0 <= a < stack.len() && is_nonterminal(stack[a]) && u != empty_name() && stack_first(
            g,
            stack.take(a),
            u,
        ) ==> in_follow(g, stack[a], u)
}

pub proof fn lemma_pushed_no_empty(body: Seq<Name>, i: int)
    requires
        0 <= i <= body.len(),
    ensures
        no_empty(pushed_from(body, i)),
    decreases body.len() - i,
{
    if i < body.len() {
        lemma_pushed_no_empty(body, i + 1);
    }
}

/// What can begin a stack topped by the symbols of a body from `i` on
/// trails position `i - 1` of the body, or begins the rest of the stack
/// behind a vanishing tail of the body.
pub proof fn lemma_pushed_first(
    g: Seq<ProductionView>,
    rest: Seq<Name>,
    body: Seq<Name>,
    i: int,
    u: Name,
)
    requires
        0 <= i <= body.len(),
        stack_first(g, rest + pushed_from(body, i), u),
    ensures
        trailing_first(g, body, i, u) || (span_vanishes(g, body, i, body.len() as int)
            && stack_first(g, rest, u)),
    decreases body.len() - i,
{
    let len = body.len() as int;
    if i == len {
        assert(rest + pushed_from(body, i) =~= rest);
    } else if body[i] == empty_name() {
        lemma_pushed_first(g, rest, body, i + 1, u);
        assert(derives_empty(g, body[i], 0));
        assert(vanishes(g, body[i]));
        if trailing_first(g, body, i + 1, u) {
            let q = choose|q: int|
                #![trigger body[q]]
                i + 1 <= q < body.len() && span_vanishes(g, body, i + 1, q) && body[q]
                    != empty_name() && in_first(g, body[q], u);
            assert(span_vanishes(g, body, i, q));
            assert(body[q] != empty_name() && in_first(g, body[q], u));
        } else {
            assert(span_vanishes(g, body, i, len));
        }
    } else {
        let x = body[i];
        let s = rest + pushed_from(body, i + 1);
        let stack = rest + pushed_from(body, i);
        assert(stack =~= s.push(x));
        let w = choose|w: int|
            #![trigger stack[w]]
            0 <= w < stack.len() && above_vanish(g, stack, w) && in_first(g, stack[w], u);
        if w == s.len() {
            assert(span_vanishes(g, body, i, i));
            assert(body[i] != empty_name() && in_first(g, body[i], u));
            assert(trailing_first(g, body, i, u));
        } else {
            assert(vanishes(g, stack[s.len() as int]));
            assert(above_vanish(g, s, w)) by {
                assert forall|j: int| #![trigger s[j]] w < j < s.len() implies vanishes(
                    g,
                    s[j],
                ) by {
                    assert(stack[j] == s[j]);
                }
            }
            assert(s[w] == stack[w]);
            assert(stack_first(g, s, u));
            lemma_pushed_first(g, rest, body, i + 1, u);
            if trailing_first(g, body, i + 1, u) {
                let q = choose|q: int|
                    #![trigger body[q]]
                    i + 1 <= q < body.len() && span_vanishes(g, body, i + 1, q) && body[q]
                        != empty_name() && in_first(g, body[q], u);
                assert(span_vanishes(g, body, i, q));
                assert(body[q] != empty_name() && in_first(g, body[q], u));
            } else {
                assert(span_vanishes(g, body, i, len));
            }
        }
    }
}

/// A stack stays linked when the nonterminal on top gives way to the
/// symbols of the body of one of its productions.
pub proof fn lemma_pushed_linked(g: Seq<ProductionView>, rest: Seq<Name>, k: int, i: int)
    requires
        0 <= k < g.len(),
        0 <= i <= g[k].body.len(),
        linked(g, rest.push(g[k].head)),
        is_nonterminal(g[k].head),
        no_empty(rest),
    ensures
        linked(g, rest + pushed_from(g[k].body, i)),
        no_empty(rest + pushed_from(g[k].body, i)),
    decreases g[k].body.len() - i,
{
    let body = g[k].body;
    let head = g[k].head;
    let len = body.len() as int;
    let old_stack = rest.push(head);
    let stack = rest + pushed_from(body, i);
    lemma_pushed_no_empty(body, i);
    assert(no_empty(stack)) by {
        assert forall|j: int| #![trigger stack[j]] 0 <= j < stack.len() implies stack[j]
            != empty_name() by {
            if j < rest.len() {
                assert(rest[j] != empty_name());
            } else {
                assert(pushed_from(body, i)[j - rest.len()] != empty_name());
            }
        }
    }
    if i == len {
        assert(stack =~= rest);
        assert forall|a: int, u: Name|
            #![trigger stack_first(g, stack.take(a), u)]
            0 <= a < stack.len() && is_nonterminal(stack[a]) && u != empty_name() && stack_first(
                g,
                stack.take(a),
                u,
            ) implies in_follow(g, stack[a], u) by {
            assert(old_stack.take(a) =~= stack.take(a));
            assert(old_stack[a] == stack[a]);
            assert(stack_first(g, old_stack.take(a), u));
        }
    } else {
        lemma_pushed_linked(g, rest, k, i + 1);
        let s = rest + pushed_from(body, i + 1);
        if body[i] != empty_name() {
            let x = body[i];
            assert(stack =~= s.push(x));
            assert forall|a: int, u: Name|
                #![trigger stack_first(g, stack.take(a), u)]
                0 <= a < stack.len() && is_nonterminal(stack[a]) && u != empty_name()
                    && stack_first(g, stack.take(a), u) implies in_follow(g, stack[a], u) by {
                if a < s.len() {
                    assert(stack.take(a) =~= s.take(a));
                    assert(stack[a] == s[a]);
                    assert(stack_first(g, s.take(a), u));
                } else {
                    assert(stack.take(a) =~= s);
                    lemma_pushed_first(g, rest, body, i + 1, u);
                    if trailing_first(g, body, i + 1, u) {
                        assert(g[k].body[i] == x);
                        assert(follow_within(g, x, u, 1));
                    } else {
                        assert(old_stack.take(rest.len() as int) =~= rest);
                        assert(stack_first(g, old_stack.take(rest.len() as int), u));
                        assert(old_stack[rest.len() as int] == head);
                        assert(in_follow(g, head, u));
                        let n = choose|n: nat| follow_within(g, head, u, n);
                        assert(g[k].body[i] == x);
                        assert(follow_within(g, x, u, n + 1));
                    }
                    assert(follows(g, x, u));
                }
            }
        } else {
            assert(stack =~= s);
        }
    }
}

/// The next symbol of the input can begin what the stack derives.
pub proof fn lemma_replay_first(
    g: Seq<ProductionView>,
    stack: Seq<Name>,
    trace: Seq<ProductionView>,
    input: Seq<Name>,
)
    requires
        replays(g, stack, trace, input),
    ensures
        stack_first(g, stack, next_name(input)),
    decreases trace.len() + input.len(),
{
    let top = stack.last();
    let la = next_name(input);
    let t = stack.len() - 1;
    if is_nonterminal(top) {
        let p = trace[0];
        let rest = stack.drop_last();
        let k = choose|k: int| 0 <= k < g.len() && g[k] == p;
        lemma_replay_first(g, rest + pushed(p.body), trace.skip(1), input);
        lemma_pushed_first(g, rest, p.body, 0, la);
        if trailing_first(g, p.body, 0, la) {
            let q = choose|q: int|
                #![trigger p.body[q]]
                0 <= q < p.body.len() && span_vanishes(g, p.body, 0, q) && p.body[q]
                    != empty_name() && in_first(g, p.body[q], la);
            assert(prefix_vanishes(g, p.body, q));
            lemma_first_step(g, k, q, la);
            assert(above_vanish(g, stack, t));
            assert(in_first(g, stack[t], la));
        } else {
            assert(body_vanishes(g, p.body));
            lemma_vanishing_body(g, k);
            let w = choose|w: int|
                #![trigger rest[w]]
                0 <= w < rest.len() && above_vanish(g, rest, w) && in_first(g, rest[w], la);
            assert(above_vanish(g, stack, w)) by {
                assert forall|j: int| #![trigger stack[j]] w < j < stack.len() implies vanishes(
                    g,
                    stack[j],
                ) by {
                    if j < rest.len() {
                        assert(rest[j] == stack[j]);
                    }
                }
            }
            assert(stack[w] == rest[w]);
        }
    } else if top == eof_name() {
        assert(first_within(g, stack[t], la, 0));
        assert(above_vanish(g, stack, t));
        assert(in_first(g, stack[t], la));
    } else {
        assert(first_within(g, stack[t], la, 0));
        assert(above_vanish(g, stack, t));
        assert(in_first(g, stack[t], la));
    }
}

/// The next symbol of the input is never the empty-string marker.
pub proof fn lemma_replay_next(
    g: Seq<ProductionView>,
    stack: Seq<Name>,
    trace: Seq<ProductionView>,
    input: Seq<Name>,
)
    requires
        replays(g, stack, trace, input),
        no_empty(stack),
    ensures
        next_name(input) != empty_name(),
    decreases trace.len() + input.len(),
{
    let top = stack.last();
    if is_nonterminal(top) {
        let p = trace[0];
        let rest = stack.drop_last();
        let grown = rest + pushed(p.body);
        lemma_pushed_no_empty(p.body, 0);
        assert(no_empty(grown)) by {
            assert forall|j: int| #![trigger grown[j]] 0 <= j < grown.len() implies grown[j]
                != empty_name() by {
                if j < rest.len() {
                    assert(stack[j] != empty_name());
                } else {
                    assert(pushed(p.body)[j - rest.len()] != empty_name());
                }
            }
        }
        lemma_replay_next(g, grown, trace.skip(1), input);
    } else if top == eof_name() {
        assert(eof_name()[0] != empty_name()[0]);
    } else {
        assert(stack[stack.len() - 1] != empty_name());
    }
}

/// The parser follows a leftmost derivation step by step.
pub proof fn lemma_run_replays(
    g: Seq<ProductionView>,
    stack: Seq<Name>,
    trace: Seq<ProductionView>,
    tokens: Seq<LookaheadView>,
    pos: int,
    steps: nat,
    done: Seq<ProductionView>,
)
    requires
        is_ll1(g),
        0 <= pos <= tokens.len(),
        replays(g, stack, trace, symbols_of(tokens).skip(pos)),
        linked(g, stack),
        no_empty(stack),
        steps > trace.len() + tokens.len() - pos,
    ensures
        run(table_of(g), stack, tokens, pos, steps, done) == (Outcome::Accepted {
            trace: done + trace,
        }),
    decreases trace.len() + tokens.len() - pos,
{
    let table = table_of(g);
    let input = symbols_of(tokens).skip(pos);
    let top = stack.last();
    let la = lookahead_at(tokens, pos);
    assert(la.symbol == next_name(input));
    if is_nonterminal(top) {
        let p = trace[0];
        let rest = stack.drop_last();
        let grown = rest + pushed(p.body);
        let k = choose|k: int| 0 <= k < g.len() && g[k] == p;
        assert(stack =~= rest.push(p.head));
        assert(no_empty(rest)) by {
            assert forall|j: int| #![trigger rest[j]] 0 <= j < rest.len() implies rest[j]
                != empty_name() by {
                assert(stack[j] != empty_name());
            }
        }
        lemma_pushed_linked(g, rest, k, 0);
        lemma_replay_first(g, grown, trace.skip(1), input);
        lemma_replay_next(g, grown, trace.skip(1), input);
        lemma_pushed_first(g, rest, p.body, 0, la.symbol);
        if trailing_first(g, p.body, 0, la.symbol) {
            let q = choose|q: int|
                #![trigger p.body[q]]
                0 <= q < p.body.len() && span_vanishes(g, p.body, 0, q) && p.body[q]
                    != empty_name() && in_first(g, p.body[q], la.symbol);
            assert(prefix_vanishes(g, p.body, q));
            assert(body_first(g, p.body, la.symbol));
        } else {
            assert(prefix_vanishes(g, p.body, p.body.len() as int));
            assert(stack.take(rest.len() as int) =~= rest);
            assert(stack_first(g, stack.take(rest.len() as int), la.symbol));
            assert(stack[rest.len() as int] == top);
            assert(in_follow(g, top, la.symbol));
        }
        assert(in_select(g, p, la.symbol));
        let key = (top, la.symbol);
        assert(chooses(g, key, k));
        let c = choose|c: int| chooses(g, key, c);
        lemma_one_choice(g, key, c, k);
        assert(table.contains_key(key));
        assert(table[key] == p);
        assert(step_of(table, stack, la) == (Move::Expand { stack: grown, production: p }));
        lemma_run_replays(g, grown, trace.skip(1), tokens, pos, (steps - 1) as nat, done.push(p));
        assert(done.push(p) + trace.skip(1) =~= done + trace);
    } else if top == eof_name() {
        assert(step_of(table, stack, la) == Move::Accept);
        assert(done + trace =~= done);
    } else {
        let rest = stack.drop_last();
        assert(input[0] == tokens[pos].symbol);
        assert(step_of(table, stack, la) == (Move::Shift { stack: rest }));
        assert(input.skip(1) =~= symbols_of(tokens).skip(pos + 1));
        assert(linked(g, rest)) by {
            assert forall|a: int, u: Name|
                #![trigger stack_first(g, rest.take(a), u)]
                0 <= a < rest.len() && is_nonterminal(rest[a]) && u != empty_name()
                    && stack_first(g, rest.take(a), u) implies in_follow(g, rest[a], u) by {
                assert(stack.take(a) =~= rest.take(a));
                assert(stack[a] == rest[a]);
                assert(stack_first(g, stack.take(a), u));
            }
        }
        assert(no_empty(rest)) by {
            assert forall|j: int| #![trigger rest[j]] 0 <= j < rest.len() implies rest[j]
                != empty_name() by {
                assert(stack[j] != empty_name());
            }
        }
        lemma_run_replays(g, rest, trace, tokens, pos + 1, (steps - 1) as nat, done);
    }
}

/// The parser reproduces every leftmost derivation of an LL(1) grammar:
/// driven by the table of the grammar over the tokens that the derivation
/// yields, it accepts, and the productions it applies are those of the
/// derivation, in order. It needs one step for each production, one for
/// each token, and one to accept.
pub proof fn lemma_parse_reproduces_derivation(
    g: Seq<ProductionView>,
    trace: Seq<ProductionView>,
    tokens: Seq<LookaheadView>,
    steps: nat,
)
    requires
        is_ll1(g),
        derives(g, trace, symbols_of(tokens)),
        steps > trace.len() + tokens.len(),
    ensures
        parse_of(table_of(g), tokens, steps) == (Outcome::Accepted { trace }),
{
    let stack = initial_stack();
    assert(symbols_of(tokens).skip(0) =~= symbols_of(tokens));
    assert(no_empty(stack)) by {
        assert(eof_name()[0] != empty_name()[0]);
        assert(start_name()[0] != empty_name()[0]);
    }
    assert(linked(g, stack)) by {
        assert forall|a: int, u: Name|
            #![trigger stack_first(g, stack.take(a), u)]
            0 <= a < stack.len() && is_nonterminal(stack[a]) && u != empty_name() && stack_first(
                g,
                stack.take(a),
                u,
            ) implies in_follow(g, stack[a], u) by {
            let below = stack.take(a);
            let w = choose|w: int|
                #![trigger below[w]]
                0 <= w < below.len() && above_vanish(g, below, w) && in_first(g, below[w], u);
            assert(below[w] == stack[w]);
            assert(eof_name()[0] != empty_name()[0]);
            assert(!is_nonterminal(eof_name()));
            assert(a == 1 && w == 0);
            let n = choose|n: nat| first_within(g, eof_name(), u, n);
            assert(u == eof_name());
            assert(follow_within(g, start_name(), eof_name(), 0));
            assert(follows(g, stack[a], u));
        }
    }
    lemma_run_replays(g, stack, trace, tokens, 0, steps, Seq::empty());
    assert(Seq::<ProductionView>::empty() + trace =~= trace);
}

/// The outcome of the parse of the tokens that a leftmost derivation of an
/// LL(1) grammar yields is acceptance with the productions of the
/// derivation.
pub proof fn lemma_parse_outcome_is_derivation(
    g: Seq<ProductionView>,
    trace: Seq<ProductionView>,
    tokens: Seq<LookaheadView>,
)
    requires
        is_ll1(g),
        derives(g, trace, symbols_of(tokens)),
    ensures
        parse_outcome(table_of(g), tokens) == (Outcome::Accepted { trace }),
{
    let steps = (trace.len() + tokens.len() + 1) as nat;
    lemma_parse_reproduces_derivation(g, trace, tokens, steps);
    lemma_outcome(table_of(g), tokens, steps);
}

} // verus!
