use crate::driver::{
    lookahead_at, parse_of, pushed, pushed_from, run, stack_ok, step_of, LookaheadView, Move,
    Outcome,
};
use crate::first::{first_within, in_first, lemma_first_step, prefix_vanishes};
use crate::follow::{follow_within, follows, in_follow, span_vanishes, trailing_first};
use crate::nullable::{
    body_vanishes, derives_empty, lemma_derives_empty_mono, lemma_vanishing_body, vanishes,
};
use crate::select::{body_first, in_select};
use crate::symbol::{empty_name, eof_name, is_nonterminal, Name, ProductionView};
use crate::table::{chooses, lemma_one_choice, table_of};
use crate::validate::is_ll1;
use vstd::prelude::*;

verus! {

/// Every production has a nonterminal for its head.
pub open spec fn heads_ok(g: Seq<ProductionView>) -> bool {
    forall|k: int| 0 <= k < g.len() ==> is_nonterminal(#[trigger] g[k].head)
}

/// The parse from a stack and a position in the input ends within `steps`
/// steps: it accepts or fails.
pub open spec fn halts(
    table: Map<(Name, Name), ProductionView>,
    stack: Seq<Name>,
    tokens: Seq<LookaheadView>,
    pos: int,
    steps: nat,
) -> bool
    decreases steps,
{
    steps > 0 && match step_of(table, stack, lookahead_at(tokens, pos)) {
        Move::Accept => true,
        Move::Shift { stack: rest } => halts(table, rest, tokens, pos + 1, (steps - 1) as nat),
        Move::Expand { stack: grown, .. } => halts(table, grown, tokens, pos, (steps - 1) as nat),
        Move::Fail { .. } => true,
    }
}

/// Under the lookahead `la` the parser comes from the stack `before` to
/// the stack `after` by `n` expansions.
pub open spec fn expands_to(
    table: Map<(Name, Name), ProductionView>,
    before: Seq<Name>,
    after: Seq<Name>,
    la: LookaheadView,
    n: nat,
) -> bool
    decreases n,
{
    if n == 0 {
        before == after
    } else {
        step_of(table, before, la) matches Move::Expand { stack, .. } && expands_to(
            table,
            stack,
            after,
            la,
            (n - 1) as nat,
        )
    }
}

pub proof fn lemma_expands_twice(
    table: Map<(Name, Name), ProductionView>,
    a: Seq<Name>,
    b: Seq<Name>,
    c: Seq<Name>,
    la: LookaheadView,
    n: nat,
    m: nat,
)
    requires
        expands_to(table, a, b, la, n),
        expands_to(table, b, c, la, m),
    ensures
        expands_to(table, a, c, la, n + m),
    decreases n,
{
    if n > 0 {
        let next = step_of(table, a, la)->Expand_stack;
        lemma_expands_twice(table, next, b, c, la, (n - 1) as nat, m);
    }
}

/// A parse that ends behind some expansions ends before them too, in as
/// many steps more.
pub proof fn lemma_halts_behind(
    table: Map<(Name, Name), ProductionView>,
    before: Seq<Name>,
    after: Seq<Name>,
    tokens: Seq<LookaheadView>,
    pos: int,
    n: nat,
    steps: nat,
)
    requires
        expands_to(table, before, after, lookahead_at(tokens, pos), n),
        halts(table, after, tokens, pos, steps),
    ensures
        halts(table, before, tokens, pos, steps + n),
    decreases n,
{
    if n > 0 {
        let next = step_of(table, before, lookahead_at(tokens, pos))->Expand_stack;
        lemma_halts_behind(table, next, after, tokens, pos, (n - 1) as nat, steps);
    }
}

/// A parse that ends within some steps ends within any greater number, with
/// the same outcome.
pub proof fn lemma_run_ends(
    table: Map<(Name, Name), ProductionView>,
    stack: Seq<Name>,
    tokens: Seq<LookaheadView>,
    pos: int,
    steps: nat,
    more: nat,
    trace: Seq<ProductionView>,
)
    requires
        steps <= more,
    ensures
        halts(table, stack, tokens, pos, steps) <==> !(run(table, stack, tokens, pos, steps, trace)
            is OutOfSteps),
        halts(table, stack, tokens, pos, steps) ==> run(table, stack, tokens, pos, more, trace)
            == run(table, stack, tokens, pos, steps, trace),
    decreases steps,
{
    if steps > 0 {
        match step_of(table, stack, lookahead_at(tokens, pos)) {
            Move::Shift { stack: rest } => {
                lemma_run_ends(
                    table,
                    rest,
                    tokens,
                    pos + 1,
                    (steps - 1) as nat,
                    (more - 1) as nat,
                    trace,
                );
            },
            Move::Expand { stack: grown, production } => {
                lemma_run_ends(
                    table,
                    grown,
                    tokens,
                    pos,
                    (steps - 1) as nat,
                    (more - 1) as nat,
                    trace.push(production),
                );
            },
            _ => {},
        }
    }
}

/// The production that the table of an LL(1) grammar holds under the head
/// of a production and a symbol of its select set is that production.
pub proof fn lemma_table_entry(g: Seq<ProductionView>, k: int, a: Name)
    requires
        is_ll1(g),
        0 <= k < g.len(),
        in_select(g, g[k], a),
    ensures
        table_of(g).contains_key((g[k].head, a)),
        table_of(g)[(g[k].head, a)] == g[k],
{
    let key = (g[k].head, a);
    assert(chooses(g, key, k));
    let c = choose|c: int| chooses(g, key, c);
    lemma_one_choice(g, key, c, k);
}

/// A symbol that derives the empty string and is not the empty-string
/// marker is the head of a production.
pub proof fn lemma_vanishing_head(g: Seq<ProductionView>, x: Name, h: nat)
    requires
        heads_ok(g),
        derives_empty(g, x, h),
        x != empty_name(),
    ensures
        is_nonterminal(x),
        h > 0,
{
    let k = choose|k: int|
        #![trigger g[k]]
        0 <= k < g.len() && g[k].head == x && forall|m: int|
            #![trigger g[k].body[m]]
            0 <= m < g[k].body.len() ==> derives_empty(g, g[k].body[m], (h - 1) as nat);
    assert(is_nonterminal(g[k].head));
}

/// Under a lookahead that follows it, a nonterminal that derives the empty
/// string leaves the stack by expansions alone.
pub proof fn lemma_vanish_run(
    g: Seq<ProductionView>,
    rest: Seq<Name>,
    x: Name,
    la: LookaheadView,
    h: nat,
) -> (n: nat)
    requires
        is_ll1(g),
        heads_ok(g),
        la.symbol != empty_name(),
        x != empty_name(),
        derives_empty(g, x, h),
        follows(g, x, la.symbol),
    ensures
        expands_to(table_of(g), rest.push(x), rest, la, n),
    decreases h, 0int, 0int,
{
    let a = la.symbol;
    lemma_vanishing_head(g, x, h);
    let k = choose|k: int|
        #![trigger g[k]]
        0 <= k < g.len() && g[k].head == x && forall|m: int|
            #![trigger g[k].body[m]]
            0 <= m < g[k].body.len() ==> derives_empty(g, g[k].body[m], (h - 1) as nat);
    let body = g[k].body;
    let len = body.len() as int;
    assert forall|m: int| #![trigger body[m]] 0 <= m < len implies vanishes(g, body[m]) by {
        assert(derives_empty(g, g[k].body[m], (h - 1) as nat));
    }
    assert(prefix_vanishes(g, body, len));
    assert(in_select(g, g[k], a));
    lemma_table_entry(g, k, a);
    let stack = rest.push(x);
    assert(stack.drop_last() =~= rest);
    assert(step_of(table_of(g), stack, la) == (Move::Expand {
        stack: rest + pushed(body),
        production: g[k],
    }));
    let fn_follow = choose|f: nat| follow_within(g, x, a, f);
    assert forall|m: int|
        #![trigger body[m]]
        0 <= m < len && body[m] != empty_name() implies follows(g, body[m], a) by {
        assert(derives_empty(g, g[k].body[m], (h - 1) as nat));
        lemma_vanishing_head(g, body[m], (h - 1) as nat);
        assert(span_vanishes(g, body, m + 1, len));
        assert(g[k].body[m] == body[m]);
        assert(follow_within(g, body[m], a, fn_follow + 1));
    }
    let n = lemma_vanish_span(g, rest, body, 0, len, la, (h - 1) as nat);
    assert(pushed_from(body, len) =~= Seq::empty());
    assert(rest + pushed_from(body, len) =~= rest);
    n + 1
}

/// Under a lookahead that follows them, the symbols of a body from `i` up
/// to, not including, `m` leave the stack by expansions alone, if each of
/// them derives the empty string.
pub proof fn lemma_vanish_span(
    g: Seq<ProductionView>,
    rest: Seq<Name>,
    body: Seq<Name>,
    i: int,
    m: int,
    la: LookaheadView,
    h: nat,
) -> (n: nat)
    requires
        is_ll1(g),
        heads_ok(g),
        la.symbol != empty_name(),
        0 <= i <= m <= body.len(),
        forall|j: int| #![trigger body[j]] i <= j < m ==> derives_empty(g, body[j], h),
        forall|j: int|
            #![trigger body[j]]
            i <= j < m && body[j] != empty_name() ==> follows(g, body[j], la.symbol),
    ensures
        expands_to(
            table_of(g),
            rest + pushed_from(body, i),
            rest + pushed_from(body, m),
            la,
            n,
        ),
    decreases h, 1int, m - i,
{
    if i == m {
        0
    } else {
        let n2 = lemma_vanish_span(g, rest, body, i + 1, m, la, h);
        let below = rest + pushed_from(body, i + 1);
        if body[i] == empty_name() {
            assert(rest + pushed_from(body, i) =~= below);
            n2
        } else {
            assert(rest + pushed_from(body, i) =~= below.push(body[i]));
            let n1 = lemma_vanish_run(g, below, body[i], la, h);
            lemma_expands_twice(
                table_of(g),
                below.push(body[i]),
                below,
                rest + pushed_from(body, m),
                la,
                n1,
                n2,
            );
            n1 + n2
        }
    }
}

/// A height within which each of the first `m` symbols of a body derives
/// the empty string.
pub proof fn lemma_prefix_height(g: Seq<ProductionView>, body: Seq<Name>, m: int) -> (h: nat)
    requires
        0 <= m <= body.len(),
        prefix_vanishes(g, body, m),
    ensures
        forall|j: int| #![trigger body[j]] 0 <= j < m ==> derives_empty(g, body[j], h),
    decreases m,
{
    if m == 0 {
        0
    } else {
        let h0 = lemma_prefix_height(g, body, m - 1);
        let x = body[m - 1];
        assert(vanishes(g, x));
        let h1 = choose|n: nat| derives_empty(g, x, n);
        let h = if h0 >= h1 {
            h0
        } else {
            h1
        };
        assert forall|j: int| #![trigger body[j]] 0 <= j < m implies derives_empty(
            g,
            body[j],
            h,
        ) by {
            if j < m - 1 {
                lemma_derives_empty_mono(g, body[j], h0, h);
            } else {
                lemma_derives_empty_mono(g, body[j], h1, h);
            }
        }
        h
    }
}

/// Under a lookahead that belongs to its first set, a nonterminal gives
/// way, by expansions alone, to a stack with the lookahead on top.
pub proof fn lemma_first_run(
    g: Seq<ProductionView>,
    rest: Seq<Name>,
    x: Name,
    la: LookaheadView,
    r: nat,
) -> (found: (nat, Seq<Name>))
    requires
        is_ll1(g),
        heads_ok(g),
        la.symbol != empty_name(),
        is_nonterminal(x),
        first_within(g, x, la.symbol, r),
    ensures
        expands_to(table_of(g), rest.push(x), (rest + found.1).push(la.symbol), la, found.0),
    decreases r,
{
    let a = la.symbol;
    let (k, m) = choose|k: int, m: int|
        #![trigger g[k].body[m]]
        0 <= k < g.len() && g[k].head == x && 0 <= m < g[k].body.len() && prefix_vanishes(
            g,
            g[k].body,
            m,
        ) && first_within(g, g[k].body[m], a, (r - 1) as nat);
    let body = g[k].body;
    let len = body.len() as int;
    assert(in_first(g, body[m], a));
    assert(body_first(g, body, a));
    assert(in_select(g, g[k], a));
    lemma_table_entry(g, k, a);
    let stack = rest.push(x);
    assert(stack.drop_last() =~= rest);
    assert(step_of(table_of(g), stack, la) == (Move::Expand {
        stack: rest + pushed(body),
        production: g[k],
    }));
    assert(body[m] != empty_name()) by {
        if body[m] == empty_name() {
            assert(!is_nonterminal(empty_name()));
        }
    }
    let h = lemma_prefix_height(g, body, m);
    assert forall|j: int|
        #![trigger body[j]]
        0 <= j < m && body[j] != empty_name() implies follows(g, body[j], a) by {
        lemma_vanishing_head(g, body[j], h);
        assert(span_vanishes(g, body, j + 1, m));
        assert(trailing_first(g, body, j + 1, a));
        assert(g[k].body[j] == body[j]);
        assert(follow_within(g, body[j], a, 1));
    }
    let n1 = lemma_vanish_span(g, rest, body, 0, m, la, h);
    let below = rest + pushed_from(body, m + 1);
    assert(rest + pushed_from(body, m) =~= below.push(body[m]));
    if is_nonterminal(body[m]) {
        let (n2, extra) = lemma_first_run(g, below, body[m], la, (r - 1) as nat);
        let total = pushed_from(body, m + 1) + extra;
        assert(below + extra =~= rest + total);
        lemma_expands_twice(
            table_of(g),
            rest + pushed(body),
            below.push(body[m]),
            (rest + total).push(a),
            la,
            n1,
            n2,
        );
        ((n1 + n2 + 1) as nat, total)
    } else {
        assert(body[m] == a);
        ((n1 + 1) as nat, pushed_from(body, m + 1))
    }
}

/// Driven by the table of an LL(1) grammar, the parser comes to an end from
/// every stack and every position in the input.
pub proof fn lemma_halts(
    g: Seq<ProductionView>,
    stack: Seq<Name>,
    tokens: Seq<LookaheadView>,
    pos: int,
) -> (steps: nat)
    requires
        is_ll1(g),
        heads_ok(g),
        stack_ok(stack),
        0 <= pos,
    ensures
        halts(table_of(g), stack, tokens, pos, steps),
    decreases tokens.len() - pos, stack.len(),
{
    let table = table_of(g);
    let la = lookahead_at(tokens, pos);
    let a = la.symbol;
    let top = stack.last();
    let rest = stack.drop_last();
    assert(eof_name().len() != empty_name().len());
    assert(!is_nonterminal(eof_name()));
    match step_of(table, stack, la) {
        Move::Accept => 1,
        Move::Fail { .. } => 1,
        Move::Shift { .. } => {
            assert(pos < tokens.len());
            assert(stack.len() > 1) by {
                if stack.len() == 1 {
                    assert(stack.last() == stack[0]);
                }
            }
            assert(rest[0] == stack[0]);
            let s = lemma_halts(g, rest, tokens, pos + 1);
            s + 1
        },
        Move::Expand { stack: grown, production } => {
            assert(stack =~= rest.push(top));
            assert(stack.len() > 1) by {
                if stack.len() == 1 {
                    assert(stack.last() == stack[0]);
                }
            }
            assert(rest[0] == stack[0]);
            let key = (top, a);
            let k = choose|k: int| chooses(g, key, k);
            assert(chooses(g, key, k));
            if body_first(g, g[k].body, a) {
                let m = choose|m: int|
                    #![trigger g[k].body[m]]
                    0 <= m < g[k].body.len() && prefix_vanishes(g, g[k].body, m) && in_first(
                        g,
                        g[k].body[m],
                        a,
                    );
                lemma_first_step(g, k, m, a);
                let r = choose|r: nat| first_within(g, top, a, r);
                let (n, extra) = lemma_first_run(g, rest, top, la, r);
                let reached = (rest + extra).push(a);
                crate::first::lemma_first_within_kind(g, top, a, r);
                assert(reached.last() == a);
                assert(reached.drop_last() =~= rest + extra);
                assert(reached[0] == rest[0]);
                if a == eof_name() {
                    assert(step_of(table, reached, la) == Move::Accept);
                    assert(halts(table, reached, tokens, pos, 1));
                    lemma_halts_behind(table, stack, reached, tokens, pos, n, 1);
                    n + 1
                } else {
                    assert(pos < tokens.len());
                    assert(step_of(table, reached, la) == (Move::Shift { stack: rest + extra }));
                    assert((rest + extra)[0] == rest[0]);
                    let s = lemma_halts(g, rest + extra, tokens, pos + 1);
                    assert(halts(table, reached, tokens, pos, s + 1));
                    lemma_halts_behind(table, stack, reached, tokens, pos, n, s + 1);
                    s + 1 + n
                }
            } else {
                assert(body_vanishes(g, g[k].body)) by {
                    assert forall|m: int|
                        #![trigger g[k].body[m]]
                        0 <= m < g[k].body.len() implies vanishes(g, g[k].body[m]) by {}
                }
                lemma_vanishing_body(g, k);
                let h = choose|h: nat| derives_empty(g, top, h);
                assert(eof_name().len() != empty_name().len());
                assert(top != empty_name()) by {
                    if top == empty_name() {
                        assert(!is_nonterminal(empty_name()));
                    }
                }
                let n = lemma_vanish_run(g, rest, top, la, h);
                let s = lemma_halts(g, rest, tokens, pos);
                lemma_halts_behind(table, stack, rest, tokens, pos, n, s);
                s + n
            }
        },
    }
}

/// Every parse by the table of an LL(1) grammar comes to an end: some
/// number of steps suffices for it to accept or to fail, and no greater
/// number changes the outcome.
pub proof fn lemma_parse_ends(g: Seq<ProductionView>, tokens: Seq<LookaheadView>) -> (steps: nat)
    requires
        is_ll1(g),
        heads_ok(g),
    ensures
        !(parse_of(table_of(g), tokens, steps) is OutOfSteps),
        forall|more: nat|
            steps <= more ==> #[trigger] parse_of(table_of(g), tokens, more) == parse_of(
                table_of(g),
                tokens,
                steps,
            ),
{
    let stack = crate::driver::initial_stack();
    let steps = lemma_halts(g, stack, tokens, 0);
    lemma_run_ends(table_of(g), stack, tokens, 0, steps, steps, Seq::empty());
    assert forall|more: nat| steps <= more implies #[trigger] parse_of(table_of(g), tokens, more)
        == parse_of(table_of(g), tokens, steps) by {
        lemma_run_ends(table_of(g), stack, tokens, 0, steps, more, Seq::empty());
    }
    steps
}

} // verus!
