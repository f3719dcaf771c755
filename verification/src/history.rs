//! What a thread reports, told from what it opened and closed.
//!
//! A run is a list of opens and closes. Which call closes when, who called it
//! and how long it took can all be read off the list, without looking at what
//! the thread keeps. The laws here say that what ends up in the accumulator is
//! exactly that.
use vstd::prelude::*;

use crate::accum;
use crate::accum::AccumModel;
use crate::calls;
use crate::calls::{Op, ThreadModel};
use crate::paths;
use crate::paths::TableModel;
use crate::recordings;

verus! {

/// The function a call is of.
pub open spec fn func_of(op: Op) -> u32 {
    match op {
        Op::Open { func, .. } => func,
        Op::Close { .. } => 0,
    }
}

/// The calls still open after `ops`, innermost last, each by its place in `ops`.
pub open spec fn open_calls(ops: Seq<Op>) -> Seq<int>
    decreases ops.len(),
{
    if ops.len() == 0 {
        Seq::empty()
    } else {
        let before = open_calls(ops.drop_last());
        match ops.last() {
            Op::Open { .. } => before.push(ops.len() - 1),
            Op::Close { .. } => if before.len() == 0 {
                before
            } else {
                before.drop_last()
            },
        }
    }
}

/// How many of the calls are of `f`.
pub open spec fn calls_of(ops: Seq<Op>, open: Seq<int>, f: u32) -> nat
    decreases open.len(),
{
    if open.len() == 0 {
        0
    } else {
        calls_of(ops, open.drop_last(), f) + if func_of(ops[open.last()]) == f {
            1nat
        } else {
            0
        }
    }
}

/// The last of `ops` closes a call.
pub open spec fn ends_a_call(ops: Seq<Op>) -> bool {
    ops.len() > 0 && ops.last() is Close && open_calls(ops.drop_last()).len() > 0
}

/// The call that the last of `ops` closes.
pub open spec fn ended(ops: Seq<Op>) -> int {
    open_calls(ops.drop_last()).last()
}

/// How long that call took, from its open to its close.
pub open spec fn lasted(ops: Seq<Op>) -> u64 {
    let (from, to) = (calls::time_of(ops[ended(ops)]), calls::time_of(ops.last()));
    if to > from {
        (to - from) as u64
    } else {
        0
    }
}

/// The call has a caller, and the caller is of `f`.
pub open spec fn called_from(ops: Seq<Op>, f: u32) -> bool {
    let open = open_calls(ops.drop_last());
    open.len() > 1 && func_of(ops[open[open.len() - 2]]) == f
}

/// How many calls of `g` that were made by a call of `f` have closed.
pub open spec fn calls_between(ops: Seq<Op>, f: u32, g: u32) -> nat
    decreases ops.len(),
{
    if ops.len() == 0 {
        0
    } else {
        calls_between(ops.drop_last(), f, g) + if ends_a_call(ops) && func_of(ops[ended(ops)]) == g
            && called_from(ops, f) {
            1nat
        } else {
            0
        }
    }
}

/// No other call of the same function is open around the one that closes.
pub open spec fn ends_outermost(ops: Seq<Op>) -> bool {
    calls_of(ops, open_calls(ops.drop_last()), func_of(ops[ended(ops)])) == 1
}

/// Since it was opened, the function of call `c` has called itself directly.
pub open spec fn called_itself(ops: Seq<Op>, c: int) -> bool {
    exists|j: int|
        c < j < ops.len() && #[trigger] ops[j] is Open && func_of(ops[j]) == func_of(ops[c])
            && open_calls(ops.take(j)).len() > 0 && func_of(ops[open_calls(ops.take(j)).last()])
            == func_of(ops[c])
}

/// How many outermost calls of `f` have closed that called themselves directly.
pub open spec fn self_calls(ops: Seq<Op>, f: u32) -> nat
    decreases ops.len(),
{
    if ops.len() == 0 {
        0
    } else {
        self_calls(ops.drop_last(), f) + if ends_a_call(ops) && func_of(ops[ended(ops)]) == f
            && ends_outermost(ops) && called_itself(ops.drop_last(), ended(ops)) {
            1nat
        } else {
            0
        }
    }
}

/// How long the outermost calls of `f` that have closed took, in their order.
pub open spec fn durations(ops: Seq<Op>, f: u32) -> Seq<u64>
    decreases ops.len(),
{
    if ops.len() == 0 {
        Seq::empty()
    } else if ends_a_call(ops) && func_of(ops[ended(ops)]) == f && ends_outermost(ops) {
        durations(ops.drop_last(), f).push(lasted(ops))
    } else {
        durations(ops.drop_last(), f)
    }
}

/// How long the calls that call `c` made itself, and that have closed, took
/// together.
pub open spec fn inside(ops: Seq<Op>, c: int) -> nat
    decreases ops.len(),
{
    if ops.len() == 0 {
        0
    } else {
        let open = open_calls(ops.drop_last());
        inside(ops.drop_last(), c) + if ends_a_call(ops) && open.len() > 1 && open[open.len() - 2]
            == c {
            lasted(ops) as nat
        } else {
            0
        }
    }
}

/// What a thread and its accumulator are after `ops`, from nothing.
pub open spec fn after(ops: Seq<Op>) -> (ThreadModel, AccumModel)
    decreases ops.len(),
{
    if ops.len() == 0 {
        (ThreadModel::blank(), AccumModel::blank())
    } else {
        let (t, a) = after(ops.drop_last());
        match ops.last() {
            Op::Open { func, interned, now } => (t.opening(func, interned, now), a),
            Op::Close { now } => if t.stack.len() == 0 {
                (t, a)
            } else {
                (t.closing(now), calls::recording(a, t.report(now)))
            },
        }
    }
}

/// The context that call `c` runs in, as it was opened.
pub open spec fn ran_in(ops: Seq<Op>, c: int) -> u32 {
    after(ops.take(c + 1)).0.stack.last().path
}

/// The time that the calls in context `p` that have closed spent outside the
/// calls they made: what each took, less what those took.
pub open spec fn own_time(ops: Seq<Op>, p: u32) -> int
    decreases ops.len(),
{
    if ops.len() == 0 {
        0
    } else {
        own_time(ops.drop_last(), p) + if ends_a_call(ops) && ran_in(ops, ended(ops)) == p {
            lasted(ops) - inside(ops.drop_last(), ended(ops))
        } else {
            0
        }
    }
}

/// How many calls in context `p` have closed that were no deeper than the second
/// of their function.
pub open spec fn entries(ops: Seq<Op>, p: u32) -> nat
    decreases ops.len(),
{
    if ops.len() == 0 {
        0
    } else {
        entries(ops.drop_last(), p) + if ends_a_call(ops) && ran_in(ops, ended(ops)) == p
            && calls_of(ops, open_calls(ops.drop_last()), func_of(ops[ended(ops)])) <= 2 {
            1nat
        } else {
            0
        }
    }
}

/// Every function has an id, and there is an id for every op.
pub open spec fn plausible(ops: Seq<Op>) -> bool {
    &&& ops.len() <= u32::MAX
    &&& forall|i: int| 0 <= i < ops.len() && #[trigger] ops[i] is Open ==> func_of(ops[i]) != 0
}

proof fn lemma_front(ops: Seq<Op>)
    requires
        ops.len() > 0,
    ensures
        plausible(ops) ==> plausible(ops.drop_last()),
        forall|from: u64| calls::clocked(ops, from) ==> calls::clocked(ops.drop_last(), from),
{
    let front = ops.drop_last();
    assert forall|i: int| 0 <= i < front.len() implies front[i] == ops[i] by {}
    assert forall|from: u64| calls::clocked(ops, from) implies calls::clocked(front, from) by {
        assert forall|i: int| 0 <= i < front.len() implies from <= #[trigger] calls::time_of(
            front[i],
        ) by {
            assert(calls::time_of(ops[i]) >= from);
        }
        assert forall|i: int, j: int| 0 <= i < j < front.len() implies #[trigger] calls::time_of(
            front[i],
        ) <= #[trigger] calls::time_of(front[j]) by {
            assert(calls::time_of(ops[i]) <= calls::time_of(ops[j]));
        }
    }
}

proof fn lemma_open_calls_rise(ops: Seq<Op>)
    ensures
        forall|i: int, j: int|
            0 <= i < j < open_calls(ops).len() ==> open_calls(ops)[i] < open_calls(ops)[j],
        forall|i: int|
            0 <= i < open_calls(ops).len() ==> 0 <= #[trigger] open_calls(ops)[i] < ops.len()
                && ops[open_calls(ops)[i]] is Open,
        open_calls(ops).len() <= ops.len(),
    decreases ops.len(),
{
    if ops.len() > 0 {
        lemma_open_calls_rise(ops.drop_last());
        let before = open_calls(ops.drop_last());
        assert forall|i: int| 0 <= i < open_calls(ops).len() implies 0 <= #[trigger] open_calls(
            ops,
        )[i] < ops.len() && ops[open_calls(ops)[i]] is Open by {
            if i < before.len() {
                assert(open_calls(ops)[i] == before[i]);
                assert(ops.drop_last()[before[i]] == ops[before[i]]);
            }
        }
    }
}

proof fn lemma_same_calls(a: Seq<Op>, b: Seq<Op>, open: Seq<int>, f: u32)
    requires
        forall|i: int|
            0 <= i < open.len() ==> func_of(a[#[trigger] open[i]]) == func_of(b[open[i]]),
    ensures
        calls_of(a, open, f) == calls_of(b, open, f),
    decreases open.len(),
{
    if open.len() > 0 {
        let rest = open.drop_last();
        assert forall|i: int| 0 <= i < rest.len() implies func_of(a[#[trigger] rest[i]])
            == func_of(b[rest[i]]) by {
            assert(rest[i] == open[i]);
        }
        lemma_same_calls(a, b, rest, f);
        assert(open.last() == open[open.len() - 1]);
    }
}

proof fn lemma_counted_alike(ops: Seq<Op>, open: Seq<int>, stack: Seq<calls::Activation>, f: u32)
    requires
        open.len() == stack.len(),
        forall|i: int|
            0 <= i < open.len() ==> (#[trigger] stack[i]).func == func_of(ops[open[i]]),
    ensures
        calls::occurs(stack, f) == calls_of(ops, open, f),
    decreases open.len(),
{
    if open.len() > 0 {
        let (o, s) = (open.drop_last(), stack.drop_last());
        assert forall|i: int| 0 <= i < o.len() implies (#[trigger] s[i]).func == func_of(
            ops[o[i]],
        ) by {
            assert(s[i] == stack[i]);
        }
        lemma_counted_alike(ops, o, s, f);
        assert(stack.last() == stack[stack.len() - 1]);
    }
}

proof fn lemma_nothing_inside_yet(ops: Seq<Op>, c: int)
    requires
        c >= ops.len(),
    ensures
        inside(ops, c) == 0,
    decreases ops.len(),
{
    if ops.len() > 0 {
        lemma_nothing_inside_yet(ops.drop_last(), c);
        lemma_open_calls_rise(ops.drop_last());
    }
}

/// What is known of the stack is true of it.
#[verifier::opaque]
spec fn sound(t: ThreadModel) -> bool {
    t.wf()
}

proof fn lemma_blank_is_sound()
    ensures
        sound(ThreadModel::blank()),
{
    reveal(sound);
}

proof fn lemma_opening_is_sound(t: ThreadModel, func: u32, interned: u32, now: u64)
    requires
        sound(t),
        t.stack.len() < u32::MAX,
    ensures
        sound(t.opening(func, interned, now)),
{
    reveal(sound);
    calls::lemma_opening_keeps_the_thread_sound(t, func, interned, now);
}

proof fn lemma_closing_is_sound(t: ThreadModel, now: u64)
    requires
        sound(t),
        t.stack.len() > 0,
    ensures
        sound(t.closing(now)),
{
    reveal(sound);
    calls::lemma_closing_keeps_the_thread_sound(t, now);
}

proof fn lemma_depth_is_known(t: ThreadModel, f: u32)
    requires
        sound(t),
    ensures
        t.depth.contains_key(f) <==> calls::occurs(t.stack, f) > 0,
        t.depth.contains_key(f) ==> t.depth[f].count == calls::occurs(t.stack, f),
{
    reveal(sound);
}

proof fn lemma_the_innermost_knows_itself(t: ThreadModel)
    requires
        sound(t),
        t.stack.len() > 0,
    ensures
        ({
            let a = t.stack.last();
            let below = calls::occurs(t.stack.drop_last(), a.func);
            &&& a.outermost == (below == 0)
            &&& a.counts_here == (below <= 1)
            &&& t.stack.len() == 1 ==> a.parent == 0
            &&& t.stack.len() > 1 ==> a.parent == t.stack[t.stack.len() - 2].func
        }),
{
    reveal(sound);
    assert(t.stack[t.stack.len() - 1] == t.stack.last());
    assert(t.stack.take(t.stack.len() - 1) =~= t.stack.drop_last());
}

/// The stack holds the calls that are open.
spec fn mirrors(ops: Seq<Op>) -> bool {
    let (t, open) = (after(ops).0, open_calls(ops));
    &&& sound(t)
    &&& t.stack.len() == open.len()
    &&& forall|i: int|
        0 <= i < open.len() ==> {
            let a = #[trigger] t.stack[i];
            &&& a.func == func_of(ops[open[i]])
            &&& a.start == calls::time_of(ops[open[i]])
            &&& a.path == ran_in(ops, open[i])
        }
    &&& forall|f: u32| #[trigger]
        t.depth.contains_key(f) ==> t.depth[f].self_recursed == recursed(ops, open, f)
}

/// A direct call of `f` to itself was opened while its outermost open call was.
spec fn recursed(ops: Seq<Op>, open: Seq<int>, f: u32) -> bool {
    exists|i: int|
        0 <= i < open.len() && func_of(ops[#[trigger] open[i]]) == f && calls_of(
            ops,
            open.take(i),
            f,
        ) == 0 && called_itself(ops, open[i])
}

proof fn lemma_first_call(ops: Seq<Op>, open: Seq<int>, f: u32, i: int, j: int)
    requires
        0 <= i < j <= open.len(),
        func_of(ops[open[i]]) == f,
    ensures
        calls_of(ops, open.take(j), f) > 0,
    decreases j,
{
    assert(open.take(j).drop_last() =~= open.take(j - 1));
    if i < j - 1 {
        lemma_first_call(ops, open, f, i, j - 1);
    }
}

proof fn lemma_some_call(ops: Seq<Op>, open: Seq<int>, f: u32) -> (i: int)
    requires
        calls_of(ops, open, f) > 0,
    ensures
        0 <= i < open.len(),
        func_of(ops[open[i]]) == f,
        calls_of(ops, open.take(i), f) == 0,
    decreases open.len(),
{
    if calls_of(ops, open.drop_last(), f) > 0 {
        let i = lemma_some_call(ops, open.drop_last(), f);
        assert(open.drop_last().take(i) =~= open.take(i));
        i
    } else {
        assert(open.take(open.len() - 1) =~= open.drop_last());
        open.len() - 1
    }
}

proof fn lemma_called_itself_so_far(ops: Seq<Op>, c: int)
    requires
        ops.len() > 0,
        0 <= c < ops.len() - 1,
        ops[c] is Open,
    ensures
        called_itself(ops, c) == (called_itself(ops.drop_last(), c) || (ops.last() is Open
            && func_of(ops.last()) == func_of(ops[c]) && open_calls(ops.drop_last()).len() > 0
            && func_of(ops[open_calls(ops.drop_last()).last()]) == func_of(ops[c]))),
{
    let front = ops.drop_last();
    let last = ops.len() - 1;
    assert(ops.take(last) =~= front);
    assert forall|j: int| 0 <= j < last implies #[trigger] ops[j] == front[j] && ops.take(j)
        == front.take(j) by {
        assert(ops.take(j) =~= front.take(j));
    }
    if called_itself(front, c) {
        let j = choose|j: int|
            c < j < front.len() && #[trigger] front[j] is Open && func_of(front[j]) == func_of(
                front[c],
            ) && open_calls(front.take(j)).len() > 0 && func_of(
                front[open_calls(front.take(j)).last()],
            ) == func_of(front[c]);
        lemma_open_calls_rise(front.take(j));
        let top = open_calls(front.take(j)).last();
        assert(open_calls(front.take(j))[open_calls(front.take(j)).len() - 1] == top);
        assert(0 <= top < j);
        assert(ops[j] == front[j] && ops[top] == front[top] && ops[c] == front[c]);
        assert(ops.take(j) == front.take(j));
    }
    if called_itself(ops, c) {
        let j = choose|j: int|
            c < j < ops.len() && #[trigger] ops[j] is Open && func_of(ops[j]) == func_of(ops[c])
                && open_calls(ops.take(j)).len() > 0 && func_of(
                ops[open_calls(ops.take(j)).last()],
            ) == func_of(ops[c]);
        if j < last {
            lemma_open_calls_rise(front.take(j));
            let top = open_calls(front.take(j)).last();
            assert(ops.take(j) == front.take(j));
            assert(open_calls(front.take(j))[open_calls(front.take(j)).len() - 1] == top);
            assert(0 <= top < j);
            assert(front[j] is Open && front[top] == ops[top] && front[c] == ops[c]);
        }
    }
    if ops.last() is Open && func_of(ops.last()) == func_of(ops[c]) && open_calls(front).len() > 0
        && func_of(ops[open_calls(front).last()]) == func_of(ops[c]) {
        assert(ops[last] is Open);
    }
}

/// The stack part of it.
spec fn stacked(ops: Seq<Op>) -> bool {
    let (t, open) = (after(ops).0, open_calls(ops));
    &&& sound(t)
    &&& t.stack.len() == open.len()
    &&& forall|i: int|
        0 <= i < open.len() ==> {
            let a = #[trigger] t.stack[i];
            &&& a.func == func_of(ops[open[i]])
            &&& a.start == calls::time_of(ops[open[i]])
            &&& a.path == ran_in(ops, open[i])
        }
}

proof fn lemma_ran_in_so_far(ops: Seq<Op>, c: int)
    requires
        0 <= c < ops.len() - 1,
    ensures
        ran_in(ops, c) == ran_in(ops.drop_last(), c),
        ops[c] == ops.drop_last()[c],
{
    assert(ops.take(c + 1) =~= ops.drop_last().take(c + 1));
}

proof fn lemma_a_step_stacks(ops: Seq<Op>)
    requires
        plausible(ops),
        ops.len() > 0,
        stacked(ops.drop_last()),
    ensures
        stacked(ops),
{
    let front = ops.drop_last();
    lemma_open_calls_rise(front);
    let (t, before) = (after(front).0, open_calls(front));
    let (u, open) = (after(ops).0, open_calls(ops));
    assert(ops.take(ops.len() as int) =~= ops);
    match ops.last() {
        Op::Open { func, interned, now } => {
            lemma_opening_is_sound(t, func, interned, now);
        },
        Op::Close { now } => {
            if t.stack.len() > 0 {
                lemma_closing_is_sound(t, now);
            }
        },
    }
    assert forall|i: int| 0 <= i < open.len() implies {
        let a = #[trigger] u.stack[i];
        &&& a.func == func_of(ops[open[i]])
        &&& a.start == calls::time_of(ops[open[i]])
        &&& a.path == ran_in(ops, open[i])
    } by {
        if i < before.len() {
            assert(open[i] == before[i]);
            let (a, b) = (t.stack[i], u.stack[i]);
            assert(a.func == b.func && a.start == b.start && a.path == b.path);
            lemma_ran_in_so_far(ops, before[i]);
        }
    }
}

proof fn lemma_a_run_mirrors(ops: Seq<Op>)
    requires
        plausible(ops),
    ensures
        mirrors(ops),
        stacked(ops),
    decreases ops.len(),
{
    if ops.len() == 0 {
        lemma_blank_is_sound();
    } else {
        let front = ops.drop_last();
        lemma_front(ops);
        lemma_a_run_mirrors(front);
        lemma_a_step_stacks(ops);
        let (t, u) = (after(front).0, after(ops).0);
        assert forall|f: u32| #[trigger] u.depth.contains_key(f) implies u.depth[f].self_recursed
            == recursed(ops, open_calls(ops), f) by {
            lemma_depth_is_known(t, f);
            lemma_depth_is_known(u, f);
            lemma_recursion_mirrors(ops, t, u, f);
        }
    }
}

proof fn lemma_a_run_is_stacked(ops: Seq<Op>)
    requires
        plausible(ops),
    ensures
        stacked(ops),
    decreases ops.len(),
{
    if ops.len() == 0 {
        lemma_blank_is_sound();
    } else {
        lemma_front(ops);
        lemma_a_run_is_stacked(ops.drop_last());
        lemma_a_step_stacks(ops);
    }
}

proof fn lemma_recursion_mirrors(ops: Seq<Op>, t: ThreadModel, u: ThreadModel, f: u32)
    requires
        ops.len() > 0,
        t.stack.len() == open_calls(ops.drop_last()).len(),
        forall|i: int|
            0 <= i < t.stack.len() ==> (#[trigger] t.stack[i]).func == func_of(
                ops.drop_last()[open_calls(ops.drop_last())[i]],
            ),
        t.depth.contains_key(f) <==> calls::occurs(t.stack, f) > 0,
        t.depth.contains_key(f) ==> t.depth[f].self_recursed == recursed(
            ops.drop_last(),
            open_calls(ops.drop_last()),
            f,
        ),
        u.stack.len() == open_calls(ops).len(),
        forall|i: int|
            0 <= i < u.stack.len() ==> (#[trigger] u.stack[i]).func == func_of(
                ops[open_calls(ops)[i]],
            ),
        calls::occurs(u.stack, f) > 0,
        u.depth.contains_key(f),
        match ops.last() {
            Op::Open { func, .. } => u.depth[f].self_recursed == if !t.depth.contains_key(f) {
                false
            } else {
                t.depth[f].self_recursed || (func == f && t.stack.len() > 0
                    && t.stack.last().func == f)
            },
            Op::Close { .. } => t.depth.contains_key(f) && u.depth[f].self_recursed
                == t.depth[f].self_recursed,
        },
    ensures
        u.depth[f].self_recursed == recursed(ops, open_calls(ops), f),
{
    let front = ops.drop_last();
    let (before, open) = (open_calls(front), open_calls(ops));
    lemma_open_calls_rise(front);
    lemma_open_calls_rise(ops);
    lemma_counted_alike(ops, open, u.stack, f);
    lemma_counted_alike(front, before, t.stack, f);
    assert(calls::occurs(u.stack, f) > 0);
    let i = lemma_some_call(ops, open, f);
    let c = open[i];
    assert(recursed(ops, open, f) == called_itself(ops, c)) by {
        if recursed(ops, open, f) {
            let k = choose|k: int|
                0 <= k < open.len() && func_of(ops[#[trigger] open[k]]) == f && calls_of(
                    ops,
                    open.take(k),
                    f,
                ) == 0 && called_itself(ops, open[k]);
            if i < k {
                lemma_first_call(ops, open, f, i, k);
            } else if k < i {
                lemma_first_call(ops, open, f, k, i);
            }
        }
    }
    if c == ops.len() - 1 {
        // The call that was just opened is the outermost.
        assert(ops.last() is Open);
        assert(open.drop_last() =~= before);
        assert(i == open.len() - 1);
        assert(open.take(i) =~= before);
        assert forall|k: int| 0 <= k < before.len() implies func_of(front[#[trigger] before[k]])
            == func_of(ops[before[k]]) by {}
        lemma_same_calls(ops, front, before, f);
        assert(calls::occurs(t.stack, f) == 0);
        assert(!t.depth.contains_key(f));
        assert(!called_itself(ops, c));
    } else {
        assert(i < before.len() && before[i] == c);
        assert(before.take(i) =~= open.take(i));
        assert forall|k: int| 0 <= k < before.take(i).len() implies func_of(
            ops[#[trigger] before.take(i)[k]],
        ) == func_of(front[before.take(i)[k]]) by {
            assert(before.take(i)[k] == before[k]);
        }
        lemma_same_calls(ops, front, before.take(i), f);
        assert(ops[c] == front[c]);
        lemma_first_call(front, before, f, i, before.len() as int);
        assert(before.take(before.len() as int) =~= before);
        assert(t.depth.contains_key(f));
        assert(recursed(front, before, f) == called_itself(front, c)) by {
            if recursed(front, before, f) {
                let k = choose|k: int|
                    0 <= k < before.len() && func_of(front[#[trigger] before[k]]) == f && calls_of(
                        front,
                        before.take(k),
                        f,
                    ) == 0 && called_itself(front, before[k]);
                if i < k {
                    lemma_first_call(front, before, f, i, k);
                } else if k < i {
                    lemma_first_call(front, before, f, k, i);
                }
            }
            if called_itself(front, c) {
                assert(func_of(front[before[i]]) == f);
            }
        }
        lemma_called_itself_so_far(ops, c);
        if ops.last() is Open {
            if before.len() > 0 {
                let top = before.last();
                assert(top == before[before.len() - 1]);
                assert(t.stack[before.len() - 1].func == func_of(front[top]));
                assert(ops[top] == front[top]);
            }
        }
    }
}

/// Calls are counted by who made them: over any run, the count of an edge is the
/// number of calls of the one function that were made by a call of the other and
/// have closed, whatever else was open around them.
pub proof fn lemma_an_edge_counts_every_call(ops: Seq<Op>, f: u32, g: u32)
    requires
        plausible(ops),
        f != g,
        f != 0,
    ensures
        accum::count_of(after(ops).1.edges, (f, g)) == calls_between(ops, f, g),
        calls_between(ops, f, g) <= ops.len(),
    decreases ops.len(),
{
    if ops.len() > 0 {
        let front = ops.drop_last();
        lemma_front(ops);
        lemma_an_edge_counts_every_call(front, f, g);
        lemma_a_run_is_stacked(front);
        lemma_open_calls_rise(front);
        let (t, open) = (after(front).0, open_calls(front));
        if ends_a_call(ops) {
            let last = open.len() - 1;
            lemma_the_innermost_knows_itself(t);
            assert(t.stack[last] == t.stack.last());
            assert(ops[open[last]] == front[open[last]]);
            if last > 0 {
                assert(t.stack[last - 1].func == func_of(front[open[last - 1]]));
                assert(ops[open[last - 1]] == front[open[last - 1]]);
                assert(front[open[last - 1]] is Open);
            }
        }
    }
}

/// A function that calls itself directly has one edge to itself for each of its
/// outermost calls in which it did, however deep it went.
pub proof fn lemma_a_self_edge_counts_outermost_calls(ops: Seq<Op>, f: u32)
    requires
        plausible(ops),
        f != 0,
    ensures
        accum::count_of(after(ops).1.edges, (f, f)) == self_calls(ops, f),
        self_calls(ops, f) <= ops.len(),
    decreases ops.len(),
{
    if ops.len() > 0 {
        let front = ops.drop_last();
        lemma_front(ops);
        lemma_a_self_edge_counts_outermost_calls(front, f);
        lemma_a_run_mirrors(front);
        lemma_open_calls_rise(front);
        let (t, open) = (after(front).0, open_calls(front));
        if ends_a_call(ops) {
            let last = open.len() - 1;
            lemma_the_innermost_knows_itself(t);
            lemma_depth_is_known(t, f);
            let a = t.stack.last();
            assert(t.stack[last] == a);
            let g = func_of(ops[open[last]]);
            assert(ops[open[last]] == front[open[last]]);
            lemma_outermost_alike(ops);
            if g == f {
                lemma_counted_alike(front, open, t.stack, f);
                lemma_first_call(front, open, f, last, open.len() as int);
                assert(open.take(open.len() as int) =~= open);
                assert(t.depth.contains_key(f));
                if ends_outermost(ops) {
                    lemma_recursed_in_outermost(front, f, last);
                }
            }
        }
    }
}

proof fn lemma_recursed_in_outermost(ops: Seq<Op>, f: u32, last: int)
    requires
        last == open_calls(ops).len() - 1,
        last >= 0,
        func_of(ops[open_calls(ops)[last]]) == f,
        calls_of(ops, open_calls(ops), f) == 1,
    ensures
        recursed(ops, open_calls(ops), f) == called_itself(ops, open_calls(ops)[last]),
{
    let open = open_calls(ops);
    assert(open.take(last) =~= open.drop_last());
    assert(calls_of(ops, open.take(last), f) == 0);
    if recursed(ops, open, f) {
        let k = choose|k: int|
            0 <= k < open.len() && func_of(ops[#[trigger] open[k]]) == f && calls_of(
                ops,
                open.take(k),
                f,
            ) == 0 && called_itself(ops, open[k]);
        if k < last {
            lemma_first_call(ops, open, f, k, last);
        }
    }
    if called_itself(ops, open[last]) {
        assert(func_of(ops[open[last]]) == f);
    }
}

/// What the activation says of its own depth is what the run says.
proof fn lemma_outermost_alike(ops: Seq<Op>)
    requires
        plausible(ops),
        ends_a_call(ops),
        stacked(ops.drop_last()),
    ensures
        ({
            let t = after(ops.drop_last()).0;
            let deep = calls_of(ops, open_calls(ops.drop_last()), func_of(ops[ended(ops)]));
            &&& t.stack.last().func == func_of(ops[ended(ops)])
            &&& t.stack.last().outermost == (deep == 1)
            &&& t.stack.last().counts_here == (deep <= 2)
            &&& deep >= 1
        }),
{
    let front = ops.drop_last();
    let (t, open) = (after(front).0, open_calls(front));
    let last = open.len() - 1;
    lemma_the_innermost_knows_itself(t);
    lemma_open_calls_rise(front);
    let a = t.stack[last];
    let f = a.func;
    assert(ops[open[last]] == front[open[last]]);
    lemma_counted_alike(front, open, t.stack, f);
    assert(t.stack.take(last) =~= t.stack.drop_last());
    assert(calls::occurs(t.stack, f) == calls::occurs(t.stack.take(last), f) + 1);
    assert forall|i: int| 0 <= i < open.len() implies func_of(ops[#[trigger] open[i]]) == func_of(
        front[open[i]],
    ) by {}
    lemma_same_calls(ops, front, open, f);
}

/// Only outermost calls are counted and timed: over any run, the calls of a
/// function are those that closed with no other of its own open around them, and
/// their durations go from open to close.
pub proof fn lemma_outermost_calls_are_measured(ops: Seq<Op>, f: u32)
    requires
        plausible(ops),
    ensures
        recordings::measured(after(ops).1, f, durations(ops, f)),
        durations(ops, f).len() <= ops.len(),
    decreases ops.len(),
{
    if ops.len() == 0 {
        recordings::lemma_nothing_measured(f);
    } else {
        let front = ops.drop_last();
        lemma_front(ops);
        lemma_outermost_calls_are_measured(front, f);
        lemma_a_run_is_stacked(front);
        lemma_open_calls_rise(front);
        let (t, a) = after(front);
        let open = open_calls(front);
        if ends_a_call(ops) {
            let last = open.len() - 1;
            lemma_outermost_alike(ops);
            assert(t.stack[last] == t.stack.last());
            assert(ops[open[last]] == front[open[last]]);
            recordings::lemma_a_closed_call_is_measured(
                a,
                t.report(calls::time_of(ops.last())),
                f,
                durations(front, f),
            );
        }
    }
}

/// A context counts the calls that ran in it, but no level of a recursion below
/// its second.
pub proof fn lemma_a_context_counts_its_entries(ops: Seq<Op>, p: u32)
    requires
        plausible(ops),
    ensures
        accum::share_of(after(ops).1.stacks, p).count == entries(ops, p),
        entries(ops, p) <= ops.len(),
    decreases ops.len(),
{
    if ops.len() > 0 {
        let front = ops.drop_last();
        lemma_front(ops);
        lemma_a_context_counts_its_entries(front, p);
        lemma_a_run_is_stacked(front);
        lemma_open_calls_rise(front);
        let (t, open) = (after(front).0, open_calls(front));
        if ends_a_call(ops) {
            let last = open.len() - 1;
            lemma_outermost_alike(ops);
            assert(t.stack[last] == t.stack.last());
            assert(ops.take(open[last] + 1) =~= front.take(open[last] + 1));
            assert(ran_in(ops, open[last]) == ran_in(front, open[last]));
        }
    }
}

/// What each open activation has been charged is what its own callees took, and
/// all of it fits in the time since.
spec fn charged(ops: Seq<Op>) -> bool {
    let (t, open) = (after(ops).0, open_calls(ops));
    &&& forall|i: int|
        0 <= i < open.len() ==> (#[trigger] t.stack[i]).child_ns == inside(ops, open[i])
    &&& calls::timely(
        t.stack,
        if ops.len() == 0 {
            0
        } else {
            calls::time_of(ops.last())
        },
    )
}

proof fn lemma_a_run_charges(ops: Seq<Op>)
    requires
        plausible(ops),
        calls::clocked(ops, 0),
    ensures
        charged(ops),
    decreases ops.len(),
{
    if ops.len() > 0 {
        let front = ops.drop_last();
        lemma_front(ops);
        lemma_a_run_charges(front);
        lemma_a_run_is_stacked(front);
        lemma_a_run_is_stacked(ops);
        lemma_open_calls_rise(front);
        lemma_open_calls_rise(ops);
        let (t, before) = (after(front).0, open_calls(front));
        let (u, open) = (after(ops).0, open_calls(ops));
        let now = calls::time_of(ops.last());
        let last = if front.len() == 0 {
            0
        } else {
            calls::time_of(front.last())
        };
        assert(last <= now) by {
            if front.len() > 0 {
                assert(calls::time_of(ops[ops.len() - 2]) <= calls::time_of(ops[ops.len() - 1]));
                assert(front.last() == ops[ops.len() - 2]);
            }
        }
        match ops.last() {
            Op::Open { .. } => {
                lemma_nothing_inside_yet(front, ops.len() - 1);
                assert forall|i: int| 0 <= i < open.len() implies (#[trigger] u.stack[i]).child_ns
                    == inside(ops, open[i]) by {
                    if i < before.len() {
                        assert(u.stack[i] == t.stack[i]);
                        assert(open[i] == before[i]);
                    }
                }
                assert forall|i: int| 0 <= i < u.stack.len() implies (#[trigger] u.stack[i]).start
                    + u.stack[i].child_ns <= if i + 1 < u.stack.len() {
                    u.stack[i + 1].start
                } else {
                    now
                } by {
                    if i < t.stack.len() {
                        assert(u.stack[i] == t.stack[i]);
                        if i + 1 < t.stack.len() {
                            assert(u.stack[i + 1] == t.stack[i + 1]);
                        }
                    }
                }
            },
            Op::Close { .. } => {
                if before.len() > 0 {
                    let top = before.len() - 1;
                    assert(t.stack[top] == t.stack.last());
                    assert(ops[before[top]] == front[before[top]]);
                    assert(lasted(ops) == t.report(now).elapsed);
                    if top > 0 {
                        let c = t.stack[top - 1];
                        assert(c.start + c.child_ns <= t.stack[top].start);
                        assert(t.stack[top].start + t.stack[top].child_ns <= last);
                    }
                    assert forall|i: int| 0 <= i < open.len() implies (
                    #[trigger] u.stack[i]).child_ns == inside(ops, open[i]) by {
                        assert(open[i] == before[i]);
                        assert(t.stack[i].child_ns == inside(front, before[i]));
                        if i < top - 1 {
                            assert(before[i] < before[top - 1]);
                            assert(u.stack[i] == t.stack[i]);
                        }
                    }
                    assert forall|i: int| 0 <= i < u.stack.len() implies (
                    #[trigger] u.stack[i]).start + u.stack[i].child_ns <= if i + 1
                        < u.stack.len() {
                        u.stack[i + 1].start
                    } else {
                        now
                    } by {
                        assert(u.stack[i].start == t.stack[i].start);
                        if i + 1 < u.stack.len() {
                            assert(u.stack[i] == t.stack[i]);
                            assert(u.stack[i + 1].start == t.stack[i + 1].start);
                        }
                    }
                } else {
                    assert(u.stack.len() == 0);
                }
            },
        }
    }
}

/// A context is charged the time its calls spent outside the calls they made:
/// over any run by a clock that does not go back, what each took from open to
/// close, less what the calls it made itself took.
pub proof fn lemma_a_context_holds_its_own_time(ops: Seq<Op>, p: u32)
    requires
        plausible(ops),
        calls::clocked(ops, 0),
        own_time(ops, p) <= u64::MAX,
    ensures
        accum::share_of(after(ops).1.stacks, p).self_ns == own_time(ops, p),
    decreases ops.len(),
{
    if ops.len() > 0 {
        let front = ops.drop_last();
        lemma_front(ops);
        lemma_a_run_is_stacked(front);
        lemma_a_run_charges(front);
        lemma_open_calls_rise(front);
        let (t, open) = (after(front).0, open_calls(front));
        if ends_a_call(ops) {
            let top = open.len() - 1;
            let now = calls::time_of(ops.last());
            assert(t.stack[top] == t.stack.last());
            assert(ops[open[top]] == front[open[top]]);
            assert(ops.take(open[top] + 1) =~= front.take(open[top] + 1));
            assert(ran_in(ops, open[top]) == ran_in(front, open[top]));
            assert(t.stack[top].start + t.stack[top].child_ns <= now) by {
                assert(front.len() > 0);
                assert(calls::time_of(ops[ops.len() - 2]) <= calls::time_of(ops[ops.len() - 1]));
                assert(front.last() == ops[ops.len() - 2]);
            }
            assert(t.report(now).self_ns == lasted(ops) - inside(front, open[top]));
        }
        lemma_a_context_holds_its_own_time(front, p);
    }
}

/// What hangs off what: a call runs in a context of its own function. It hangs
/// off the context of its caller, or, where its function is already running, off
/// that of the function's outermost call.
pub open spec fn hangs_off(t: ThreadModel, func: u32) -> u32
{
    if exists|i: int| 0 <= i < t.stack.len() && (#[trigger] t.stack[i]).func == func {
        let i = choose|i: int|
            0 <= i < t.stack.len() && (#[trigger] t.stack[i]).func == func && forall|j: int|
                0 <= j < i ==> (#[trigger] t.stack[j]).func != func;
        t.stack[i].path
    } else if t.stack.len() > 0 {
        t.stack.last().path
    } else {
        0
    }
}

/// The contexts that recursions share are those of the functions, under their
/// outermost calls.
pub open spec fn well_placed(t: ThreadModel, table: TableModel) -> bool {
    forall|f: u32| #[trigger]
        t.depth.contains_key(f) && t.depth[f].recursion_path != 0 ==> t.depth[f].recursion_path
            <= table.nodes.len() && table.nodes[t.depth[f].recursion_path - 1] == (
            t.depth[f].path,
            f,
        )
}

proof fn lemma_outermost_path(stack: Seq<calls::Activation>, f: u32, i: int)
    requires
        0 <= i < stack.len(),
        stack[i].func == f,
        forall|j: int| 0 <= j < i ==> (#[trigger] stack[j]).func != f,
    ensures
        calls::outer_path(stack, f) == stack[i].path,
        calls::occurs(stack, f) > 0,
    decreases stack.len(),
{
    let rest = stack.drop_last();
    if i == stack.len() - 1 {
        lemma_absent(rest, f);
    } else {
        assert forall|j: int| 0 <= j < i implies (#[trigger] rest[j]).func != f by {
            assert(rest[j] == stack[j]);
        }
        lemma_outermost_path(rest, f, i);
    }
}

proof fn lemma_absent(stack: Seq<calls::Activation>, f: u32)
    requires
        forall|j: int| 0 <= j < stack.len() ==> (#[trigger] stack[j]).func != f,
    ensures
        calls::occurs(stack, f) == 0,
    decreases stack.len(),
{
    if stack.len() > 0 {
        let rest = stack.drop_last();
        assert forall|j: int| 0 <= j < rest.len() implies (#[trigger] rest[j]).func != f by {
            assert(rest[j] == stack[j]);
        }
        lemma_absent(rest, f);
        assert(stack.last() == stack[stack.len() - 1]);
    }
}

proof fn lemma_there_is_an_outermost(stack: Seq<calls::Activation>, f: u32, i: int)
    requires
        0 <= i < stack.len(),
        stack[i].func == f,
    ensures
        exists|k: int|
            0 <= k < stack.len() && (#[trigger] stack[k]).func == f && forall|j: int|
                0 <= j < k ==> (#[trigger] stack[j]).func != f,
    decreases i,
{
    if exists|j: int| 0 <= j < i && (#[trigger] stack[j]).func == f {
        let j = choose|j: int| 0 <= j < i && (#[trigger] stack[j]).func == f;
        lemma_there_is_an_outermost(stack, f, j);
    }
}

proof fn lemma_wanted_hangs_off(t: ThreadModel, func: u32)
    requires
        t.wf(),
    ensures
        t.wanted(func) == (hangs_off(t, func), func),
        t.depth.contains_key(func) ==> t.depth[func].path == hangs_off(t, func),
{
    if exists|i: int| 0 <= i < t.stack.len() && (#[trigger] t.stack[i]).func == func {
        let i = choose|i: int| 0 <= i < t.stack.len() && (#[trigger] t.stack[i]).func == func;
        lemma_there_is_an_outermost(t.stack, func, i);
        let k = choose|k: int|
            0 <= k < t.stack.len() && (#[trigger] t.stack[k]).func == func && forall|j: int|
                0 <= j < k ==> (#[trigger] t.stack[j]).func != func;
        lemma_outermost_path(t.stack, func, k);
    } else {
        lemma_absent(t.stack, func);
    }
    assert(t.depth.contains_key(func) <==> calls::occurs(t.stack, func) > 0);
}

/// A call runs in the context of its function that hangs off its caller's, or
/// off that of its own function's outermost call where it recurses. Only a full
/// table makes it run in what that would hang off instead.
pub proof fn lemma_a_call_runs_in_its_own_context(
    t: ThreadModel,
    table: TableModel,
    func: u32,
    max: usize,
    now: u64,
    after: ThreadModel,
    grown: TableModel,
)
    requires
        t.wf(),
        table.wf(),
        calls::agrees(t, table),
        calls::rooted(t, table),
        well_placed(t, table),
        calls::entered(t, table, func, max, now, after, grown),
        table.nodes.len() < max,
        table.nodes.len() < u32::MAX,
    ensures
        after.stack.len() == t.stack.len() + 1,
        ({
            let p = after.stack.last().path;
            &&& 1 <= p <= grown.nodes.len()
            &&& grown.nodes[p - 1] == (hangs_off(t, func), func)
        }),
        well_placed(after, grown),
        table.nodes.len() <= grown.nodes.len() <= table.nodes.len() + 1,
        forall|i: int| 0 <= i < table.nodes.len() ==> grown.nodes[i] == #[trigger] table.nodes[i],
{
    lemma_wanted_hangs_off(t, func);
    let parent = hangs_off(t, func);
    assert(parent <= table.nodes.len()) by {
        if t.depth.contains_key(func) {
        } else if t.stack.len() > 0 {
            assert(t.stack[t.stack.len() - 1].path <= table.nodes.len());
        }
    }
    let p = after.stack.last().path;
    if t.known(func) is None {
        let id = table.handing_out(parent, func, max);
        paths::lemma_interning_keeps_every_id(table, parent, func, max);
        paths::lemma_interning_twice_changes_nothing(table, parent, func, max);
        assert(grown.has(parent, func));
        let i = choose|i: int| 0 <= i < grown.nodes.len() && grown.nodes[i] == (parent, func);
        paths::lemma_ids_are_places(grown, i);
    } else if t.depth.contains_key(func) && t.depth[func].recursion_path != 0 {
        assert(t.depth[func].recursion_path <= table.nodes.len());
    } else {
        let key = t.wanted(func);
        assert(t.memo.contains_key(key));
        let i = choose|i: int| 0 <= i < table.nodes.len() && table.nodes[i] == key;
        paths::lemma_ids_are_places(table, i);
    }
    assert forall|f: u32| #[trigger]
        after.depth.contains_key(f) && after.depth[f].recursion_path != 0 implies after.depth[f].recursion_path
        <= grown.nodes.len() && grown.nodes[after.depth[f].recursion_path - 1] == (
        after.depth[f].path,
        f,
    ) by {
        if f != func {
            assert(t.depth.contains_key(f));
        }
    }
}

/// A call that finds no room for a context of its own runs in what that would
/// hang off.
pub proof fn lemma_a_call_without_room_runs_in_its_callers_context(
    t: ThreadModel,
    table: TableModel,
    func: u32,
    max: usize,
    now: u64,
    after: ThreadModel,
    grown: TableModel,
)
    requires
        t.wf(),
        table.wf(),
        calls::agrees(t, table),
        well_placed(t, table),
        calls::entered(t, table, func, max, now, after, grown),
        table.nodes.len() >= max || table.nodes.len() >= u32::MAX,
        !table.nodes.contains((hangs_off(t, func), func)),
    ensures
        after.stack.len() == t.stack.len() + 1,
        after.stack.last().path == hangs_off(t, func),
        grown.nodes == table.nodes,
{
    lemma_wanted_hangs_off(t, func);
    let key = t.wanted(func);
    if t.memo.contains_key(key) {
        assert(table.has(key.0, key.1));
    }
    if t.depth.contains_key(func) && t.depth[func].recursion_path != 0 {
        let p = t.depth[func].recursion_path;
        assert(table.nodes[p - 1] == key);
        assert(table.nodes.contains(key));
    }
}

/// A table hands a context its own number: the one it has, or else the next, which
/// it then has. A full table hands out none and counts that it did not.
pub proof fn lemma_a_table_numbers_contexts_in_turn(
    table: TableModel,
    parent: u32,
    func: u32,
    max: usize,
)
    requires
        table.wf(),
    ensures
        ({
            let id = table.handing_out(parent, func, max);
            let grown = table.interning(parent, func, max);
            let held = exists|i: int|
                0 <= i < table.nodes.len() && #[trigger] table.nodes[i] == (parent, func);
            &&& held ==> grown == table && 1 <= id <= table.nodes.len() && table.nodes[id - 1] == (
                parent,
                func,
            )
            &&& !held && table.nodes.len() < max && table.nodes.len() < u32::MAX ==> id
                == table.nodes.len() + 1 && grown.nodes == table.nodes.push((parent, func))
                && grown.overflowed == table.overflowed
            &&& !held && (table.nodes.len() >= max || table.nodes.len() >= u32::MAX) ==> id == 0
                && grown.nodes == table.nodes && (table.overflowed < u64::MAX ==> grown.overflowed
                == table.overflowed + 1)
        }),
{
    if exists|i: int|
        0 <= i < table.nodes.len() && #[trigger] table.nodes[i] == (parent, func) {
        let i = choose|i: int|
            0 <= i < table.nodes.len() && #[trigger] table.nodes[i] == (parent, func);
        paths::lemma_ids_are_places(table, i);
    }
}

/// Closing moves no context.
pub proof fn lemma_closing_keeps_contexts_placed(t: ThreadModel, table: TableModel, now: u64)
    requires
        t.wf(),
        t.stack.len() > 0,
        well_placed(t, table),
    ensures
        well_placed(t.closing(now), table),
{
    let after = t.closing(now);
    assert forall|f: u32| #[trigger]
        after.depth.contains_key(f) && after.depth[f].recursion_path != 0 implies after.depth[f].recursion_path
        <= table.nodes.len() && table.nodes[after.depth[f].recursion_path - 1] == (
        after.depth[f].path,
        f,
    ) by {
        assert(t.depth.contains_key(t.stack.last().func) <==> calls::occurs(
            t.stack,
            t.stack.last().func,
        ) > 0);
        assert(t.depth.contains_key(f));
    }
}

} // verus!
