//! Who called whom, and for how long.
//!
//! Each thread keeps its own activation stack and its own accumulator. The
//! stack is plain data nobody else sees. The accumulator is handed over once
//! per window.
//!
//! Only edges where both ends are measured are visible. An uninstrumented frame
//! between two measured functions collapses into a direct edge from the outer
//! one to the inner one. That is the intended reading of the graph, not a
//! defect to work around.
use std::collections::BTreeMap;

use vstd::prelude::*;

use crate::accum;
use crate::accum::{Accum, AccumModel, StackStat};
use crate::paths;
use crate::paths::{PathTable, TableModel};
use crate::quantity;
use crate::ring;

verus! {

broadcast use crate::ordered::group_sorted_maps;

/// One call of a measured function that has not returned yet.
#[derive(Debug, Clone, Copy, PartialEq, Eq, Structural)]
pub struct Activation {
    pub func: u32,
    /// Zero when this is the outermost measured frame on the thread.
    pub parent: u32,
    /// The calling context this activation runs in.
    pub path: u32,
    /// When it began, in nanoseconds.
    pub start: u64,
    /// Inclusive time of the measured callees that closed inside this
    /// activation. Subtracted at close to leave self time.
    ///
    /// It lives here, on the activation, and not in a map keyed by function.
    /// A map looks equivalent and is shorter; under recursion it subtracts
    /// the same nanoseconds at every level, self time goes negative, and the
    /// saturating arithmetic turns that into a silent zero.
    pub child_ns: u64,
    /// False when this function was already on the stack, so its time is
    /// already being counted by an enclosing activation.
    pub outermost: bool,
    /// Whether this activation is the one that opened its context. Every
    /// activation reports self time; only this one reports a call, so a
    /// recursive function counts once per outermost entry rather than once
    /// per level.
    pub counts_here: bool,
}

/// How deep the thread currently is inside one function.
#[derive(Debug, Clone, Copy, PartialEq, Eq, Structural)]
pub struct Depth {
    pub count: u32,
    /// The context the outermost activation of this function runs in.
    pub path: u32,
    /// The context every recursive re-entry of this function runs in: a child
    /// of `path` naming the function again. Zero until the function recurses.
    pub recursion_path: u32,
    /// Set when the function called itself directly. Read when the outermost
    /// activation closes, which is the one place a self-edge is recorded.
    pub self_recursed: bool,
}

/// One thread's open activations, and what it has learnt of the call tree.
#[derive(Debug)]
pub struct ThreadState {
    stack: Vec<Activation>,
    depth: BTreeMap<u32, Depth>,
    /// This thread's cache of the process-wide context table, so the table is
    /// consulted once per context the thread reaches rather than once per
    /// call. The ids it caches came from that table, so it cannot disagree
    /// with another thread about what a context is called.
    memo: BTreeMap<(u32, u32), u32>,
}

/// What a [`ThreadState`] holds.
#[verifier::ext_equal]
pub struct ThreadModel {
    pub stack: Seq<Activation>,
    pub depth: Map<u32, Depth>,
    pub memo: Map<(u32, u32), u32>,
}

impl View for ThreadState {
    type V = ThreadModel;

    closed spec fn view(&self) -> ThreadModel {
        ThreadModel { stack: self.stack@, depth: self.depth@, memo: self.memo@ }
    }
}

/// How many activations of `f` are open.
pub open spec fn occurs(stack: Seq<Activation>, f: u32) -> nat
    decreases stack.len(),
{
    if stack.len() == 0 {
        0
    } else {
        occurs(stack.drop_last(), f) + if stack.last().func == f {
            1nat
        } else {
            0
        }
    }
}

/// The context the outermost open activation of `f` runs in.
pub open spec fn outer_path(stack: Seq<Activation>, f: u32) -> u32
    decreases stack.len(),
{
    if stack.len() == 0 {
        0
    } else if occurs(stack.drop_last(), f) == 0 && stack.last().func == f {
        stack.last().path
    } else {
        outer_path(stack.drop_last(), f)
    }
}

/// What closing an activation reports.
pub struct Closed {
    pub func: u32,
    pub path: u32,
    pub elapsed: u64,
    pub self_ns: u64,
    pub outermost: bool,
    pub counts_here: bool,
    /// The call from another function, where there was one.
    pub edge: Option<(u32, u32)>,
    /// The function called itself directly while this activation was its
    /// outermost.
    pub self_edge: bool,
    /// How many activations are still open around it.
    pub depth: nat,
}

/// The accumulator once a closed activation is in it.
pub open spec fn recording(a: AccumModel, c: Closed) -> AccumModel {
    let a = match c.edge {
        Some(pair) => a.plus_edge(pair),
        None => a,
    };
    let a = if c.self_edge {
        a.plus_edge((c.func, c.func))
    } else {
        a
    };
    let a = a.plus_share(
        c.path,
        StackStat {
            count: if c.counts_here {
                1
            } else {
                0
            },
            self_ns: c.self_ns,
        },
    );
    if c.outermost {
        a.plus_call(c.func, c.elapsed)
    } else {
        a
    }
}

impl ThreadModel {
    /// A thread nothing measured is running on.
    pub open spec fn blank() -> ThreadModel {
        ThreadModel { stack: Seq::empty(), depth: Map::empty(), memo: Map::empty() }
    }

    /// What is known of each function agrees with the activations that are
    /// open, and each activation says of itself what its place on the stack
    /// makes true.
    pub open spec fn wf(self) -> bool {
        &&& self.stack.len() <= u32::MAX
        &&& forall|f: u32| #[trigger]
            self.depth.contains_key(f) <==> occurs(self.stack, f) > 0
        &&& forall|f: u32| #[trigger]
            self.depth.contains_key(f) ==> self.depth[f].count == occurs(self.stack, f)
                && self.depth[f].path == outer_path(self.stack, f)
        &&& forall|i: int|
            0 <= i < self.stack.len() ==> {
                let a = #[trigger] self.stack[i];
                let below = occurs(self.stack.take(i), a.func);
                &&& a.outermost == (below == 0)
                &&& a.counts_here == (below <= 1)
                &&& a.parent == if i == 0 {
                    0
                } else {
                    self.stack[i - 1].func
                }
            }
    }

    /// The function and the context of the innermost open activation.
    pub open spec fn caller(self) -> (u32, u32) {
        if self.stack.len() == 0 {
            (0, 0)
        } else {
            (self.stack.last().func, self.stack.last().path)
        }
    }

    /// The context a call of `func` runs in, as the context it hangs off and
    /// the function.
    ///
    /// Where the function is not on the stack that is an ordinary context under
    /// whoever called it. Where it is, every level runs in one shared context
    /// hanging off the function's own outermost node, which is what keeps deep
    /// recursion from interning a context per level. Hanging it off the
    /// outermost node rather than off the nearest one is also what bounds a
    /// cycle through several functions.
    pub open spec fn wanted(self, func: u32) -> (u32, u32) {
        if self.depth.contains_key(func) {
            (self.depth[func].path, func)
        } else {
            (self.caller().1, func)
        }
    }

    /// The id of that context, where the thread already knows it.
    pub open spec fn known(self, func: u32) -> Option<u32> {
        if self.depth.contains_key(func) && self.depth[func].recursion_path != 0 {
            Some(self.depth[func].recursion_path)
        } else {
            ring::held(self.memo, self.wanted(func))
        }
    }

    /// The context a call of `func` runs in, once the table has been asked for
    /// what the thread does not know. A full table answers zero, and the
    /// activation then reports against its parent: the tree stops deepening
    /// instead of growing without bound.
    pub open spec fn path_for(self, func: u32, interned: u32) -> u32 {
        match self.known(func) {
            Some(path) => path,
            None => if interned == 0 {
                self.wanted(func).0
            } else {
                interned
            },
        }
    }

    /// The thread once a call of `func` has begun.
    pub open spec fn opening(self, func: u32, interned: u32, now: u64) -> ThreadModel {
        let path = self.path_for(func, interned);
        let (parent, _) = self.caller();
        let recursive = self.depth.contains_key(func);
        let held = self.depth[func];
        let depth = if recursive {
            Depth {
                count: (held.count + 1) as u32,
                path: held.path,
                recursion_path: path,
                self_recursed: held.self_recursed || parent == func,
            }
        } else {
            Depth { count: 1, path, recursion_path: 0, self_recursed: false }
        };
        ThreadModel {
            stack: self.stack.push(
                Activation {
                    func,
                    parent,
                    path,
                    start: now,
                    child_ns: 0,
                    outermost: !recursive,
                    counts_here: !recursive || held.count == 1,
                },
            ),
            depth: self.depth.insert(func, depth),
            memo: if self.known(func) is None && interned != 0 {
                self.memo.insert(self.wanted(func), interned)
            } else {
                self.memo
            },
        }
    }

    /// What closing the innermost activation reports.
    pub open spec fn report(self, now: u64) -> Closed {
        let a = self.stack.last();
        let elapsed = if now > a.start {
            (now - a.start) as u64
        } else {
            0
        };
        Closed {
            func: a.func,
            path: a.path,
            elapsed,
            self_ns: if elapsed > a.child_ns {
                (elapsed - a.child_ns) as u64
            } else {
                0
            },
            outermost: a.outermost,
            counts_here: a.counts_here,
            edge: if a.parent != 0 && a.parent != a.func {
                Some((a.parent, a.func))
            } else {
                None
            },
            self_edge: a.outermost && self.depth[a.func].count == 1
                && self.depth[a.func].self_recursed,
            depth: (self.stack.len() - 1) as nat,
        }
    }

    /// The thread once its innermost activation has closed. Its inclusive time
    /// is charged to whoever is still on the stack.
    pub open spec fn closing(self, now: u64) -> ThreadModel {
        let a = self.stack.last();
        let elapsed = self.report(now).elapsed;
        let rest = self.stack.drop_last();
        let d = self.depth[a.func];
        ThreadModel {
            stack: if rest.len() == 0 {
                rest
            } else {
                let caller = rest.last();
                rest.update(
                    rest.len() - 1,
                    Activation { child_ns: quantity::capped(caller.child_ns, elapsed), ..caller },
                )
            },
            depth: if d.count <= 1 {
                self.depth.remove(a.func)
            } else {
                self.depth.insert(a.func, Depth { count: (d.count - 1) as u32, ..d })
            },
            memo: self.memo,
        }
    }
}

/// Activations that differ only in the time charged to them count alike.
proof fn lemma_charging_moves_no_activation(stack: Seq<Activation>, a: Activation, f: u32)
    requires
        stack.len() > 0,
        a.func == stack.last().func,
        a.path == stack.last().path,
    ensures
        occurs(stack.update(stack.len() - 1, a), f) == occurs(stack, f),
        outer_path(stack.update(stack.len() - 1, a), f) == outer_path(stack, f),
{
    assert(stack.update(stack.len() - 1, a).drop_last() =~= stack.drop_last());
}

/// A prefix of the stack counts no more than the whole.
proof fn lemma_occurs_bounded(stack: Seq<Activation>, f: u32)
    ensures
        occurs(stack, f) <= stack.len(),
    decreases stack.len(),
{
    if stack.len() > 0 {
        lemma_occurs_bounded(stack.drop_last(), f);
    }
}

/// Opening keeps what is known of the stack true of it.
pub proof fn lemma_opening_keeps_the_thread_sound(
    t: ThreadModel,
    func: u32,
    interned: u32,
    now: u64,
)
    requires
        t.wf(),
        t.stack.len() < u32::MAX,
    ensures
        t.opening(func, interned, now).wf(),
{
    let after = t.opening(func, interned, now);
    assert(after.stack.drop_last() =~= t.stack);
    assert forall|f: u32| #[trigger] after.depth.contains_key(f) <==> occurs(after.stack, f)
        > 0 by {
        assert(t.depth.contains_key(f) <==> occurs(t.stack, f) > 0);
    }
    assert forall|f: u32| #[trigger] after.depth.contains_key(f) implies after.depth[f].count
        == occurs(after.stack, f) && after.depth[f].path == outer_path(after.stack, f) by {
        assert(t.depth.contains_key(f) <==> occurs(t.stack, f) > 0);
        lemma_occurs_bounded(t.stack, f);
    }
    assert forall|i: int| 0 <= i < after.stack.len() implies {
        let a = #[trigger] after.stack[i];
        let below = occurs(after.stack.take(i), a.func);
        &&& a.outermost == (below == 0)
        &&& a.counts_here == (below <= 1)
        &&& a.parent == if i == 0 {
            0
        } else {
            after.stack[i - 1].func
        }
    } by {
        if i < t.stack.len() {
            assert(after.stack.take(i) =~= t.stack.take(i));
            assert(after.stack[i] == t.stack[i]);
        } else {
            assert(after.stack.take(i) =~= t.stack);
            assert(t.depth.contains_key(func) <==> occurs(t.stack, func) > 0);
        }
    }
}

/// Closing keeps what is known of the stack true of it.
pub proof fn lemma_closing_keeps_the_thread_sound(t: ThreadModel, now: u64)
    requires
        t.wf(),
        t.stack.len() > 0,
    ensures
        t.closing(now).wf(),
        t.closing(now).stack.len() == t.stack.len() - 1,
{
    let after = t.closing(now);
    let a = t.stack.last();
    let rest = t.stack.drop_last();
    assert forall|f: u32|
        occurs(after.stack, f) == occurs(rest, f) && outer_path(after.stack, f) == outer_path(
            rest,
            f,
        ) by {
        if rest.len() > 0 {
            lemma_charging_moves_no_activation(rest, after.stack.last(), f);
        }
    }
    assert(t.depth.contains_key(a.func) <==> occurs(t.stack, a.func) > 0);
    assert forall|f: u32| #[trigger] after.depth.contains_key(f) <==> occurs(after.stack, f)
        > 0 by {
        assert(t.depth.contains_key(f) <==> occurs(t.stack, f) > 0);
        assert(occurs(after.stack, f) == occurs(rest, f));
    }
    assert forall|f: u32| #[trigger] after.depth.contains_key(f) implies after.depth[f].count
        == occurs(after.stack, f) && after.depth[f].path == outer_path(after.stack, f) by {
        assert(t.depth.contains_key(f) <==> occurs(t.stack, f) > 0);
        assert(occurs(after.stack, f) == occurs(rest, f));
        assert(outer_path(after.stack, f) == outer_path(rest, f));
    }
    assert forall|i: int| 0 <= i < after.stack.len() implies {
        let b = #[trigger] after.stack[i];
        let below = occurs(after.stack.take(i), b.func);
        &&& b.outermost == (below == 0)
        &&& b.counts_here == (below <= 1)
        &&& b.parent == if i == 0 {
            0
        } else {
            after.stack[i - 1].func
        }
    } by {
        assert(after.stack.take(i) =~= t.stack.take(i));
        assert(t.stack[i].func == after.stack[i].func);
    }
}

impl ThreadState {
    pub fn new() -> (r: Self)
        ensures
            r@ == ThreadModel::blank(),
            r@.wf(),
    {
        let r = ThreadState { stack: Vec::new(), depth: BTreeMap::new(), memo: BTreeMap::new() };
        proof {
            assert(r@ =~= ThreadModel::blank());
        }
        r
    }

    /// How many activations are open. Zero everywhere a measured function is
    /// not currently running, including after one panicked.
    pub fn open_activations(&self) -> (r: usize)
        ensures
            r == self@.stack.len(),
    {
        self.stack.len()
    }

    fn caller(&self) -> (r: (u32, u32))
        ensures
            r == self@.caller(),
    {
        if self.stack.len() == 0 {
            (0, 0)
        } else {
            let a = self.stack[self.stack.len() - 1];
            (a.func, a.path)
        }
    }

    fn wanted(&self, func: u32) -> (r: (u32, u32))
        ensures
            r == self@.wanted(func),
    {
        match self.depth.get(&func) {
            Some(d) => (d.path, func),
            None => (self.caller().1, func),
        }
    }

    fn known(&self, func: u32) -> (r: Option<u32>)
        ensures
            r == self@.known(func),
    {
        if let Some(d) = self.depth.get(&func) {
            if d.recursion_path != 0 {
                return Some(d.recursion_path);
            }
        }
        match self.memo.get(&self.wanted(func)) {
            Some(path) => Some(*path),
            None => None,
        }
    }

    /// The context a call of `func` would run in, where the thread has to ask
    /// the table for its id.
    pub fn missing(&self, func: u32) -> (r: Option<(u32, u32)>)
        ensures
            r == if self@.known(func) is None {
                Some(self@.wanted(func))
            } else {
                None
            },
    {
        match self.known(func) {
            Some(_) => None,
            None => Some(self.wanted(func)),
        }
    }

    /// Opens an activation of `func` at `now`. `interned` is what the table
    /// answered for the context that was [`missing`](ThreadState::missing).
    pub fn open(&mut self, func: u32, interned: u32, now: u64)
        requires
            old(self)@.wf(),
            old(self)@.stack.len() < u32::MAX,
        ensures
            final(self)@ == old(self)@.opening(func, interned, now),
            final(self)@.wf(),
    {
        let ghost before = self@;
        proof {
            lemma_opening_keeps_the_thread_sound(before, func, interned, now);
            lemma_occurs_bounded(before.stack, func);
        }
        let (parent, _) = self.caller();
        let wanted = self.wanted(func);
        let path: u32 = match self.known(func) {
            Some(path) => path,
            None => {
                if interned == 0 {
                    wanted.0
                } else {
                    self.memo.insert(wanted, interned);
                    interned
                }
            },
        };
        let held = match self.depth.get(&func) {
            Some(d) => Some(*d),
            None => None,
        };
        let (depth, outermost, counts_here) = match held {
            Some(d) => {
                proof {
                    assert(before.depth.contains_key(func));
                    assert(d.count == occurs(before.stack, func));
                }
                (
                    Depth {
                        count: d.count + 1,
                        path: d.path,
                        recursion_path: path,
                        self_recursed: d.self_recursed || parent == func,
                    },
                    false,
                    d.count == 1,
                )
            },
            None => (
                Depth { count: 1, path, recursion_path: 0, self_recursed: false },
                true,
                true,
            ),
        };
        self.depth.insert(func, depth);
        self.stack.push(
            Activation { func, parent, path, start: now, child_ns: 0, outermost, counts_here },
        );
        proof {
            assert(self@ =~= before.opening(func, interned, now));
        }
    }

    /// Closes the innermost activation at `now`, and reports it. Where none is
    /// open there is nothing to close.
    pub fn close(&mut self, accum: &mut Accum, now: u64)
        requires
            old(self)@.wf(),
        ensures
            final(self)@.wf(),
            final(self)@ == if old(self)@.stack.len() == 0 {
                old(self)@
            } else {
                old(self)@.closing(now)
            },
            final(accum)@ == if old(self)@.stack.len() == 0 {
                old(accum)@
            } else {
                recording(old(accum)@, old(self)@.report(now))
            },
    {
        let ghost before = self@;
        let activation = match self.stack.pop() {
            Some(a) => a,
            None => {
                return;
            },
        };
        proof {
            lemma_closing_keeps_the_thread_sound(before, now);
            assert(before.depth.contains_key(activation.func) <==> occurs(
                before.stack,
                activation.func,
            ) > 0);
        }
        let elapsed: u64 = now.saturating_sub(activation.start);
        let open: usize = self.stack.len();
        if open > 0 {
            let caller = self.stack[open - 1];
            self.stack.set(
                open - 1,
                Activation { child_ns: caller.child_ns.saturating_add(elapsed), ..caller },
            );
        }
        let self_ns: u64 = elapsed.saturating_sub(activation.child_ns);
        let mut self_recursed = false;
        let held = match self.depth.get(&activation.func) {
            Some(d) => Some(*d),
            None => None,
        };
        if let Some(d) = held {
            if d.count <= 1 {
                self_recursed = d.self_recursed;
                self.depth.remove(&activation.func);
            } else {
                self.depth.insert(activation.func, Depth { count: d.count - 1, ..d });
            }
        }
        let caller_edge = activation.parent != 0 && activation.parent != activation.func;
        let self_edge = activation.outermost && self_recursed;
        if caller_edge {
            accum.add_edge((activation.parent, activation.func));
        }
        if self_edge {
            accum.add_edge((activation.func, activation.func));
        }
        accum.add_share(
            activation.path,
            StackStat {
                count: if activation.counts_here {
                    1
                } else {
                    0
                },
                self_ns,
            },
        );
        if activation.outermost {
            accum.add_call(activation.func, elapsed);
        }
        proof {
            assert(self@ =~= before.closing(now));
        }
    }
}

/// A call that opens and closes leaves the stack as it was, but for the time
/// charged to its caller: nothing is left behind to be taken for a caller.
pub proof fn lemma_open_and_close_balance(
    t: ThreadModel,
    func: u32,
    interned: u32,
    now: u64,
    later: u64,
)
    requires
        t.wf(),
        t.stack.len() < u32::MAX,
    ensures
        ({
            let back = t.opening(func, interned, now).closing(later);
            let r = t.opening(func, interned, now).report(later);
            &&& back.wf()
            &&& back.stack.len() == t.stack.len()
            &&& t.stack.len() > 0 ==> back.stack == t.stack.update(
                t.stack.len() - 1,
                Activation {
                    child_ns: quantity::capped(t.stack.last().child_ns, r.elapsed),
                    ..t.stack.last()
                },
            )
            &&& forall|f: u32| f != func ==> (back.depth.contains_key(f)
                <==> t.depth.contains_key(f))
            &&& forall|f: u32|
                f != func && #[trigger] t.depth.contains_key(f) ==> back.depth[f] == t.depth[f]
            &&& back.depth.contains_key(func) <==> t.depth.contains_key(func)
        }),
{
    let open = t.opening(func, interned, now);
    lemma_opening_keeps_the_thread_sound(t, func, interned, now);
    lemma_closing_keeps_the_thread_sound(open, later);
    assert(open.stack.drop_last() =~= t.stack);
    lemma_occurs_bounded(t.stack, func);
}

/// Only an outermost entry counts as a call and gives a duration, and a context
/// counts an activation once per outermost entry: a function that calls itself
/// however deep contributes one call, and one activation of the context its
/// deeper levels share.
pub proof fn lemma_recursion_counts_once(t: ThreadModel, func: u32, interned: u32, now: u64, later: u64)
    requires
        t.wf(),
        t.stack.len() < u32::MAX,
    ensures
        ({
            let r = t.opening(func, interned, now).report(later);
            &&& r.outermost == (occurs(t.stack, func) == 0)
            &&& r.counts_here == (occurs(t.stack, func) <= 1)
        }),
{
    assert(t.depth.contains_key(func) <==> occurs(t.stack, func) > 0);
}

/// Every level of a recursive function below its outermost runs in one shared
/// context, hanging off the outermost one's: it is asked for under the same
/// name at any depth, and once it has an id it is not asked for again.
pub proof fn lemma_recursion_shares_one_context(t: ThreadModel, func: u32, interned: u32, now: u64)
    requires
        t.wf(),
        t.stack.len() < u32::MAX,
        occurs(t.stack, func) > 0,
    ensures
        t.wanted(func) == (outer_path(t.stack, func), func),
        ({
            let deeper = t.opening(func, interned, now);
            &&& deeper.wanted(func) == t.wanted(func)
            &&& deeper.stack.last().path == deeper.depth[func].recursion_path
            &&& deeper.stack.last().path != 0 ==> deeper.known(func) == Some(
                deeper.stack.last().path,
            )
        }),
{
    assert(t.depth.contains_key(func));
}

/// What the thread knows of a recursion stays so while its outermost activation
/// is open, whatever other calls come and go.
pub proof fn lemma_other_calls_leave_a_recursion_alone(
    t: ThreadModel,
    func: u32,
    other: u32,
    interned: u32,
    now: u64,
)
    requires
        t.wf(),
        t.stack.len() < u32::MAX,
        occurs(t.stack, func) > 0,
        func != other,
    ensures
        t.opening(other, interned, now).depth[func] == t.depth[func],
        t.stack.last().func != func ==> t.closing(now).depth[func] == t.depth[func],
        occurs(t.stack, func) > 1 ==> t.closing(now).depth[func].recursion_path
            == t.depth[func].recursion_path && t.closing(now).depth[func].path
            == t.depth[func].path,
{
    assert(t.depth.contains_key(func));
    lemma_occurs_bounded(t.stack, func);
}

/// Something a thread does.
pub enum Op {
    Open { func: u32, interned: u32, now: u64 },
    Close { now: u64 },
}

/// When it does it.
pub open spec fn time_of(op: Op) -> u64 {
    match op {
        Op::Open { now, .. } => now,
        Op::Close { now } => now,
    }
}

/// The thread once it has done `ops`, and the activations that closed.
pub open spec fn running(t: ThreadModel, ops: Seq<Op>) -> (ThreadModel, Seq<Closed>)
    decreases ops.len(),
{
    if ops.len() == 0 {
        (t, Seq::empty())
    } else {
        let (here, closed) = running(t, ops.drop_last());
        match ops.last() {
            Op::Open { func, interned, now } => (here.opening(func, interned, now), closed),
            Op::Close { now } => (here.closing(now), closed.push(here.report(now))),
        }
    }
}

/// The clock does not run backwards.
pub open spec fn clocked(ops: Seq<Op>, from: u64) -> bool {
    &&& forall|i: int| 0 <= i < ops.len() ==> from <= #[trigger] time_of(ops[i])
    &&& forall|i: int, j: int|
        0 <= i < j < ops.len() ==> #[trigger] time_of(ops[i]) <= #[trigger] time_of(ops[j])
}

/// No activation below `base` closes.
pub open spec fn stays_above(t: ThreadModel, ops: Seq<Op>, base: nat) -> bool {
    forall|i: int|
        0 <= i < ops.len() && #[trigger] ops[i] is Close ==> running(t, ops.take(i)).0.stack.len()
            > base
}

/// Each activation began before the next, and what its callees took fits in
/// between.
pub open spec fn timely(stack: Seq<Activation>, now: u64) -> bool {
    forall|i: int|
        0 <= i < stack.len() ==> (#[trigger] stack[i]).start + stack[i].child_ns <= if i + 1
            < stack.len() {
            stack[i + 1].start
        } else {
            now
        }
}

/// Time charged by closed callees to activations still open from `base` up.
pub open spec fn pending(stack: Seq<Activation>, base: nat) -> nat
    decreases stack.len(),
{
    if stack.len() <= base {
        0
    } else {
        pending(stack.drop_last(), base) + stack.last().child_ns as nat
    }
}

/// Self time reported altogether.
pub open spec fn self_total(closed: Seq<Closed>) -> nat
    decreases closed.len(),
{
    if closed.len() == 0 {
        0
    } else {
        self_total(closed.drop_last()) + closed.last().self_ns as nat
    }
}

/// Inclusive time of the activations that closed directly above `base`.
pub open spec fn inclusive_total(closed: Seq<Closed>, base: nat) -> nat
    decreases closed.len(),
{
    if closed.len() == 0 {
        0
    } else {
        inclusive_total(closed.drop_last(), base) + if closed.last().depth == base {
            closed.last().elapsed as nat
        } else {
            0
        }
    }
}

proof fn lemma_running_keeps_time(t: ThreadModel, ops: Seq<Op>, base: nat, from: u64)
    requires
        timely(t.stack, from),
        clocked(ops, from),
        stays_above(t, ops, base),
        base <= t.stack.len(),
    ensures
        timely(
            running(t, ops).0.stack,
            if ops.len() == 0 {
                from
            } else {
                time_of(ops.last())
            },
        ),
        running(t, ops).0.stack.len() >= base,
        self_total(running(t, ops).1) + pending(t.stack, base) == inclusive_total(
            running(t, ops).1,
            base,
        ) + pending(running(t, ops).0.stack, base),
    decreases ops.len(),
{
    if ops.len() > 0 {
        let front = ops.drop_last();
        let op = ops.last();
        assert forall|i: int| 0 <= i < front.len() implies from <= #[trigger] time_of(
            front[i],
        ) by {
            assert(front[i] == ops[i]);
            assert(from <= time_of(ops[i]));
        }
        assert forall|i: int, j: int| 0 <= i < j < front.len() implies #[trigger] time_of(front[i])
            <= #[trigger] time_of(front[j]) by {
            assert(time_of(ops[i]) <= time_of(ops[j]));
        }
        assert forall|i: int| 0 <= i < front.len() && #[trigger] front[i] is Close implies running(
            t,
            front.take(i),
        ).0.stack.len() > base by {
            assert(ops[i] is Close);
            assert(front.take(i) =~= ops.take(i));
        }
        lemma_running_keeps_time(t, front, base, from);
        let (here, closed) = running(t, front);
        let last = if front.len() == 0 {
            from
        } else {
            time_of(front.last())
        };
        assert(last <= time_of(op)) by {
            assert(time_of(ops[ops.len() - 1]) == time_of(op));
            if front.len() > 0 {
                assert(time_of(ops[ops.len() - 2]) <= time_of(ops[ops.len() - 1]));
                assert(front.last() == ops[ops.len() - 2]);
            }
        }
        match op {
            Op::Open { func, interned, now } => {
                let after = here.opening(func, interned, now);
                assert(after.stack.drop_last() =~= here.stack);
                assert forall|i: int| 0 <= i < after.stack.len() implies (
                #[trigger] after.stack[i]).start + after.stack[i].child_ns <= if i + 1
                    < after.stack.len() {
                    after.stack[i + 1].start
                } else {
                    now
                } by {
                    if i < here.stack.len() {
                        assert(after.stack[i] == here.stack[i]);
                        if i + 1 < here.stack.len() {
                            assert(after.stack[i + 1] == here.stack[i + 1]);
                        }
                    }
                }
            },
            Op::Close { now } => {
                assert(ops.take(ops.len() - 1) =~= front);
                assert(ops[ops.len() - 1] is Close);
                let s = here.stack;
                let a = s.last();
                let rest = s.drop_last();
                let r = here.report(now);
                let after = here.closing(now);
                assert(s[s.len() - 1].start + a.child_ns <= last);
                assert(r.elapsed == now - a.start);
                assert(r.self_ns == r.elapsed - a.child_ns);
                assert(closed.push(r).drop_last() =~= closed);
                if rest.len() > 0 {
                    let c = rest.last();
                    assert(c == s[s.len() - 2]);
                    assert(c.start + c.child_ns <= a.start);
                    assert(after.stack.last().child_ns == c.child_ns + r.elapsed);
                    assert(after.stack.drop_last() =~= rest.drop_last());
                    assert forall|i: int| 0 <= i < after.stack.len() implies (
                    #[trigger] after.stack[i]).start + after.stack[i].child_ns <= if i + 1
                        < after.stack.len() {
                        after.stack[i + 1].start
                    } else {
                        now
                    } by {
                        if i + 1 < after.stack.len() {
                            assert(after.stack[i] == s[i]);
                            assert(after.stack[i + 1].start == s[i + 1].start);
                        }
                    }
                }
                assert(s.len() > base);
                assert(pending(s, base) == pending(rest, base) + a.child_ns);
                assert(r.depth == rest.len());
                if rest.len() > base {
                    assert(pending(rest, base) == pending(rest.drop_last(), base)
                        + rest.last().child_ns);
                    assert(pending(after.stack, base) == pending(rest.drop_last(), base)
                        + rest.last().child_ns + r.elapsed);
                } else {
                    assert(pending(rest, base) == 0);
                    assert(pending(after.stack, base) == 0);
                }
                assert(self_total(closed.push(r)) == self_total(closed) + r.self_ns);
            },
        }
    }
}

/// Self time adds up: over whatever a thread does, the self time of the
/// activations that closed is the inclusive time of the outermost of them, plus
/// what is charged so far to those still open. No nanosecond is counted twice
/// and none is lost, however the calls nest or recurse.
pub proof fn lemma_self_time_adds_up(t: ThreadModel, ops: Seq<Op>, base: nat, from: u64)
    requires
        timely(t.stack, from),
        clocked(ops, from),
        stays_above(t, ops, base),
        base <= t.stack.len(),
    ensures
        self_total(running(t, ops).1) + pending(t.stack, base) == inclusive_total(
            running(t, ops).1,
            base,
        ) + pending(running(t, ops).0.stack, base),
{
    lemma_running_keeps_time(t, ops, base, from);
}

/// Summing a subtree gives its inclusive time: when the activations opened
/// since have all closed again, their self time is exactly the inclusive time
/// of those that were called directly.
pub proof fn lemma_a_subtree_sums_to_its_inclusive_time(t: ThreadModel, ops: Seq<Op>, from: u64)
    requires
        timely(t.stack, from),
        clocked(ops, from),
        stays_above(t, ops, t.stack.len()),
        running(t, ops).0.stack.len() == t.stack.len(),
    ensures
        self_total(running(t, ops).1) == inclusive_total(running(t, ops).1, t.stack.len()),
{
    lemma_running_keeps_time(t, ops, t.stack.len(), from);
}

/// The accumulator once everything in `closed` is in it.
pub open spec fn recording_all(a: AccumModel, closed: Seq<Closed>) -> AccumModel
    decreases closed.len(),
{
    if closed.len() == 0 {
        a
    } else {
        recording(recording_all(a, closed.drop_last()), closed.last())
    }
}

/// Self time reported for one context.
pub open spec fn self_in(closed: Seq<Closed>, path: u32) -> nat
    decreases closed.len(),
{
    if closed.len() == 0 {
        0
    } else {
        self_in(closed.drop_last(), path) + if closed.last().path == path {
            closed.last().self_ns as nat
        } else {
            0
        }
    }
}

/// A context's share of a window is what the activations that ran in it
/// reported, and nothing else.
pub proof fn lemma_a_context_holds_what_it_was_charged(
    a: AccumModel,
    closed: Seq<Closed>,
    path: u32,
)
    requires
        accum::share_of(a.stacks, path).self_ns + self_in(closed, path) <= u64::MAX,
    ensures
        accum::share_of(recording_all(a, closed).stacks, path).self_ns == accum::share_of(
            a.stacks,
            path,
        ).self_ns + self_in(closed, path),
    decreases closed.len(),
{
    if closed.len() > 0 {
        lemma_a_context_holds_what_it_was_charged(a, closed.drop_last(), path);
    }
}

/// What the thread has cached is what the table says.
pub open spec fn agrees(t: ThreadModel, table: TableModel) -> bool {
    forall|p: (u32, u32)| #[trigger]
        t.memo.contains_key(p) ==> table.has(p.0, p.1) && t.memo[p] == table.id_of(p.0, p.1)
}

/// Every context the thread runs in has an id the table handed out.
pub open spec fn rooted(t: ThreadModel, table: TableModel) -> bool {
    &&& forall|i: int|
        0 <= i < t.stack.len() ==> (#[trigger] t.stack[i]).path <= table.nodes.len()
    &&& forall|f: u32| #[trigger]
        t.depth.contains_key(f) ==> t.depth[f].path <= table.nodes.len()
            && t.depth[f].recursion_path <= table.nodes.len()
}

/// A cache stays right however the table grows, whichever thread grows it.
pub proof fn lemma_a_cache_outlives_growth(
    t: ThreadModel,
    table: TableModel,
    parent: u32,
    func: u32,
    max: usize,
)
    requires
        table.wf(),
        parent <= table.nodes.len(),
        agrees(t, table),
        rooted(t, table),
    ensures
        agrees(t, table.interning(parent, func, max)),
        rooted(t, table.interning(parent, func, max)),
{
    paths::lemma_interning_keeps_every_id(table, parent, func, max);
}

/// The thread and the table once a call of `func` has begun: the table is asked
/// for the context only where the thread does not know it.
pub open spec fn entered(
    t: ThreadModel,
    table: TableModel,
    func: u32,
    max: usize,
    now: u64,
    after: ThreadModel,
    grown: TableModel,
) -> bool {
    let (parent, _) = t.wanted(func);
    if t.known(func) is None {
        grown == table.interning(parent, func, max) && after == t.opening(
            func,
            table.handing_out(parent, func, max),
            now,
        )
    } else {
        grown == table && after == t.opening(func, 0, now)
    }
}

impl ThreadState {
    /// Opens an activation of `func`, asking `table` for its context where the
    /// thread does not know it.
    pub fn open_in(&mut self, table: &mut PathTable, max: usize, func: u32, now: u64)
        requires
            old(self)@.wf(),
            old(self)@.stack.len() < u32::MAX,
            old(table).wf(),
            agrees(old(self)@, old(table)@),
            rooted(old(self)@, old(table)@),
        ensures
            final(self)@.wf(),
            final(table).wf(),
            agrees(final(self)@, final(table)@),
            rooted(final(self)@, final(table)@),
            entered(
                old(self)@,
                old(table)@,
                func,
                max,
                now,
                final(self)@,
                final(table)@,
            ),
    {
        let ghost before = self@;
        let ghost tree = table@;
        proof {
            table.lemma_sound();
        }
        let interned: u32 = match self.missing(func) {
            Some((parent, wanted)) => {
                proof {
                    if before.depth.contains_key(func) {
                        assert(before.depth[func].path <= tree.nodes.len());
                    } else if before.stack.len() > 0 {
                        assert(before.stack[before.stack.len() - 1].path <= tree.nodes.len());
                    }
                    lemma_a_cache_outlives_growth(before, tree, parent, func, max);
                    if tree.handing_out(parent, func, max) != 0 {
                        paths::lemma_interning_twice_changes_nothing(tree, parent, func, max);
                    }
                }
                table.intern_path(parent, wanted, max)
            },
            None => 0,
        };
        self.open(func, interned, now);
        proof {
            let after = self@;
            let grown = table@;
            if before.known(func) is None && interned != 0 {
                assert(grown.has(before.wanted(func).0, func));
                assert(interned <= grown.nodes.len()) by {
                    let (parent, _) = before.wanted(func);
                    let i = choose|i: int|
                        0 <= i < grown.nodes.len() && grown.nodes[i] == (parent, func);
                    paths::lemma_ids_are_places(grown, i);
                }
            }
            assert(after.stack.last().path <= grown.nodes.len()) by {
                if before.known(func) is None {
                    if interned == 0 {
                        if before.depth.contains_key(func) {
                            assert(before.depth[func].path <= grown.nodes.len());
                        } else if before.stack.len() > 0 {
                            assert(before.stack[before.stack.len() - 1].path <= grown.nodes.len());
                        }
                    }
                } else if before.depth.contains_key(func) && before.depth[func].recursion_path
                    != 0 {
                    assert(before.depth[func].recursion_path <= grown.nodes.len());
                } else {
                    let p = before.wanted(func);
                    assert(before.memo.contains_key(p));
                    let i = choose|i: int| 0 <= i < tree.nodes.len() && tree.nodes[i] == p;
                    paths::lemma_ids_are_places(tree, i);
                }
            }
            assert forall|i: int| 0 <= i < after.stack.len() implies (#[trigger]
            after.stack[i]).path <= grown.nodes.len() by {
                if i < before.stack.len() {
                    assert(after.stack[i] == before.stack[i]);
                }
            }
        }
    }
}

} // verus!
