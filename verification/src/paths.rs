//! The call tree of one process: every calling context it has named.
//!
//! A context's id is its place in the table, plus one, so zero stays free for
//! the root. A node is always numbered above the parent it hangs off: you
//! cannot name a context without already holding the one it extends.
use std::collections::BTreeMap;

use vstd::prelude::*;

use crate::text;

verus! {

broadcast use crate::ordered::group_sorted_maps;

/// How many calling contexts one process may name before the tree stops
/// growing. A context costs a map entry here and a row in every window the
/// daemon retains, and both are paid for by a program's runtime behaviour
/// rather than by its source, so this is the one interning table that needs
/// a ceiling. Past it, a new context reports as its parent: the graph grows
/// shallower rather than unbounded, and the count of refusals says it happened.
pub const DEFAULT_MAX_PATHS: usize = 65_536;

/// The ceiling the environment asks for, where it asks for one.
pub fn max_paths_from(raw: Option<&str>) -> (r: usize)
    ensures
        r > 0,
        r == match raw {
            Some(raw) => match text::number_up_to(raw@, usize::MAX as u64) {
                Some(cap) if cap > 0 => cap as usize,
                _ => DEFAULT_MAX_PATHS,
            },
            None => DEFAULT_MAX_PATHS,
        },
{
    match raw {
        Some(raw) => match text::parse_up_to(raw, usize::MAX as u64) {
            Some(cap) => {
                if cap > 0 {
                    cap as usize
                } else {
                    DEFAULT_MAX_PATHS
                }
            },
            None => DEFAULT_MAX_PATHS,
        },
        None => DEFAULT_MAX_PATHS,
    }
}

/// `nodes[i]` is the context with id `i + 1`, as the context it hangs off and
/// the function it stands for.
#[derive(Debug)]
pub struct PathTable {
    nodes: Vec<(u32, u32)>,
    index: BTreeMap<(u32, u32), u32>,
    overflowed: u64,
}

/// What a [`PathTable`] holds.
#[verifier::ext_equal]
pub struct TableModel {
    pub nodes: Seq<(u32, u32)>,
    pub overflowed: u64,
}

impl View for PathTable {
    type V = TableModel;

    closed spec fn view(&self) -> TableModel {
        TableModel { nodes: self.nodes@, overflowed: self.overflowed }
    }
}

impl TableModel {
    /// No context is named twice, and each hangs off the root or off one
    /// numbered below it.
    pub open spec fn wf(self) -> bool {
        &&& self.nodes.len() <= u32::MAX
        &&& forall|i: int, j: int|
            0 <= i < j < self.nodes.len() ==> #[trigger] self.nodes[i] != #[trigger] self.nodes[j]
        &&& forall|i: int| 0 <= i < self.nodes.len() ==> (#[trigger] self.nodes[i]).0 <= i
    }

    /// Some context is `func` reached through `parent`.
    pub open spec fn has(self, parent: u32, func: u32) -> bool {
        self.nodes.contains((parent, func))
    }

    /// The id of `func` reached through `parent`, where it has one.
    pub open spec fn id_of(self, parent: u32, func: u32) -> u32 {
        let i = choose|i: int| 0 <= i < self.nodes.len() && self.nodes[i] == (parent, func);
        (i + 1) as u32
    }

    pub open spec fn is_full(self, max: usize) -> bool {
        self.nodes.len() >= max || self.nodes.len() >= u32::MAX
    }

    /// The id handed out for `func` reached through `parent`: the one it already
    /// has, the next free one, or zero once the table is full.
    pub open spec fn handing_out(self, parent: u32, func: u32, max: usize) -> u32 {
        if self.has(parent, func) {
            self.id_of(parent, func)
        } else if self.is_full(max) {
            0
        } else {
            (self.nodes.len() + 1) as u32
        }
    }

    /// The table once that id has been handed out.
    pub open spec fn interning(self, parent: u32, func: u32, max: usize) -> TableModel {
        if self.has(parent, func) {
            self
        } else if self.is_full(max) {
            TableModel { overflowed: crate::quantity::capped(self.overflowed, 1), ..self }
        } else {
            TableModel { nodes: self.nodes.push((parent, func)), ..self }
        }
    }
}

/// A context that has an id is the node at that place.
pub proof fn lemma_ids_are_places(t: TableModel, i: int)
    requires
        t.wf(),
        0 <= i < t.nodes.len(),
    ensures
        t.has(t.nodes[i].0, t.nodes[i].1),
        t.id_of(t.nodes[i].0, t.nodes[i].1) == i + 1,
{
    let (parent, func) = t.nodes[i];
    let k = choose|k: int| 0 <= k < t.nodes.len() && t.nodes[k] == (parent, func);
    assert(t.nodes[i] == (parent, func));
    if k < i {
        assert(t.nodes[k] != t.nodes[i]);
    } else if i < k {
        assert(t.nodes[i] != t.nodes[k]);
    }
}

/// Interning keeps every context the table already held under its own id, and
/// never hands one id to two contexts.
pub proof fn lemma_interning_keeps_every_id(t: TableModel, parent: u32, func: u32, max: usize)
    requires
        t.wf(),
        parent <= t.nodes.len(),
    ensures
        t.interning(parent, func, max).wf(),
        t.nodes.len() <= t.interning(parent, func, max).nodes.len(),
        t.interning(parent, func, max).nodes.take(t.nodes.len() as int) == t.nodes,
        forall|p: u32, f: u32| #[trigger]
            t.has(p, f) ==> t.interning(parent, func, max).has(p, f) && t.interning(
                parent,
                func,
                max,
            ).id_of(p, f) == t.id_of(p, f),
{
    let after = t.interning(parent, func, max);
    assert(after.nodes.take(t.nodes.len() as int) =~= t.nodes);
    assert forall|i: int, j: int| 0 <= i < j < after.nodes.len() implies #[trigger] after.nodes[i]
        != #[trigger] after.nodes[j] by {
        if j == t.nodes.len() {
            assert(t.nodes.contains(t.nodes[i]));
        }
    }
    assert forall|i: int| 0 <= i < after.nodes.len() implies (#[trigger] after.nodes[i]).0
        <= i by {
        if i < t.nodes.len() {
            assert(t.nodes[i].0 <= i);
        }
    }
    assert forall|p: u32, f: u32| #[trigger] t.has(p, f) implies after.has(p, f) && after.id_of(
        p,
        f,
    ) == t.id_of(p, f) by {
        let i = choose|i: int| 0 <= i < t.nodes.len() && t.nodes[i] == (p, f);
        lemma_ids_are_places(t, i);
        assert(after.nodes[i] == (p, f));
        lemma_ids_are_places(after, i);
    }
}

/// Asking again for a context that has an id gives the same id and adds
/// nothing.
pub proof fn lemma_interning_twice_changes_nothing(
    t: TableModel,
    parent: u32,
    func: u32,
    max: usize,
)
    requires
        t.wf(),
        parent <= t.nodes.len(),
        t.handing_out(parent, func, max) != 0,
    ensures
        ({
            let once = t.interning(parent, func, max);
            &&& once.interning(parent, func, max) == once
            &&& once.handing_out(parent, func, max) == t.handing_out(parent, func, max)
            &&& once.has(parent, func)
            &&& once.id_of(parent, func) == t.handing_out(parent, func, max)
        }),
{
    let once = t.interning(parent, func, max);
    lemma_interning_keeps_every_id(t, parent, func, max);
    if !t.has(parent, func) {
        assert(once.nodes[t.nodes.len() as int] == (parent, func));
        lemma_ids_are_places(once, t.nodes.len() as int);
    }
}

/// A context's id is above its parent's, and a full table grows no further.
pub proof fn lemma_a_context_is_numbered_above_its_parent(
    t: TableModel,
    parent: u32,
    func: u32,
    max: usize,
)
    requires
        t.wf(),
        parent <= t.nodes.len(),
    ensures
        t.handing_out(parent, func, max) != 0 ==> t.handing_out(parent, func, max) > parent,
        t.nodes.len() <= max ==> t.interning(parent, func, max).nodes.len() <= max,
{
    if t.has(parent, func) {
        let i = choose|i: int| 0 <= i < t.nodes.len() && t.nodes[i] == (parent, func);
        lemma_ids_are_places(t, i);
    }
}

impl PathTable {
    /// The index holds each node under its own id.
    pub closed spec fn wf(&self) -> bool {
        &&& self@.wf()
        &&& forall|p: (u32, u32)| #[trigger]
            self.index@.contains_key(p) <==> self.nodes@.contains(p)
        &&& forall|i: int|
            0 <= i < self.nodes@.len() ==> self.index@[#[trigger] self.nodes@[i]] == i + 1
    }

    pub fn new() -> (r: Self)
        ensures
            r.wf(),
            r@.nodes == Seq::<(u32, u32)>::empty(),
            r@.overflowed == 0,
    {
        PathTable { nodes: Vec::new(), index: BTreeMap::new(), overflowed: 0 }
    }

    /// A sound table holds sound contexts.
    pub proof fn lemma_sound(&self)
        requires
            self.wf(),
        ensures
            self@.wf(),
    {
    }

    /// Interns the context reached by calling `func` from `parent`, or returns
    /// an id already handed out for that pair.
    ///
    /// Returns `0` once the table is full, which callers read as "report this
    /// activation against its parent instead".
    pub fn intern_path(&mut self, parent: u32, func: u32, max: usize) -> (r: u32)
        requires
            old(self).wf(),
            parent <= old(self)@.nodes.len(),
        ensures
            final(self).wf(),
            r == old(self)@.handing_out(parent, func, max),
            final(self)@ == old(self)@.interning(parent, func, max),
    {
        let ghost before = self@;
        proof {
            lemma_interning_keeps_every_id(before, parent, func, max);
        }
        if let Some(existing) = self.index.get(&(parent, func)) {
            proof {
                let i = choose|i: int|
                    0 <= i < before.nodes.len() && before.nodes[i] == (parent, func);
                lemma_ids_are_places(before, i);
            }
            return *existing;
        }
        if self.nodes.len() >= max || self.nodes.len() >= u32::MAX as usize {
            self.overflowed = self.overflowed.saturating_add(1);
            return 0;
        }
        self.nodes.push((parent, func));
        let id: u32 = self.nodes.len() as u32;
        self.index.insert((parent, func), id);
        proof {
            assert(self@ =~= before.interning(parent, func, max));
            let ghost last = before.nodes.len() as int;
            assert(self.nodes@[last] == (parent, func));
            assert forall|p: (u32, u32)| #[trigger]
                self.index@.contains_key(p) <==> self.nodes@.contains(p) by {
                if before.nodes.contains(p) {
                    let k = choose|k: int| 0 <= k < before.nodes.len() && before.nodes[k] == p;
                    assert(self.nodes@[k] == p);
                }
                if self.nodes@.contains(p) && p != (parent, func) {
                    let k = choose|k: int| 0 <= k < self.nodes@.len() && self.nodes@[k] == p;
                    assert(before.nodes[k] == p);
                }
            }
            assert forall|i: int| 0 <= i < self.nodes@.len() implies self.index@[#[trigger]
                self.nodes@[i]] == i + 1 by {
                if i < last {
                    assert(before.nodes[i] == self.nodes@[i]);
                    assert(before.nodes.contains(before.nodes[i]));
                }
            }
        }
        id
    }

    /// How many contexts were refused because the table was full.
    pub fn overflowed(&self) -> (r: u64)
        ensures
            r == self@.overflowed,
    {
        self.overflowed
    }

    /// How many contexts have an id.
    pub fn len(&self) -> (r: usize)
        ensures
            r == self@.nodes.len(),
    {
        self.nodes.len()
    }

    /// The context at a place, as its parent and its function.
    pub fn node(&self, at: usize) -> (r: (u32, u32))
        requires
            at < self@.nodes.len(),
        ensures
            r == self@.nodes[at as int],
    {
        self.nodes[at]
    }

    /// Every context interned so far, as `(id, parent, func)`.
    pub fn path_nodes(&self) -> (r: Vec<(u32, u32, u32)>)
        requires
            self.wf(),
        ensures
            r@.len() == self@.nodes.len(),
            forall|i: int|
                0 <= i < r@.len() ==> #[trigger] r@[i] == (
                    (i + 1) as u32,
                    self@.nodes[i].0,
                    self@.nodes[i].1,
                ),
    {
        let mut all: Vec<(u32, u32, u32)> = Vec::new();
        for n in 0..self.nodes.len()
            invariant
                self.nodes@.len() <= u32::MAX,
                all@.len() == n,
                forall|i: int|
                    0 <= i < n ==> #[trigger] all@[i] == (
                        (i + 1) as u32,
                        self.nodes@[i].0,
                        self.nodes@[i].1,
                    ),
        {
            let (parent, func) = self.nodes[n];
            all.push((n as u32 + 1, parent, func));
        }
        all
    }
}

} // verus!
