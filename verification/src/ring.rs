//! Time-bucketed windows, newest at the back.
//!
//! A window's span comes from the frame's own `t_ns`, not from the emitter's
//! declared `window_ms`. An emitter that picks 10ms windows then folds ten
//! frames into one fine window instead of handing the UI a different time axis
//! per process.
use std::collections::BTreeMap;

use vstd::prelude::*;

use crate::dist;
use crate::proto::{FunctionId, PathId, TypeId};
use crate::quantity;
use crate::quantity::{Absolute, Cumulative};

verus! {

broadcast use crate::ordered::group_sorted_maps;

pub const FINE_RESOLUTION_NS: u64 = 100_000_000;

pub const FINE_CAPACITY: usize = 600;

pub const COARSE_RESOLUTION_NS: u64 = 1_000_000_000;

pub const COARSE_CAPACITY: usize = 900;

/// One function's share of a window. Both fields accumulate.
#[derive(Debug, Clone, Copy, PartialEq, Eq)]
pub struct CallDelta {
    pub calls: Cumulative,
    pub ns: Cumulative,
}

/// The two counts of a [`CallDelta`].
pub struct CallModel {
    pub calls: u64,
    pub ns: u64,
}

impl View for CallDelta {
    type V = CallModel;

    open spec fn view(&self) -> CallModel {
        CallModel { calls: self.calls@, ns: self.ns@ }
    }
}

impl Default for CallDelta {
    fn default() -> (r: Self)
        ensures
            r@ == (CallModel { calls: 0, ns: 0 }),
    {
        CallDelta { calls: Cumulative::zero(), ns: Cumulative::zero() }
    }
}

/// One calling context's share of a window. Both fields are deltas.
#[derive(Debug, Clone, Copy, PartialEq, Eq)]
pub struct StackDelta {
    pub calls: Cumulative,
    /// Time spent in this context and outside any measured callee, so summing
    /// a subtree gives inclusive time without counting a nanosecond twice.
    pub self_ns: Cumulative,
}

/// The two counts of a [`StackDelta`].
pub struct StackModel {
    pub calls: u64,
    pub self_ns: u64,
}

impl View for StackDelta {
    type V = StackModel;

    open spec fn view(&self) -> StackModel {
        StackModel { calls: self.calls@, self_ns: self.self_ns@ }
    }
}

impl Default for StackDelta {
    fn default() -> (r: Self)
        ensures
            r@ == (StackModel { calls: 0, self_ns: 0 }),
    {
        StackDelta { calls: Cumulative::zero(), self_ns: Cumulative::zero() }
    }
}

/// One type's live-instance reading. Every field is absolute.
#[derive(Debug, PartialEq, Eq)]
pub struct CensusReading {
    pub live: Absolute,
    pub bytes: Absolute,
    pub size_buckets: Vec<(u16, u32)>,
    /// When the reading was taken, so a later one wins regardless of arrival
    /// order.
    pub at_t_ns: u64,
}

/// What a [`CensusReading`] says.
#[verifier::ext_equal]
pub struct CensusModel {
    pub live: u64,
    pub bytes: u64,
    pub size_buckets: Seq<(u16, u32)>,
    pub at_t_ns: u64,
}

impl View for CensusReading {
    type V = CensusModel;

    open spec fn view(&self) -> CensusModel {
        CensusModel {
            live: self.live@,
            bytes: self.bytes@,
            size_buckets: self.size_buckets@,
            at_t_ns: self.at_t_ns,
        }
    }
}

impl Clone for CensusReading {
    fn clone(&self) -> (r: Self)
        ensures
            r@ == self@,
    {
        CensusReading {
            live: self.live,
            bytes: self.bytes,
            size_buckets: dist::copy_entries(&self.size_buckets),
            at_t_ns: self.at_t_ns,
        }
    }
}

/// The reading that stands once `next` has arrived beside `held`: the later
/// one, and the newly arrived one between two taken at the same instant.
pub open spec fn prevailing(held: Option<CensusModel>, next: CensusModel) -> CensusModel {
    match held {
        Some(h) => if h.at_t_ns > next.at_t_ns {
            h
        } else {
            next
        },
        None => next,
    }
}

/// What a map holds under `k`, if anything.
pub open spec fn held<K, V>(m: Map<K, V>, k: K) -> Option<V> {
    if m.contains_key(k) {
        Some(m[k])
    } else {
        None
    }
}

/// One span of time and everything that happened in it.
#[derive(Debug)]
pub struct Window {
    pub index: u64,
    pub resolution_ns: u64,
    pub calls: BTreeMap<u32, CallDelta>,
    pub edges: BTreeMap<(u32, u32), Cumulative>,
    pub stacks: BTreeMap<u32, StackDelta>,
    pub census: BTreeMap<u32, CensusReading>,
}

/// What a [`Window`] holds, by function, pair of functions, context and type.
#[verifier::ext_equal]
pub struct WindowModel {
    pub index: u64,
    pub resolution_ns: u64,
    pub calls: Map<u32, CallModel>,
    pub edges: Map<(u32, u32), u64>,
    pub stacks: Map<u32, StackModel>,
    pub census: Map<u32, CensusModel>,
}

impl View for Window {
    type V = WindowModel;

    open spec fn view(&self) -> WindowModel {
        WindowModel {
            index: self.index,
            resolution_ns: self.resolution_ns,
            calls: self.calls@.map_values(|d: CallDelta| d@),
            edges: self.edges@.map_values(|c: Cumulative| c@),
            stacks: self.stacks@.map_values(|d: StackDelta| d@),
            census: self.census@.map_values(|r: CensusReading| r@),
        }
    }
}

/// A window nothing has happened in.
pub open spec fn blank(index: u64, resolution_ns: u64) -> WindowModel {
    WindowModel {
        index,
        resolution_ns,
        calls: Map::empty(),
        edges: Map::empty(),
        stacks: Map::empty(),
        census: Map::empty(),
    }
}

impl WindowModel {
    pub open spec fn plus_calls(self, func: u32, calls: u64, ns: u64) -> WindowModel {
        let d = match held(self.calls, func) {
            Some(d) => d,
            None => CallModel { calls: 0, ns: 0 },
        };
        WindowModel {
            calls: self.calls.insert(
                func,
                CallModel {
                    calls: quantity::capped(d.calls, calls),
                    ns: quantity::capped(d.ns, ns),
                },
            ),
            ..self
        }
    }

    pub open spec fn plus_edge(self, from: u32, to: u32, calls: u64) -> WindowModel {
        WindowModel { edges: self::plus_edge(self.edges, (from, to), calls), ..self }
    }

    pub open spec fn plus_stack(self, path: u32, calls: u64, self_ns: u64) -> WindowModel {
        let d = match held(self.stacks, path) {
            Some(d) => d,
            None => StackModel { calls: 0, self_ns: 0 },
        };
        WindowModel {
            stacks: self.stacks.insert(
                path,
                StackModel {
                    calls: quantity::capped(d.calls, calls),
                    self_ns: quantity::capped(d.self_ns, self_ns),
                },
            ),
            ..self
        }
    }

    pub open spec fn with_census(self, ty: u32, reading: CensusModel) -> WindowModel {
        WindowModel {
            census: self.census.insert(ty, prevailing(held(self.census, ty), reading)),
            ..self
        }
    }

    pub open spec fn nothing_happened(self) -> bool {
        self == blank(self.index, self.resolution_ns)
    }
}

/// Call counts by pair of functions, with `calls` more on one pair.
pub open spec fn plus_edge(edges: Map<(u32, u32), u64>, pair: (u32, u32), calls: u64) -> Map<
    (u32, u32),
    u64,
> {
    let before = match held(edges, pair) {
        Some(c) => c,
        None => 0,
    };
    edges.insert(pair, quantity::capped(before, calls))
}

/// Adds `calls` to the count held for one pair of functions.
pub fn add_to_edge(edges: &mut BTreeMap<(u32, u32), Cumulative>, pair: (u32, u32), calls: u64)
    ensures
        final(edges)@.map_values(|c: Cumulative| c@) == plus_edge(
            old(edges)@.map_values(|c: Cumulative| c@),
            pair,
            calls,
        ),
{
    let mut count = match edges.get(&pair) {
        Some(c) => *c,
        None => Cumulative::zero(),
    };
    count.accumulate(calls);
    let ghost before = edges@.map_values(|c: Cumulative| c@);
    edges.insert(pair, count);
    proof {
        assert(edges@.map_values(|c: Cumulative| c@) =~= plus_edge(before, pair, calls));
    }
}

impl Window {
    fn new(index: u64, resolution_ns: u64) -> (r: Self)
        ensures
            r@ == blank(index, resolution_ns),
    {
        let r = Window {
            index,
            resolution_ns,
            calls: BTreeMap::new(),
            edges: BTreeMap::new(),
            stacks: BTreeMap::new(),
            census: BTreeMap::new(),
        };
        proof {
            assert(r@ =~= blank(index, resolution_ns));
        }
        r
    }

    pub fn start_t_ns(&self) -> (r: u64)
        ensures
            r == self@.start(),
    {
        quantity::times(self.index, self.resolution_ns)
    }

    pub fn end_t_ns(&self) -> (r: u64)
        ensures
            r == self@.end(),
    {
        self.start_t_ns().saturating_add(self.resolution_ns)
    }

    pub fn is_empty(&self) -> (r: bool)
        ensures
            r == self@.nothing_happened(),
    {
        let r = self.calls.is_empty() && self.edges.is_empty() && self.stacks.is_empty()
            && self.census.is_empty();
        proof {
            let w = self@;
            if r {
                assert(w =~= blank(w.index, w.resolution_ns));
            } else if w == blank(w.index, w.resolution_ns) {
                assert(self.calls@.dom() =~= w.calls.dom());
                assert(self.edges@.dom() =~= w.edges.dom());
                assert(self.stacks@.dom() =~= w.stacks.dom());
                assert(self.census@.dom() =~= w.census.dom());
            }
        }
        r
    }

    pub fn add_calls(&mut self, func: FunctionId, calls: u64, ns: u64)
        ensures
            final(self)@ == old(self)@.plus_calls(func.0, calls, ns),
    {
        let mut entry = match self.calls.get(&func.0) {
            Some(d) => *d,
            None => CallDelta::default(),
        };
        entry.calls.accumulate(calls);
        entry.ns.accumulate(ns);
        let ghost before = self@;
        self.calls.insert(func.0, entry);
        proof {
            assert(self@ =~= before.plus_calls(func.0, calls, ns));
        }
    }

    pub fn add_edge(&mut self, from: FunctionId, to: FunctionId, calls: u64)
        ensures
            final(self)@ == old(self)@.plus_edge(from.0, to.0, calls),
    {
        add_to_edge(&mut self.edges, (from.0, to.0), calls);
    }

    pub fn add_stack(&mut self, path: PathId, calls: u64, self_ns: u64)
        ensures
            final(self)@ == old(self)@.plus_stack(path.0, calls, self_ns),
    {
        let mut entry = match self.stacks.get(&path.0) {
            Some(d) => *d,
            None => StackDelta::default(),
        };
        entry.calls.accumulate(calls);
        entry.self_ns.accumulate(self_ns);
        let ghost before = self@;
        self.stacks.insert(path.0, entry);
        proof {
            assert(self@ =~= before.plus_stack(path.0, calls, self_ns));
        }
    }

    pub fn record_census(&mut self, ty: TypeId, reading: CensusReading)
        ensures
            final(self)@ == old(self)@.with_census(ty.0, reading@),
    {
        let newer_already_held = match self.census.get(&ty.0) {
            Some(held) => held.at_t_ns > reading.at_t_ns,
            None => false,
        };
        let ghost before = self@;
        if !newer_already_held {
            self.census.insert(ty.0, reading);
        }
        proof {
            assert(self@ =~= before.with_census(ty.0, reading@));
        }
    }
}

impl Clone for Window {
    fn clone(&self) -> (r: Self)
        ensures
            r@ == self@,
    {
        Window {
            index: self.index,
            resolution_ns: self.resolution_ns,
            calls: self.calls.clone(),
            edges: self.edges.clone(),
            stacks: self.stacks.clone(),
            census: self.census.clone(),
        }
    }
}

impl WindowModel {
    /// The first nanosecond the window spans.
    pub open spec fn start(self) -> u64 {
        quantity::capped_product(self.index, self.resolution_ns)
    }

    /// The first nanosecond past it.
    pub open spec fn end(self) -> u64 {
        quantity::capped(self.start(), self.resolution_ns)
    }
}

/// A fixed-length run of contiguous windows.
#[derive(Debug)]
pub struct Ring {
    resolution_ns: u64,
    capacity: usize,
    windows: Vec<Window>,
}

/// What a [`Ring`] holds, oldest window first.
#[verifier::ext_equal]
pub struct RingModel {
    pub resolution_ns: u64,
    pub capacity: usize,
    pub windows: Seq<WindowModel>,
}

impl View for Ring {
    type V = RingModel;

    closed spec fn view(&self) -> RingModel {
        RingModel {
            resolution_ns: self.resolution_ns,
            capacity: self.capacity,
            windows: self.windows@.map_values(|w: Window| w@),
        }
    }
}

/// The last `count` items of `s`, or all of them where there are fewer.
pub open spec fn last_of<T>(s: Seq<T>, count: nat) -> Seq<T> {
    if s.len() > count {
        s.skip(s.len() - count)
    } else {
        s
    }
}

impl RingModel {
    /// A ring nothing has landed in.
    pub open spec fn new(resolution_ns: u64, capacity: usize) -> RingModel {
        RingModel { resolution_ns, capacity, windows: Seq::empty() }
    }

    /// The windows are one contiguous, ascending run that fits the ring.
    pub open spec fn wf(self) -> bool {
        &&& self.resolution_ns > 0
        &&& self.capacity > 0
        &&& self.windows.len() <= self.capacity
        &&& forall|i: int|
            0 <= i < self.windows.len() ==> {
                &&& (#[trigger] self.windows[i]).index == self.windows[0].index + i
                &&& self.windows[i].resolution_ns == self.resolution_ns
            }
    }

    pub open spec fn index_of(self, t_ns: u64) -> u64 {
        t_ns / self.resolution_ns
    }

    pub open spec fn newest(self) -> Option<u64> {
        if self.windows.len() > 0 {
            Some(self.windows.last().index)
        } else {
            None
        }
    }

    pub open spec fn oldest(self) -> Option<u64> {
        if self.windows.len() > 0 {
            Some(self.windows[0].index)
        } else {
            None
        }
    }

    /// Where the window numbered `index` stands in the run.
    pub open spec fn offset_of(self, index: u64) -> int {
        index - self.windows[0].index
    }

    pub open spec fn holds(self, index: u64) -> bool {
        self.windows.len() > 0 && 0 <= self.offset_of(index) < self.windows.len()
    }

    /// The window numbered `index`, while the ring still holds it.
    pub open spec fn find(self, index: u64) -> Option<WindowModel> {
        if self.holds(index) {
            Some(self.windows[self.offset_of(index)])
        } else {
            None
        }
    }

    /// `index` lies before everything the ring still holds.
    pub open spec fn too_late(self, index: u64) -> bool {
        self.windows.len() > 0 && index < self.windows[0].index
    }

    /// The ring once it reaches up to `index`: idle windows fill the stretch
    /// in between, the oldest windows leave to make room, and a stretch the
    /// ring could not hold starts it over.
    pub open spec fn reaching(self, index: u64) -> RingModel {
        match self.newest() {
            None => RingModel { windows: seq![blank(index, self.resolution_ns)], ..self },
            Some(newest) => if index <= newest {
                self
            } else if index - newest >= self.capacity {
                RingModel { windows: seq![blank(index, self.resolution_ns)], ..self }
            } else {
                RingModel {
                    windows: last_of(
                        self.windows + idle(newest, index, self.resolution_ns),
                        self.capacity as nat,
                    ),
                    ..self
                }
            },
        }
    }

    /// The ring with the window numbered `index` replaced.
    pub open spec fn with_window(self, index: u64, w: WindowModel) -> RingModel {
        RingModel { windows: self.windows.update(self.offset_of(index), w), ..self }
    }
}

/// The idle windows after `newest`, up to and with `index`.
pub open spec fn idle(newest: u64, index: u64, resolution_ns: u64) -> Seq<WindowModel> {
    Seq::new((index - newest) as nat, |i: int| blank((newest + 1 + i) as u64, resolution_ns))
}

/// Reaching for a window keeps the run contiguous and within its capacity, and
/// afterwards the window is there.
pub proof fn lemma_reaching_keeps_the_axis_contiguous(ring: RingModel, index: u64)
    requires
        ring.wf(),
        !ring.too_late(index),
    ensures
        ring.reaching(index).wf(),
        ring.reaching(index).holds(index),
        ring.reaching(index).find(index).unwrap().index == index,
        ring.newest() is None || ring.newest().unwrap() <= index ==> ring.reaching(index).newest()
            == Some(index),
{
    if let Some(newest) = ring.newest() {
        assert(newest == ring.windows[0].index + ring.windows.len() - 1);
        if index > newest && index - newest < ring.capacity {
            let all = ring.windows + idle(newest, index, ring.resolution_ns);
            assert forall|i: int| 0 <= i < all.len() implies {
                &&& (#[trigger] all[i]).index == all[0].index + i
                &&& all[i].resolution_ns == ring.resolution_ns
            } by {
                if i < ring.windows.len() {
                    assert(all[i] == ring.windows[i]);
                }
                assert(all[0] == ring.windows[0]);
            }
            let kept = last_of(all, ring.capacity as nat);
            let skipped = all.len() - kept.len();
            assert forall|i: int| 0 <= i < kept.len() implies kept[i] == all[i + skipped] by {}
            assert(kept[0] == all[skipped]);
            assert forall|i: int| 0 <= i < kept.len() implies {
                &&& (#[trigger] kept[i]).index == kept[0].index + i
                &&& kept[i].resolution_ns == ring.resolution_ns
            } by {
                assert(kept[i] == all[i + skipped]);
            }
            assert(kept[kept.len() - 1] == all[all.len() - 1]);
        }
    }
}

/// A window the ring holds keeps its contents however often it is reached for.
pub proof fn lemma_reaching_keeps_what_is_held(ring: RingModel, index: u64, other: u64)
    requires
        ring.wf(),
        ring.holds(other),
        ring.reaching(index).holds(other),
        ring.newest().unwrap() < index ==> index - ring.newest().unwrap() < ring.capacity,
    ensures
        ring.reaching(index).find(other) == ring.find(other),
{
    let newest = ring.newest().unwrap();
    if index > newest {
        let all = ring.windows + idle(newest, index, ring.resolution_ns);
        let kept = last_of(all, ring.capacity as nat);
        let skipped = all.len() - kept.len();
        let at = ring.offset_of(other);
        assert(all[at] == ring.windows[at]);
        assert(kept[0] == all[skipped]);
        if skipped < ring.windows.len() {
            assert(all[skipped] == ring.windows[skipped]);
            assert(kept[at - skipped] == all[at]);
        } else {
            assert(all[skipped].index == newest + 1 + (skipped - ring.windows.len()));
        }
    }
}

/// Ten fine windows share one coarse window: the coarse index of an instant is
/// a tenth of its fine index.
pub proof fn lemma_ten_fine_windows_make_a_coarse_one(t_ns: u64)
    ensures
        t_ns / COARSE_RESOLUTION_NS == (t_ns / FINE_RESOLUTION_NS) / 10,
{
}

/// A window spans the instants that carry its index, and no others.
pub proof fn lemma_a_window_spans_its_own_instants(w: WindowModel, t_ns: u64)
    requires
        w.resolution_ns > 0,
        (w.index + 1) * w.resolution_ns <= u64::MAX,
    ensures
        t_ns / w.resolution_ns == w.index <==> w.start() <= t_ns < w.end(),
{
    let (i, r, t) = (w.index as int, w.resolution_ns as int, t_ns as int);
    assert((i + 1) * r == i * r + r) by (nonlinear_arith);
    assert(0 <= i * r) by (nonlinear_arith)
        requires
            0 <= i,
            0 < r,
    ;
    vstd::arithmetic::div_mod::lemma_fundamental_div_mod(t, r);
    vstd::arithmetic::div_mod::lemma_mod_bound(t, r);
    let q = t / r;
    assert(r * q == q * r) by (nonlinear_arith);
    if q < i {
        assert((q + 1) * r <= i * r) by (nonlinear_arith)
            requires
                q + 1 <= i,
                0 < r,
        ;
        assert((q + 1) * r == q * r + r) by (nonlinear_arith);
    } else if q > i {
        assert((i + 1) * r <= q * r) by (nonlinear_arith)
            requires
                i + 1 <= q,
                0 < r,
        ;
    }
}

impl Ring {
    pub fn new(resolution_ns: u64, capacity: usize) -> (r: Self)
        requires
            resolution_ns > 0,
            capacity > 0,
        ensures
            r@ == RingModel::new(resolution_ns, capacity),
            r@.wf(),
    {
        let r = Ring { resolution_ns, capacity, windows: Vec::new() };
        proof {
            assert(r@ =~= RingModel::new(resolution_ns, capacity));
        }
        r
    }

    pub fn fine() -> (r: Self)
        ensures
            r@ == RingModel::new(FINE_RESOLUTION_NS, FINE_CAPACITY),
            r@.wf(),
    {
        Ring::new(FINE_RESOLUTION_NS, FINE_CAPACITY)
    }

    pub fn coarse() -> (r: Self)
        ensures
            r@ == RingModel::new(COARSE_RESOLUTION_NS, COARSE_CAPACITY),
            r@.wf(),
    {
        Ring::new(COARSE_RESOLUTION_NS, COARSE_CAPACITY)
    }

    pub fn resolution_ns(&self) -> (r: u64)
        ensures
            r == self@.resolution_ns,
    {
        self.resolution_ns
    }

    pub fn capacity(&self) -> (r: usize)
        ensures
            r == self@.capacity,
    {
        self.capacity
    }

    pub fn len(&self) -> (r: usize)
        ensures
            r == self@.windows.len(),
    {
        self.windows.len()
    }

    pub fn is_empty(&self) -> (r: bool)
        ensures
            r == (self@.windows.len() == 0),
    {
        self.windows.len() == 0
    }

    pub fn index_of(&self, t_ns: u64) -> (r: u64)
        requires
            self@.resolution_ns > 0,
        ensures
            r == self@.index_of(t_ns),
    {
        t_ns / self.resolution_ns
    }

    /// Whether `t_ns` lies before everything the ring still holds.
    pub fn predates(&self, t_ns: u64) -> (r: bool)
        requires
            self@.resolution_ns > 0,
        ensures
            r == self@.too_late(self@.index_of(t_ns)),
    {
        self.windows.len() > 0 && self.index_of(t_ns) < self.windows[0].index
    }

    pub fn newest_index(&self) -> (r: Option<u64>)
        ensures
            r == self@.newest(),
    {
        if self.windows.len() == 0 {
            None
        } else {
            Some(self.windows[self.windows.len() - 1].index)
        }
    }

    pub fn oldest_index(&self) -> (r: Option<u64>)
        ensures
            r == self@.oldest(),
    {
        if self.windows.len() == 0 {
            None
        } else {
            Some(self.windows[0].index)
        }
    }

    /// Windows oldest first.
    pub fn iter(&self) -> (r: Vec<&Window>)
        ensures
            r@.len() == self@.windows.len(),
            forall|i: int| 0 <= i < r@.len() ==> (#[trigger] r@[i])@ == self@.windows[i],
    {
        self.most_recent(self.windows.len())
    }

    /// The last `count` windows, oldest first.
    pub fn most_recent(&self, count: usize) -> (r: Vec<&Window>)
        ensures
            r@.len() == last_of(self@.windows, count as nat).len(),
            forall|i: int|
                0 <= i < r@.len() ==> (#[trigger] r@[i])@ == last_of(self@.windows, count as nat)[i],
    {
        let len: usize = self.windows.len();
        let skip: usize = if len > count {
            len - count
        } else {
            0
        };
        let mut recent: Vec<&Window> = Vec::new();
        for at in skip..len
            invariant
                skip <= len == self.windows@.len(),
                recent@.len() == at - skip,
                forall|i: int|
                    0 <= i < recent@.len() ==> *#[trigger] recent@[i] == self.windows@[skip + i],
        {
            recent.push(&self.windows[at]);
        }
        recent
    }

    pub fn get(&self, index: u64) -> (r: Option<&Window>)
        ensures
            r is Some <==> self@.holds(index),
            r matches Some(w) ==> Some(w@) == self@.find(index),
    {
        if self.windows.len() == 0 {
            return None;
        }
        let oldest: u64 = self.windows[0].index;
        if index < oldest || index - oldest >= self.windows.len() as u64 {
            return None;
        }
        Some(&self.windows[(index - oldest) as usize])
    }

    /// Makes room for the window numbered `index`, unless it is too late for it.
    fn reach(&mut self, index: u64) -> (r: bool)
        requires
            old(self)@.wf(),
        ensures
            r == !old(self)@.too_late(index),
            final(self)@ == if r {
                old(self)@.reaching(index)
            } else {
                old(self)@
            },
    {
        let ghost before = self@;
        match self.newest_index() {
            None => {
                self.windows.push(Window::new(index, self.resolution_ns));
                proof {
                    assert(self@ =~= before.reaching(index));
                }
            },
            Some(newest) => {
                if index > newest {
                    if index - newest >= self.capacity as u64 {
                        self.windows.clear();
                        self.windows.push(Window::new(index, self.resolution_ns));
                        proof {
                            assert(self@ =~= before.reaching(index));
                        }
                    } else {
                        self.fill(newest, index);
                        self.trim();
                    }
                } else if index < self.windows[0].index {
                    return false;
                }
            },
        }
        true
    }

    /// Appends the idle windows after `newest`, up to and with `index`.
    fn fill(&mut self, newest: u64, index: u64)
        requires
            newest < index,
        ensures
            final(self)@ == (RingModel {
                windows: old(self)@.windows + idle(newest, index, old(self)@.resolution_ns),
                ..old(self)@
            }),
    {
        let ghost before = self@;
        let mut at: u64 = newest;
        while at < index
            invariant
                newest <= at <= index,
                self@ == (RingModel {
                    windows: before.windows + idle(newest, at, before.resolution_ns),
                    ..before
                }),
            decreases index - at,
        {
            at = at + 1;
            let ghost held = self@;
            self.windows.push(Window::new(at, self.resolution_ns));
            proof {
                assert(idle(newest, at, before.resolution_ns) =~= idle(
                    newest,
                    (at - 1) as u64,
                    before.resolution_ns,
                ).push(blank(at, before.resolution_ns)));
                assert(self@.windows =~= held.windows.push(blank(at, before.resolution_ns)));
            }
        }
    }

    /// Lets the oldest windows go until the rest fit.
    fn trim(&mut self)
        ensures
            final(self)@ == (RingModel {
                windows: last_of(old(self)@.windows, old(self)@.capacity as nat),
                ..old(self)@
            }),
    {
        let ghost before = self@;
        let ghost held = self.windows@;
        let len: usize = self.windows.len();
        if len > self.capacity {
            let excess: usize = len - self.capacity;
            for gone in 0..excess
                invariant
                    len == held.len(),
                    excess <= len,
                    self.windows@ =~= held.skip(gone as int),
                    self.resolution_ns == before.resolution_ns,
                    self.capacity == before.capacity,
            {
                self.windows.remove(0);
            }
        }
        proof {
            assert(self@.windows =~= last_of(before.windows, before.capacity as nat));
        }
    }

    /// The window covering `t_ns`, materializing it and any idle windows
    /// between it and the newest one so the ring stays a contiguous time axis.
    ///
    /// `None` when `t_ns` predates the oldest window the ring still holds: a
    /// frame that late has nowhere to land and the caller counts it.
    pub fn window_for(&mut self, t_ns: u64) -> (r: Option<&mut Window>)
        requires
            old(self)@.wf(),
        ensures
            r is None <==> old(self)@.too_late(old(self)@.index_of(t_ns)),
            r is None ==> final(self)@ == old(self)@,
            r matches Some(w) ==> {
                let index = old(self)@.index_of(t_ns);
                let reached = old(self)@.reaching(index);
                &&& Some(w@) == reached.find(index)
                &&& final(self)@ == reached.with_window(index, final(w)@)
            },
    {
        let index: u64 = self.index_of(t_ns);
        let ghost before = self@;
        if !self.reach(index) {
            return None;
        }
        proof {
            lemma_reaching_keeps_the_axis_contiguous(before, index);
        }
        let oldest: u64 = self.windows[0].index;
        Some(&mut self.windows[(index - oldest) as usize])
    }
}

} // verus!
