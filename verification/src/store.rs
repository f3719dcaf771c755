//! What the daemon remembers about every process that has ever connected.
//!
//! One [`ProcessState`] per process. A process that disconnects keeps its state
//! and is marked ended, because the last thing a program did before it died is
//! usually the thing you opened the profiler for.
use std::collections::BTreeMap;

use vstd::prelude::*;
use vstd::string::*;

use crate::clock;
use crate::dist;
use crate::dist::Dist;
use crate::proto;
use crate::proto::{Event, Frame, FunctionId, Hello, Location, PathId, Register, TypeId};
use crate::quantity;
use crate::quantity::{Absolute, Cumulative};
use crate::ring;
use crate::ring::{CensusModel, CensusReading, Ring, RingModel, Window, WindowModel};
use crate::text;

verus! {

broadcast use crate::ordered::group_sorted_maps;

/// Identifies one stream from one run of one program. `started_unix_ms` keeps a
/// recycled pid from colliding with the process that used to own it, and lets a
/// stream that reconnects resume its own history.
///
/// `source` is in the id because two emitters watching one OS process agree on
/// the pid and can agree on the start time as well. Without the source they
/// share one `ProcessState`, and two independent `seq` counters folded into one
/// ring inflate the call totals by orders of magnitude while reporting the gap
/// as missed frames. Pairing the two back together is [`crate::session`]'s job,
/// at read time.
#[derive(Debug, PartialEq, Eq, PartialOrd, Ord, Hash)]
pub struct ProcessId(String);

impl View for ProcessId {
    type V = Seq<char>;

    closed spec fn view(&self) -> Seq<char> {
        self.0@
    }
}

impl Clone for ProcessId {
    fn clone(&self) -> (r: Self)
        ensures
            r@ == self@,
    {
        ProcessId(self.0.clone())
    }
}

/// `{pid}-{started_unix_ms}-{source}`.
pub open spec fn process_id(pid: u32, started_unix_ms: u64, source: Seq<char>) -> Seq<char> {
    text::decimal(pid as nat).push('-') + (text::decimal(started_unix_ms as nat).push('-') + source)
}

/// Two streams share an id only if they agree on pid, start and source alike.
pub proof fn lemma_process_ids_tell_streams_apart(
    pid: u32,
    started: u64,
    source: Seq<char>,
    other_pid: u32,
    other_started: u64,
    other_source: Seq<char>,
)
    requires
        process_id(pid, started, source) == process_id(other_pid, other_started, other_source),
    ensures
        pid == other_pid,
        started == other_started,
        source == other_source,
{
    text::lemma_decimal_holds_digits(pid as nat);
    text::lemma_decimal_holds_digits(other_pid as nat);
    text::lemma_decimal_holds_digits(started as nat);
    text::lemma_decimal_holds_digits(other_started as nat);
    text::lemma_first_separator_splits(
        text::decimal(pid as nat),
        text::decimal(started as nat).push('-') + source,
        text::decimal(other_pid as nat),
        text::decimal(other_started as nat).push('-') + other_source,
        '-',
    );
    text::lemma_first_separator_splits(
        text::decimal(started as nat),
        source,
        text::decimal(other_started as nat),
        other_source,
        '-',
    );
    text::lemma_decimal_injective(pid as nat, other_pid as nat);
    text::lemma_decimal_injective(started as nat, other_started as nat);
}

impl ProcessId {
    pub fn of(pid: u32, started_unix_ms: u64, source: &str) -> (r: Self)
        ensures
            r@ == process_id(pid, started_unix_ms, source@),
    {
        let mut id = String::new();
        text::push_decimal(&mut id, pid as u64);
        id.push('-');
        text::push_decimal(&mut id, started_unix_ms);
        id.push('-');
        id.append(source);
        proof {
            assert(id@ =~= process_id(pid, started_unix_ms, source@));
        }
        ProcessId(id)
    }

    pub fn of_hello(hello: &Hello) -> (r: Self)
        ensures
            r@ == process_id(hello.pid, hello.started_unix_ms, hello.source@),
    {
        ProcessId::of(hello.pid, hello.started_unix_ms, hello.source.as_str())
    }

    /// An id a client passes back. It is opaque, so any text will do.
    pub fn from_text(raw: &str) -> (r: Self)
        ensures
            r@ == raw@,
    {
        ProcessId(raw.to_owned())
    }

    pub fn as_str(&self) -> (r: &str)
        ensures
            r@ == self@,
    {
        self.0.as_str()
    }
}

/// Everything the boundary rejected or noticed, per process.
#[derive(Debug, Clone, Copy, PartialEq, Eq, Structural)]
pub struct Counts {
    pub frames: u64,
    pub events: u64,
    /// Events naming a function, type or context that was never registered,
    /// plus context registrations that were refused.
    pub unknown_id: u64,
    /// Lines that did not parse, plus lines that parsed into something a
    /// mid-stream frame may not be.
    pub malformed_lines: u64,
    /// Windows the emitter itself admits it dropped, counted from `seq` gaps.
    pub missed_frames: u64,
    /// Frames whose `t_ns` fell before the oldest window the fine ring holds.
    pub late_frames: u64,
}

impl Default for Counts {
    fn default() -> (r: Self)
        ensures
            r == (Counts {
                frames: 0,
                events: 0,
                unknown_id: 0,
                malformed_lines: 0,
                missed_frames: 0,
                late_frames: 0,
            }),
    {
        Counts {
            frames: 0,
            events: 0,
            unknown_id: 0,
            malformed_lines: 0,
            missed_frames: 0,
            late_frames: 0,
        }
    }
}

#[derive(Debug)]
pub struct FunctionState {
    pub name: String,
    pub module: Option<String>,
    pub location: Option<Location>,
    pub calls: Cumulative,
    pub ns_total: Cumulative,
    /// Lifetime duration histogram, bucket index to sample count.
    pub ns_buckets: BTreeMap<u16, u64>,
}

/// What a [`FunctionState`] holds.
#[verifier::ext_equal]
pub struct FunctionModel {
    pub name: Seq<char>,
    pub module: Option<Seq<char>>,
    pub location: Option<Location>,
    pub calls: u64,
    pub ns_total: u64,
    pub ns_buckets: Map<u16, u64>,
}

impl View for FunctionState {
    type V = FunctionModel;

    open spec fn view(&self) -> FunctionModel {
        FunctionModel {
            name: self.name@,
            module: text::text_of(self.module),
            location: self.location,
            calls: self.calls@,
            ns_total: self.ns_total@,
            ns_buckets: self.ns_buckets@,
        }
    }
}

/// A function nothing is known of yet.
pub open spec fn unnamed_function() -> FunctionModel {
    FunctionModel {
        name: Seq::empty(),
        module: None,
        location: None,
        calls: 0,
        ns_total: 0,
        ns_buckets: Map::empty(),
    }
}

impl Default for FunctionState {
    fn default() -> (r: Self)
        ensures
            r@ == unnamed_function(),
    {
        FunctionState {
            name: String::new(),
            module: None,
            location: None,
            calls: Cumulative::zero(),
            ns_total: Cumulative::zero(),
            ns_buckets: BTreeMap::new(),
        }
    }
}

#[derive(Debug)]
pub struct TypeState {
    pub name: String,
    pub location: Option<Location>,
    /// The most recent reading. Never a running total.
    pub latest: Option<CensusReading>,
}

/// What a [`TypeState`] holds.
#[verifier::ext_equal]
pub struct TypeModel {
    pub name: Seq<char>,
    pub location: Option<Location>,
    pub latest: Option<CensusModel>,
}

/// What a reading says, where there is one.
pub open spec fn reading_of(r: Option<CensusReading>) -> Option<CensusModel> {
    match r {
        Some(r) => Some(r@),
        None => None,
    }
}

impl View for TypeState {
    type V = TypeModel;

    open spec fn view(&self) -> TypeModel {
        TypeModel {
            name: self.name@,
            location: self.location,
            latest: reading_of(self.latest),
        }
    }
}

/// A type nothing is known of yet.
pub open spec fn unnamed_type() -> TypeModel {
    TypeModel { name: Seq::empty(), location: None, latest: None }
}

impl Default for TypeState {
    fn default() -> (r: Self)
        ensures
            r@ == unnamed_type(),
    {
        TypeState { name: String::new(), location: None, latest: None }
    }
}

/// One node of the call tree, kept for the process lifetime.
#[derive(Debug, Clone, Copy)]
pub struct PathState {
    pub parent: PathId,
    pub func: FunctionId,
    pub calls: Cumulative,
    pub self_ns: Cumulative,
    /// Some event has named this context, so what it stands for is settled.
    pub attributed: bool,
}

/// What a [`PathState`] holds.
pub struct PathModel {
    pub parent: u32,
    pub func: u32,
    pub calls: u64,
    pub self_ns: u64,
    pub attributed: bool,
}

impl View for PathState {
    type V = PathModel;

    open spec fn view(&self) -> PathModel {
        PathModel {
            parent: self.parent.0,
            func: self.func.0,
            calls: self.calls@,
            self_ns: self.self_ns@,
            attributed: self.attributed,
        }
    }
}

/// What is known of the symbols of one process, over its whole lifetime.
#[verifier::ext_equal]
pub struct Ledger {
    pub functions: Map<u32, FunctionModel>,
    pub types: Map<u32, TypeModel>,
    pub paths: Map<u32, PathModel>,
    pub edges: Map<(u32, u32), u64>,
}

/// What one event comes to, as the rings fold it in.
pub enum AppliedModel {
    Calls { func: u32, calls: u64, ns: u64 },
    Edge { from: u32, to: u32, calls: u64 },
    Stack { path: u32, calls: u64, self_ns: u64, edge: Option<(u32, u32)> },
    Census { ty: u32, reading: CensusModel },
}

/// Total nanoseconds a distribution stands for. Exact when the client sent raw
/// samples; a bucket-midpoint estimate when it sent a histogram.
pub open spec fn elapsed(ns: Dist) -> u64 {
    match ns {
        Dist::Raw { v } => dist::clamp64(dist::sum_of(v@)),
        Dist::Buckets { b } => dist::clamp64(dist::estimate(dist::collapsed(b@))),
    }
}

/// A histogram with more samples in it.
pub open spec fn plus_buckets(m: Map<u16, u64>, b: Seq<(u16, u32)>) -> Map<u16, u64>
    decreases b.len(),
{
    if b.len() == 0 {
        m
    } else {
        let before = plus_buckets(m, b.drop_last());
        let (i, n) = b.last();
        let count = match ring::held(before, i) {
            Some(c) => c,
            None => 0,
        };
        before.insert(i, quantity::capped(count, n as u64))
    }
}

/// What a census event reads.
pub open spec fn reading_at(live: u64, bytes: u64, sizes: Dist, t_ns: u64) -> CensusModel {
    CensusModel { live, bytes, size_buckets: dist::collapsed(sizes.entries()), at_t_ns: t_ns }
}

impl Ledger {
    /// A process that has said nothing.
    pub open spec fn blank() -> Ledger {
        Ledger {
            functions: Map::empty(),
            types: Map::empty(),
            paths: Map::empty(),
            edges: Map::empty(),
        }
    }

    /// Every context stands for a registered function and hangs off the root
    /// or off a registered context numbered below it.
    pub open spec fn wf(self) -> bool {
        forall|id: u32| #[trigger]
            self.paths.contains_key(id) ==> {
                let p = self.paths[id];
                &&& self.functions.contains_key(p.func)
                &&& p.parent < id
                &&& p.parent == 0 || self.paths.contains_key(p.parent)
            }
    }

    /// Whether a context may be registered: its function is, its parent is and
    /// is numbered below it, and no event has been attributed to something else
    /// under its id.
    pub open spec fn admits(self, id: u32, parent: u32, func: u32) -> bool {
        &&& self.functions.contains_key(func)
        &&& parent < id
        &&& parent == 0 || self.paths.contains_key(parent)
        &&& self.paths.contains_key(id) && self.paths[id].attributed ==> self.paths[id].parent
            == parent && self.paths[id].func == func
    }

    /// The registration is one the daemon drops.
    pub open spec fn refuses(self, r: Register) -> bool {
        match r {
            Register::Path { id, parent, func } => !self.admits(id.0, parent.0, func.0),
            _ => false,
        }
    }

    /// A registration carries new metadata but not a new history, so the
    /// counters behind an id survive it.
    pub open spec fn registering(self, r: Register) -> Ledger {
        match r {
            Register::Function { id, name, module, location } => {
                let held = match ring::held(self.functions, id.0) {
                    Some(f) => f,
                    None => unnamed_function(),
                };
                let now = FunctionModel {
                    name: name@,
                    module: text::text_of(module),
                    location,
                    ..held
                };
                Ledger { functions: self.functions.insert(id.0, now), ..self }
            },
            Register::Type { id, name, location } => {
                let held = match ring::held(self.types, id.0) {
                    Some(t) => t,
                    None => unnamed_type(),
                };
                let now = TypeModel { name: name@, location, ..held };
                Ledger { types: self.types.insert(id.0, now), ..self }
            },
            Register::Path { id, parent, func } => if self.admits(id.0, parent.0, func.0) {
                let (calls, self_ns, attributed) = match ring::held(self.paths, id.0) {
                    Some(p) => (p.calls, p.self_ns, p.attributed),
                    None => (0u64, 0u64, false),
                };
                let now = PathModel { parent: parent.0, func: func.0, calls, self_ns, attributed };
                Ledger { paths: self.paths.insert(id.0, now), ..self }
            } else {
                self
            },
        }
    }

    /// Every id the event names is registered.
    pub open spec fn knows(self, e: Event) -> bool {
        match e {
            Event::Calls { func, .. } => self.functions.contains_key(func.0),
            Event::Edge { from, to, .. } => self.functions.contains_key(from.0)
                && self.functions.contains_key(to.0),
            Event::Stack { path, .. } => self.paths.contains_key(path.0),
            Event::Census { ty, .. } => self.types.contains_key(ty.0),
        }
    }

    /// The call graph edge into a context, where something measured called it.
    pub open spec fn edge_into(self, path: u32) -> Option<(u32, u32)> {
        let p = self.paths[path];
        if p.parent != 0 && self.paths.contains_key(p.parent) {
            Some((self.paths[p.parent].func, p.func))
        } else {
            None
        }
    }

    /// What the event comes to. Once a process reports its call tree its edges
    /// are read off the tree, and an edge reported beside it adds nothing.
    pub open spec fn outcome(self, e: Event, t_ns: u64) -> Option<AppliedModel> {
        if !self.knows(e) {
            None
        } else {
            match e {
                Event::Calls { func, count, ns } => Some(
                    AppliedModel::Calls { func: func.0, calls: count, ns: elapsed(ns) },
                ),
                Event::Edge { from, to, count } => if self.paths == Map::<u32, PathModel>::empty() {
                    Some(AppliedModel::Edge { from: from.0, to: to.0, calls: count })
                } else {
                    None
                },
                Event::Stack { path, count, self_ns } => Some(
                    AppliedModel::Stack {
                        path: path.0,
                        calls: count,
                        self_ns,
                        edge: self.edge_into(path.0),
                    },
                ),
                Event::Census { ty, live, bytes, sizes } => Some(
                    AppliedModel::Census {
                        ty: ty.0,
                        reading: reading_at(live, bytes, sizes, t_ns),
                    },
                ),
            }
        }
    }

    /// The histogram of a call event's durations.
    pub open spec fn durations(e: Event) -> Seq<(u16, u32)> {
        match e {
            Event::Calls { ns, .. } => dist::collapsed(ns.entries()),
            _ => Seq::empty(),
        }
    }

    /// The lifetime totals once the event is in: deltas are added, a census
    /// replaces an older one.
    pub open spec fn absorbing(self, e: Event, t_ns: u64) -> Ledger {
        match self.outcome(e, t_ns) {
            None => self,
            Some(AppliedModel::Calls { func, calls, ns }) => {
                let f = self.functions[func];
                let now = FunctionModel {
                    calls: quantity::capped(f.calls, calls),
                    ns_total: quantity::capped(f.ns_total, ns),
                    ns_buckets: plus_buckets(f.ns_buckets, Ledger::durations(e)),
                    ..f
                };
                Ledger { functions: self.functions.insert(func, now), ..self }
            },
            Some(AppliedModel::Edge { from, to, calls }) => Ledger {
                edges: ring::plus_edge(self.edges, (from, to), calls),
                ..self
            },
            Some(AppliedModel::Stack { path, calls, self_ns, edge }) => {
                let p = self.paths[path];
                let now = PathModel {
                    calls: quantity::capped(p.calls, calls),
                    self_ns: quantity::capped(p.self_ns, self_ns),
                    attributed: true,
                    ..p
                };
                Ledger {
                    paths: self.paths.insert(path, now),
                    edges: match edge {
                        Some(pair) => ring::plus_edge(self.edges, pair, calls),
                        None => self.edges,
                    },
                    ..self
                }
            },
            Some(AppliedModel::Census { ty, reading }) => {
                let t = self.types[ty];
                let now = TypeModel { latest: Some(ring::prevailing(t.latest, reading)), ..t };
                Ledger { types: self.types.insert(ty, now), ..self }
            },
        }
    }
}

/// What one event comes to, for the rings to fold in.
enum Applied {
    Calls { func: FunctionId, calls: u64, ns: u64 },
    Edge { from: FunctionId, to: FunctionId, calls: u64 },
    Stack { path: PathId, calls: u64, self_ns: u64, edge: Option<(FunctionId, FunctionId)> },
    Census { ty: TypeId, reading: CensusReading },
}

spec fn pair_of(edge: Option<(FunctionId, FunctionId)>) -> Option<(u32, u32)> {
    match edge {
        Some((from, to)) => Some((from.0, to.0)),
        None => None,
    }
}

impl View for Applied {
    type V = AppliedModel;

    closed spec fn view(&self) -> AppliedModel {
        match *self {
            Applied::Calls { func, calls, ns } => AppliedModel::Calls { func: func.0, calls, ns },
            Applied::Edge { from, to, calls } => AppliedModel::Edge {
                from: from.0,
                to: to.0,
                calls,
            },
            Applied::Stack { path, calls, self_ns, edge } => AppliedModel::Stack {
                path: path.0,
                calls,
                self_ns,
                edge: pair_of(edge),
            },
            Applied::Census { ty, reading } => AppliedModel::Census {
                ty: ty.0,
                reading: reading@,
            },
        }
    }
}

/// A window with one more thing in it.
pub open spec fn folding(w: WindowModel, a: AppliedModel) -> WindowModel {
    match a {
        AppliedModel::Calls { func, calls, ns } => w.plus_calls(func, calls, ns),
        AppliedModel::Edge { from, to, calls } => w.plus_edge(from, to, calls),
        AppliedModel::Stack { path, calls, self_ns, edge } => match edge {
            Some((from, to)) => w.plus_stack(path, calls, self_ns).plus_edge(from, to, calls),
            None => w.plus_stack(path, calls, self_ns),
        },
        AppliedModel::Census { ty, reading } => w.with_census(ty, reading),
    }
}

/// A window with everything in `applied` in it.
pub open spec fn folding_all(w: WindowModel, applied: Seq<AppliedModel>) -> WindowModel
    decreases applied.len(),
{
    if applied.len() == 0 {
        w
    } else {
        folding(folding_all(w, applied.drop_last()), applied.last())
    }
}

/// A ring once everything in `applied` has landed at `t_ns`. What comes too
/// late for the ring is lost to it.
pub open spec fn landing(r: RingModel, t_ns: u64, applied: Seq<AppliedModel>) -> RingModel {
    let index = r.index_of(t_ns);
    if r.too_late(index) {
        r
    } else {
        let reached = r.reaching(index);
        reached.with_window(index, folding_all(reached.find(index).unwrap(), applied))
    }
}

/// Folding leaves a window where it is on the axis.
pub(crate) proof fn lemma_folding_stays_in_place(w: WindowModel, applied: Seq<AppliedModel>)
    ensures
        folding_all(w, applied).index == w.index,
        folding_all(w, applied).resolution_ns == w.resolution_ns,
    decreases applied.len(),
{
    if applied.len() > 0 {
        lemma_folding_stays_in_place(w, applied.drop_last());
    }
}

/// Whatever lands in it, a ring stays one contiguous run within its capacity.
pub proof fn lemma_landing_keeps_the_axis_contiguous(
    r: RingModel,
    t_ns: u64,
    applied: Seq<AppliedModel>,
)
    requires
        r.wf(),
    ensures
        landing(r, t_ns, applied).wf(),
{
    let index = r.index_of(t_ns);
    if !r.too_late(index) {
        ring::lemma_reaching_keeps_the_axis_contiguous(r, index);
        let reached = r.reaching(index);
        lemma_folding_stays_in_place(reached.find(index).unwrap(), applied);
        let landed = landing(r, t_ns, applied);
        assert forall|i: int| 0 <= i < landed.windows.len() implies {
            &&& (#[trigger] landed.windows[i]).index == landed.windows[0].index + i
            &&& landed.windows[i].resolution_ns == landed.resolution_ns
        } by {
            assert(reached.windows[i].index == reached.windows[0].index + i);
        }
    }
}

fn fold(window: &mut Window, applied: &Vec<Applied>)
    ensures
        final(window)@ == folding_all(old(window)@, applied@.map_values(|a: Applied| a@)),
{
    let ghost before = window@;
    let ghost all = applied@.map_values(|a: Applied| a@);
    for n in 0..applied.len()
        invariant
            all == applied@.map_values(|a: Applied| a@),
            window@ == folding_all(before, all.take(n as int)),
    {
        proof {
            assert(all.take(n + 1).drop_last() =~= all.take(n as int));
            assert(all.take(n + 1).last() == applied@[n as int]@);
        }
        match &applied[n] {
            Applied::Calls { func, calls, ns } => window.add_calls(*func, *calls, *ns),
            Applied::Edge { from, to, calls } => window.add_edge(*from, *to, *calls),
            Applied::Stack { path, calls, self_ns, edge } => {
                window.add_stack(*path, *calls, *self_ns);
                if let Some((from, to)) = edge {
                    window.add_edge(*from, *to, *calls);
                }
            },
            Applied::Census { ty, reading } => window.record_census(*ty, reading.clone()),
        }
    }
    proof {
        assert(all.take(all.len() as int) =~= all);
    }
}

/// Total nanoseconds a distribution stands for. Exact when the client sent raw
/// samples; a bucket-midpoint estimate, within the 6.25% the bucketing
/// guarantees, when it sent a histogram.
fn duration_total(ns: &Dist, buckets: &Vec<(u16, u32)>) -> (r: u64)
    requires
        buckets@ == dist::collapsed(ns.entries()),
    ensures
        r == elapsed(*ns),
{
    match ns {
        Dist::Raw { v } => dist::sum_samples(v),
        Dist::Buckets { .. } => dist::estimate_total(buckets),
    }
}

/// Adds samples to a histogram.
fn add_buckets(histogram: &mut BTreeMap<u16, u64>, buckets: &Vec<(u16, u32)>)
    ensures
        final(histogram)@ == plus_buckets(old(histogram)@, buckets@),
{
    let ghost before = histogram@;
    for n in 0..buckets.len()
        invariant
            histogram@ == plus_buckets(before, buckets@.take(n as int)),
    {
        proof {
            assert(buckets@.take(n + 1).drop_last() =~= buckets@.take(n as int));
        }
        let (bucket, samples) = buckets[n];
        let held: u64 = match histogram.get(&bucket) {
            Some(c) => *c,
            None => 0,
        };
        histogram.insert(bucket, held.saturating_add(samples as u64));
    }
    proof {
        assert(buckets@.take(buckets@.len() as int) =~= buckets@);
    }
}

/// How many closed windows a slow websocket client may fall behind before it
/// starts missing them.
pub const UPDATE_BACKLOG: usize = 256;

/// What a subscriber to a process receives.
#[derive(Debug)]
pub enum Update {
    /// A fine window that can no longer change.
    WindowClosed(Box<Window>),
    ProcessEnded { ended_unix_ms: u64 },
}

/// What an [`Update`] says.
pub enum UpdateModel {
    WindowClosed(WindowModel),
    ProcessEnded { ended_unix_ms: u64 },
}

impl View for Update {
    type V = UpdateModel;

    open spec fn view(&self) -> UpdateModel {
        match *self {
            Update::WindowClosed(w) => UpdateModel::WindowClosed(w@),
            Update::ProcessEnded { ended_unix_ms } => UpdateModel::ProcessEnded { ended_unix_ms },
        }
    }
}

/// What a list of updates says.
pub open spec fn saying(updates: Seq<Update>) -> Seq<UpdateModel> {
    updates.map_values(|u: Update| u@)
}

#[derive(Debug)]
pub struct ProcessState {
    pub id: ProcessId,
    pub app: String,
    pub pid: u32,
    pub source: String,
    pub started_unix_ms: u64,
    pub ended_unix_ms: Option<u64>,
    pub window_ms: u32,
    pub last_seq: Option<u64>,
    pub last_t_ns: u64,
    pub last_frame_unix_ms: Option<u64>,
    pub counts: Counts,
    pub functions: BTreeMap<u32, FunctionState>,
    pub types: BTreeMap<u32, TypeState>,
    /// The call tree, kept for the whole process lifetime.
    pub paths: BTreeMap<u32, PathState>,
    /// Kept for the whole process lifetime, never windowed. A call graph that
    /// forgets an edge the moment it stops firing flickers and is unreadable.
    pub edges: BTreeMap<(u32, u32), Cumulative>,
    pub fine: Ring,
    pub coarse: Ring,
    /// The fine window frames still land in.
    pub open_fine_index: Option<u64>,
    pub live_connections: u32,
}

/// What a [`ProcessState`] holds.
#[verifier::ext_equal]
pub struct ProcessModel {
    pub id: Seq<char>,
    pub app: Seq<char>,
    pub pid: u32,
    pub source: Seq<char>,
    pub started_unix_ms: u64,
    pub ended_unix_ms: Option<u64>,
    pub window_ms: u32,
    pub last_seq: Option<u64>,
    pub last_t_ns: u64,
    pub last_frame_unix_ms: Option<u64>,
    pub counts: Counts,
    pub ledger: Ledger,
    pub fine: RingModel,
    pub coarse: RingModel,
    pub open_fine_index: Option<u64>,
    pub live_connections: u32,
}

impl View for ProcessState {
    type V = ProcessModel;

    open spec fn view(&self) -> ProcessModel {
        ProcessModel {
            id: self.id@,
            app: self.app@,
            pid: self.pid,
            source: self.source@,
            started_unix_ms: self.started_unix_ms,
            ended_unix_ms: self.ended_unix_ms,
            window_ms: self.window_ms,
            last_seq: self.last_seq,
            last_t_ns: self.last_t_ns,
            last_frame_unix_ms: self.last_frame_unix_ms,
            counts: self.counts,
            ledger: Ledger {
                functions: self.functions@.map_values(|f: FunctionState| f@),
                types: self.types@.map_values(|t: TypeState| t@),
                paths: self.paths@.map_values(|p: PathState| p@),
                edges: self.edges@.map_values(|c: Cumulative| c@),
            },
            fine: self.fine@,
            coarse: self.coarse@,
            open_fine_index: self.open_fine_index,
            live_connections: self.live_connections,
        }
    }
}

/// Windows missing between two sequence numbers.
pub open spec fn gap(last_seq: Option<u64>, seq: u64) -> u64 {
    match last_seq {
        Some(previous) if seq > previous + 1 => (seq - previous - 1) as u64,
        _ => 0,
    }
}

impl ProcessModel {
    /// The rings are contiguous and the call tree hangs together.
    pub open spec fn wf(self) -> bool {
        &&& self.fine.wf()
        &&& self.coarse.wf()
        &&& self.ledger.wf()
    }

    /// A process that has just said hello and nothing else.
    pub open spec fn fresh(id: Seq<char>, hello: Hello) -> ProcessModel {
        ProcessModel {
            id,
            app: hello.app@,
            pid: hello.pid,
            source: hello.source@,
            started_unix_ms: hello.started_unix_ms,
            ended_unix_ms: None,
            window_ms: hello.window_ms,
            last_seq: None,
            last_t_ns: 0,
            last_frame_unix_ms: None,
            counts: Counts {
                frames: 0,
                events: 0,
                unknown_id: 0,
                malformed_lines: 0,
                missed_frames: 0,
                late_frames: 0,
            },
            ledger: Ledger::blank(),
            fine: RingModel::new(ring::FINE_RESOLUTION_NS, ring::FINE_CAPACITY),
            coarse: RingModel::new(ring::COARSE_RESOLUTION_NS, ring::COARSE_CAPACITY),
            open_fine_index: None,
            live_connections: 0,
        }
    }

    /// One more id the boundary did not know, if `really`.
    pub open spec fn noting_unknown(self, really: bool) -> ProcessModel {
        ProcessModel {
            counts: Counts {
                unknown_id: if really {
                    quantity::capped(self.counts.unknown_id, 1)
                } else {
                    self.counts.unknown_id
                },
                ..self.counts
            },
            ..self
        }
    }

    /// One more line that was no usable frame.
    pub open spec fn noting_malformed(self) -> ProcessModel {
        ProcessModel {
            counts: Counts {
                malformed_lines: quantity::capped(self.counts.malformed_lines, 1),
                ..self.counts
            },
            ..self
        }
    }

    pub open spec fn registering(self, r: Register) -> ProcessModel {
        ProcessModel {
            ledger: self.ledger.registering(r),
            ..self.noting_unknown(self.ledger.refuses(r))
        }
    }

    pub open spec fn registering_all(self, rs: Seq<Register>) -> ProcessModel
        decreases rs.len(),
    {
        if rs.len() == 0 {
            self
        } else {
            self.registering_all(rs.drop_last()).registering(rs.last())
        }
    }

    pub open spec fn absorbing(self, e: Event, t_ns: u64) -> ProcessModel {
        let noted = self.noting_unknown(!self.ledger.knows(e));
        ProcessModel {
            ledger: self.ledger.absorbing(e, t_ns),
            counts: Counts { events: quantity::capped(self.counts.events, 1), ..noted.counts },
            ..self
        }
    }

    pub open spec fn absorbing_all(self, es: Seq<Event>, t_ns: u64) -> ProcessModel
        decreases es.len(),
    {
        if es.len() == 0 {
            self
        } else {
            self.absorbing_all(es.drop_last(), t_ns).absorbing(es.last(), t_ns)
        }
    }

    /// What the events come to, in their order, leaving out those dropped.
    pub open spec fn outcomes(self, es: Seq<Event>, t_ns: u64) -> Seq<AppliedModel>
        decreases es.len(),
    {
        if es.len() == 0 {
            Seq::empty()
        } else {
            let before = self.outcomes(es.drop_last(), t_ns);
            match self.absorbing_all(es.drop_last(), t_ns).ledger.outcome(es.last(), t_ns) {
                Some(a) => before.push(a),
                None => before,
            }
        }
    }

    /// What came of a frame's events lands in both rings. Nothing is added to
    /// the axis where nothing came of them, and a frame too late for the fine
    /// ring counts as late either way.
    pub open spec fn landing(self, t_ns: u64, applied: Seq<AppliedModel>) -> ProcessModel {
        ProcessModel {
            coarse: if applied.len() == 0 {
                self.coarse
            } else {
                landing(self.coarse, t_ns, applied)
            },
            fine: if applied.len() == 0 {
                self.fine
            } else {
                landing(self.fine, t_ns, applied)
            },
            counts: Counts {
                late_frames: if self.fine.too_late(self.fine.index_of(t_ns)) {
                    quantity::capped(self.counts.late_frames, 1)
                } else {
                    self.counts.late_frames
                },
                ..self.counts
            },
            ..self
        }
    }

    /// The frame's arrival puts the open fine window out of reach.
    pub open spec fn moves_on(self, t_ns: u64) -> bool {
        self.open_fine_index matches Some(open) && self.fine.index_of(t_ns) > open
    }

    /// A window, unless nothing happened in it.
    pub open spec fn eventful(self, index: u64) -> Option<WindowModel> {
        match self.fine.find(index) {
            Some(w) if !w.nothing_happened() => Some(w),
            _ => None,
        }
    }

    /// The fine window that the frame's arrival closes. A window nothing
    /// happened in closes unsaid.
    pub open spec fn closing(self, t_ns: u64) -> Option<WindowModel> {
        if self.moves_on(t_ns) {
            self.eventful(self.open_fine_index.unwrap())
        } else {
            None
        }
    }

    /// The envelope of a frame, before what it carries.
    pub open spec fn hearing(self, seq: u64, t_ns: u64, now: u64) -> ProcessModel {
        ProcessModel {
            counts: Counts {
                frames: quantity::capped(self.counts.frames, 1),
                missed_frames: quantity::capped(
                    self.counts.missed_frames,
                    gap(self.last_seq, seq),
                ),
                ..self.counts
            },
            last_seq: Some(seq),
            last_t_ns: if t_ns > self.last_t_ns {
                t_ns
            } else {
                self.last_t_ns
            },
            last_frame_unix_ms: Some(now),
            ..self
        }
    }

    /// The process once it has moved on to the window of `t_ns`.
    pub open spec fn opening(self, t_ns: u64) -> ProcessModel {
        ProcessModel {
            open_fine_index: if self.open_fine_index is None || self.moves_on(t_ns) {
                Some(self.fine.index_of(t_ns))
            } else {
                self.open_fine_index
            },
            ..self
        }
    }

    /// The process once it has heard one frame. Registers land before events,
    /// so a frame may name an id it introduces in the same breath.
    pub open spec fn receiving(self, frame: Frame, now: u64) -> ProcessModel {
        let ready = self.hearing(frame.seq, frame.t_ns, now).registering_all(
            frame.registers@,
        ).opening(frame.t_ns);
        ready.absorbing_all(frame.events@, frame.t_ns).landing(
            frame.t_ns,
            ready.outcomes(frame.events@, frame.t_ns),
        )
    }
}

impl ProcessState {
    /// The state of a process that has just said hello.
    pub fn new(id: ProcessId, hello: &Hello) -> (r: Self)
        ensures
            r@ == ProcessModel::fresh(id@, *hello),
            r@.wf(),
    {
        let ghost name = id@;
        let r = ProcessState {
            id,
            app: hello.app.clone(),
            pid: hello.pid,
            source: hello.source.clone(),
            started_unix_ms: hello.started_unix_ms,
            ended_unix_ms: None,
            window_ms: hello.window_ms,
            last_seq: None,
            last_t_ns: 0,
            last_frame_unix_ms: None,
            counts: Counts::default(),
            functions: BTreeMap::new(),
            types: BTreeMap::new(),
            paths: BTreeMap::new(),
            edges: BTreeMap::new(),
            fine: Ring::fine(),
            coarse: Ring::coarse(),
            open_fine_index: None,
            live_connections: 0,
        };
        proof {
            assert(r@.ledger =~= Ledger::blank());
            assert(r@ =~= ProcessModel::fresh(name, *hello));
        }
        r
    }

    pub fn is_connected(&self) -> (r: bool)
        ensures
            r == (self@.live_connections > 0),
    {
        self.live_connections > 0
    }

    pub fn note_malformed_line(&mut self)
        ensures
            final(self)@ == old(self)@.noting_malformed(),
    {
        self.counts.malformed_lines = self.counts.malformed_lines.saturating_add(1);
    }

    fn note_unknown_id(&mut self)
        ensures
            final(self)@ == old(self)@.noting_unknown(true),
    {
        self.counts.unknown_id = self.counts.unknown_id.saturating_add(1);
    }

    fn register(&mut self, register: &Register)
        ensures
            final(self)@ == old(self)@.registering(*register),
    {
        let ghost before = self@;
        match register {
            Register::Function { id, name, module, location } => {
                let mut entry = match self.functions.remove(&id.0) {
                    Some(held) => held,
                    None => FunctionState::default(),
                };
                entry.name = name.clone();
                entry.module = proto::copy_text(module);
                entry.location = proto::copy_location(location);
                self.functions.insert(id.0, entry);
            },
            Register::Type { id, name, location } => {
                let mut entry = match self.types.remove(&id.0) {
                    Some(held) => held,
                    None => TypeState::default(),
                };
                entry.name = name.clone();
                entry.location = proto::copy_location(location);
                self.types.insert(id.0, entry);
            },
            Register::Path { id, parent, func } => {
                self.register_path(*id, *parent, *func);
            },
        }
        proof {
            assert(self@.ledger =~= before.registering(*register).ledger);
            assert(self@ =~= before.registering(*register));
        }
    }

    /// Whether a context may be registered.
    fn admits(&self, id: PathId, parent: PathId, func: FunctionId) -> (r: bool)
        ensures
            r == self@.ledger.admits(id.0, parent.0, func.0),
    {
        if !self.functions.contains_key(&func.0) || parent.0 >= id.0 {
            return false;
        }
        if parent.0 != 0 && !self.paths.contains_key(&parent.0) {
            return false;
        }
        match self.paths.get(&id.0) {
            Some(held) => !held.attributed || (held.parent.0 == parent.0 && held.func.0 == func.0),
            None => true,
        }
    }

    fn register_path(&mut self, id: PathId, parent: PathId, func: FunctionId)
        ensures
            final(self)@ == old(self)@.registering(Register::Path { id, parent, func }),
    {
        let ghost before = self@;
        if !self.admits(id, parent, func) {
            self.note_unknown_id();
        } else {
            let entry = match self.paths.get(&id.0) {
                Some(held) => PathState { parent, func, ..*held },
                None => PathState {
                    parent,
                    func,
                    calls: Cumulative::zero(),
                    self_ns: Cumulative::zero(),
                    attributed: false,
                },
            };
            self.paths.insert(id.0, entry);
        }
        proof {
            let after = before.registering(Register::Path { id, parent, func });
            assert(self@.ledger =~= after.ledger);
            assert(self@ =~= after);
        }
    }

    /// The fine window that this frame's arrival puts out of reach, if any.
    fn close_open_window_before(&mut self, t_ns: u64) -> (r: Option<Window>)
        requires
            old(self)@.fine.wf(),
        ensures
            final(self)@ == old(self)@.opening(t_ns),
            match r {
                Some(w) => old(self)@.closing(t_ns) == Some(w@),
                None => old(self)@.closing(t_ns) is None,
            },
    {
        let index: u64 = self.fine.index_of(t_ns);
        match self.open_fine_index {
            Some(open) => {
                if index > open {
                    self.open_fine_index = Some(index);
                    self.eventful(open)
                } else {
                    None
                }
            },
            None => {
                self.open_fine_index = Some(index);
                None
            },
        }
    }

    /// A copy of a fine window, unless nothing happened in it.
    fn eventful(&self, index: u64) -> (r: Option<Window>)
        ensures
            match r {
                Some(w) => self@.eventful(index) == Some(w@),
                None => self@.eventful(index) is None,
            },
    {
        match self.fine.get(index) {
            Some(w) => {
                if w.is_empty() {
                    None
                } else {
                    Some(w.clone())
                }
            },
            None => None,
        }
    }

    fn absorb_calls(&mut self, func: FunctionId, count: u64, ns: &Dist) -> (r: Option<Applied>)
        ensures
            ({
                let e = Event::Calls { func, count, ns: *ns };
                &&& final(self)@ == (ProcessModel {
                    ledger: old(self)@.ledger.absorbing(e, 0),
                    ..old(self)@.noting_unknown(!old(self)@.ledger.knows(e))
                })
                &&& match r {
                    Some(a) => old(self)@.ledger.outcome(e, 0) == Some(a@),
                    None => old(self)@.ledger.outcome(e, 0) is None,
                }
            }),
    {
        let ghost before = self@;
        let ghost e = Event::Calls { func, count, ns: *ns };
        match self.functions.remove(&func.0) {
            None => {
                self.note_unknown_id();
                proof {
                    assert(self@.ledger =~= before.ledger);
                    assert(self@ =~= before.noting_unknown(true));
                }
                None
            },
            Some(held) => {
                let buckets = ns.to_buckets();
                let elapsed: u64 = duration_total(ns, &buckets);
                let mut state = held;
                state.calls.accumulate(count);
                state.ns_total.accumulate(elapsed);
                add_buckets(&mut state.ns_buckets, &buckets);
                self.functions.insert(func.0, state);
                proof {
                    assert(self@.ledger =~= before.ledger.absorbing(e, 0));
                    assert(self@ =~= (ProcessModel {
                        ledger: before.ledger.absorbing(e, 0),
                        ..before
                    }));
                }
                Some(Applied::Calls { func, calls: count, ns: elapsed })
            },
        }
    }

    fn absorb_edge(&mut self, from: FunctionId, to: FunctionId, count: u64) -> (r: Option<Applied>)
        ensures
            ({
                let e = Event::Edge { from, to, count };
                &&& final(self)@ == (ProcessModel {
                    ledger: old(self)@.ledger.absorbing(e, 0),
                    ..old(self)@.noting_unknown(!old(self)@.ledger.knows(e))
                })
                &&& match r {
                    Some(a) => old(self)@.ledger.outcome(e, 0) == Some(a@),
                    None => old(self)@.ledger.outcome(e, 0) is None,
                }
            }),
    {
        let ghost before = self@;
        if !self.functions.contains_key(&from.0) || !self.functions.contains_key(&to.0) {
            self.note_unknown_id();
            return None;
        }
        if !self.paths.is_empty() {
            proof {
                assert(self.paths@.dom() =~= before.ledger.paths.dom());
                assert(before.ledger.paths != Map::<u32, PathModel>::empty());
            }
            return None;
        }
        proof {
            assert(before.ledger.paths =~= Map::<u32, PathModel>::empty());
        }
        ring::add_to_edge(&mut self.edges, (from.0, to.0), count);
        Some(Applied::Edge { from, to, calls: count })
    }

    fn absorb_stack(&mut self, path: PathId, count: u64, self_ns: u64) -> (r: Option<Applied>)
        ensures
            ({
                let e = Event::Stack { path, count, self_ns };
                &&& final(self)@ == (ProcessModel {
                    ledger: old(self)@.ledger.absorbing(e, 0),
                    ..old(self)@.noting_unknown(!old(self)@.ledger.knows(e))
                })
                &&& match r {
                    Some(a) => old(self)@.ledger.outcome(e, 0) == Some(a@),
                    None => old(self)@.ledger.outcome(e, 0) is None,
                }
            }),
    {
        let ghost before = self@;
        let ghost e = Event::Stack { path, count, self_ns };
        let mut state = match self.paths.get(&path.0) {
            Some(held) => *held,
            None => {
                self.note_unknown_id();
                return None;
            },
        };
        let edge = if state.parent.0 == 0 {
            None
        } else {
            match self.paths.get(&state.parent.0) {
                Some(above) => Some((above.func, state.func)),
                None => None,
            }
        };
        state.calls.accumulate(count);
        state.self_ns.accumulate(self_ns);
        state.attributed = true;
        self.paths.insert(path.0, state);
        if let Some((from, to)) = edge {
            ring::add_to_edge(&mut self.edges, (from.0, to.0), count);
        }
        proof {
            assert(self@.ledger.paths =~= before.ledger.absorbing(e, 0).paths);
            assert(self@.ledger.edges =~= before.ledger.absorbing(e, 0).edges);
            assert(self@.ledger =~= before.ledger.absorbing(e, 0));
        }
        Some(Applied::Stack { path, calls: count, self_ns, edge })
    }

    fn absorb_census(&mut self, ty: TypeId, live: u64, bytes: u64, sizes: &Dist, t_ns: u64) -> (r:
        Option<Applied>)
        ensures
            ({
                let e = Event::Census { ty, live, bytes, sizes: *sizes };
                &&& final(self)@ == (ProcessModel {
                    ledger: old(self)@.ledger.absorbing(e, t_ns),
                    ..old(self)@.noting_unknown(!old(self)@.ledger.knows(e))
                })
                &&& match r {
                    Some(a) => old(self)@.ledger.outcome(e, t_ns) == Some(a@),
                    None => old(self)@.ledger.outcome(e, t_ns) is None,
                }
            }),
    {
        let ghost before = self@;
        let ghost e = Event::Census { ty, live, bytes, sizes: *sizes };
        match self.types.remove(&ty.0) {
            None => {
                self.note_unknown_id();
                proof {
                    assert(self@.ledger =~= before.ledger);
                    assert(self@ =~= before.noting_unknown(true));
                }
                None
            },
            Some(held) => {
                let mut state = held;
                let reading = CensusReading {
                    live: Absolute::reading(live),
                    bytes: Absolute::reading(bytes),
                    size_buckets: sizes.to_buckets(),
                    at_t_ns: t_ns,
                };
                let newer_already_held = match &state.latest {
                    Some(latest) => latest.at_t_ns > reading.at_t_ns,
                    None => false,
                };
                if !newer_already_held {
                    state.latest = Some(reading.clone());
                }
                self.types.insert(ty.0, state);
                proof {
                    assert(self@.ledger =~= before.ledger.absorbing(e, t_ns));
                    assert(self@ =~= (ProcessModel {
                        ledger: before.ledger.absorbing(e, t_ns),
                        ..before
                    }));
                }
                Some(Applied::Census { ty, reading })
            },
        }
    }

    /// Validates every event against the registered ids and updates the
    /// lifetime totals, returning what survived for the rings to fold in.
    fn accumulate_totals(&mut self, events: &Vec<Event>, t_ns: u64) -> (r: Vec<Applied>)
        ensures
            final(self)@ == old(self)@.absorbing_all(events@, t_ns),
            r@.map_values(|a: Applied| a@) == old(self)@.outcomes(events@, t_ns),
    {
        let ghost before = self@;
        let mut applied: Vec<Applied> = Vec::new();
        proof {
            assert(applied@.map_values(|a: Applied| a@) =~= Seq::<AppliedModel>::empty());
        }
        for n in 0..events.len()
            invariant
                self@ == before.absorbing_all(events@.take(n as int), t_ns),
                applied@.map_values(|a: Applied| a@) == before.outcomes(
                    events@.take(n as int),
                    t_ns,
                ),
        {
            let ghost here = self@;
            let ghost so_far = applied@.map_values(|a: Applied| a@);
            proof {
                assert(events@.take(n + 1).drop_last() =~= events@.take(n as int));
            }
            self.counts.events = self.counts.events.saturating_add(1);
            let outcome = match &events[n] {
                Event::Calls { func, count, ns } => self.absorb_calls(*func, *count, ns),
                Event::Edge { from, to, count } => self.absorb_edge(*from, *to, *count),
                Event::Stack { path, count, self_ns } => self.absorb_stack(*path, *count, *self_ns),
                Event::Census { ty, live, bytes, sizes } => self.absorb_census(
                    *ty,
                    *live,
                    *bytes,
                    sizes,
                    t_ns,
                ),
            };
            proof {
                assert(self@ =~= here.absorbing(events@[n as int], t_ns));
            }
            if let Some(a) = outcome {
                applied.push(a);
                proof {
                    assert(applied@.map_values(|a: Applied| a@) =~= so_far.push(a@));
                }
            }
        }
        proof {
            assert(events@.take(events@.len() as int) =~= events@);
        }
        applied
    }

    fn fold_into_rings(&mut self, applied: &Vec<Applied>, t_ns: u64)
        requires
            old(self)@.fine.wf(),
            old(self)@.coarse.wf(),
        ensures
            final(self)@ == old(self)@.landing(t_ns, applied@.map_values(|a: Applied| a@)),
    {
        let ghost before = self@;
        let ghost all = applied@.map_values(|a: Applied| a@);
        if self.fine.predates(t_ns) {
            self.counts.late_frames = self.counts.late_frames.saturating_add(1);
        }
        if applied.len() > 0 {
            if let Some(window) = self.coarse.window_for(t_ns) {
                fold(window, applied);
            }
            if let Some(window) = self.fine.window_for(t_ns) {
                fold(window, applied);
            }
            proof {
                assert(self@.coarse == landing(before.coarse, t_ns, all));
                assert(self@.fine == landing(before.fine, t_ns, all));
            }
        }
        proof {
            assert(self@ =~= before.landing(t_ns, all));
        }
    }
}

/// Registering and hearing touch neither the rings nor what identifies the
/// process.
pub(crate) proof fn lemma_registering_leaves_the_rest(p: ProcessModel, rs: Seq<Register>)
    ensures
        p.registering_all(rs) == (ProcessModel {
            ledger: p.registering_all(rs).ledger,
            counts: p.registering_all(rs).counts,
            ..p
        }),
    decreases rs.len(),
{
    if rs.len() > 0 {
        lemma_registering_leaves_the_rest(p, rs.drop_last());
    }
}

/// Events touch neither the rings nor what identifies the process.
pub(crate) proof fn lemma_absorbing_leaves_the_rest(p: ProcessModel, es: Seq<Event>, t_ns: u64)
    ensures
        p.absorbing_all(es, t_ns) == (ProcessModel {
            ledger: p.absorbing_all(es, t_ns).ledger,
            counts: p.absorbing_all(es, t_ns).counts,
            ..p
        }),
    decreases es.len(),
{
    if es.len() > 0 {
        lemma_absorbing_leaves_the_rest(p, es.drop_last(), t_ns);
    }
}

/// Whatever is registered, every context hangs off the root or off a registered
/// context numbered below it, so walking upward ends.
pub proof fn lemma_registering_keeps_the_tree(l: Ledger, r: Register)
    requires
        l.wf(),
    ensures
        l.registering(r).wf(),
{
    let after = l.registering(r);
    assert forall|id: u32| #[trigger] after.paths.contains_key(id) implies {
        let p = after.paths[id];
        &&& after.functions.contains_key(p.func)
        &&& p.parent < id
        &&& p.parent == 0 || after.paths.contains_key(p.parent)
    } by {
        if l.paths.contains_key(id) {
            assert(l.paths.contains_key(id));
        }
    }
}

/// Whatever an event says, the tree stays as it was registered.
pub proof fn lemma_absorbing_keeps_the_tree(l: Ledger, e: Event, t_ns: u64)
    requires
        l.wf(),
    ensures
        l.absorbing(e, t_ns).wf(),
{
    let after = l.absorbing(e, t_ns);
    assert forall|id: u32| #[trigger] after.paths.contains_key(id) implies {
        let p = after.paths[id];
        &&& after.functions.contains_key(p.func)
        &&& p.parent < id
        &&& p.parent == 0 || after.paths.contains_key(p.parent)
    } by {
        assert(l.paths.contains_key(id));
    }
}

proof fn lemma_registering_all_keeps_the_tree(p: ProcessModel, rs: Seq<Register>)
    requires
        p.ledger.wf(),
    ensures
        p.registering_all(rs).ledger.wf(),
    decreases rs.len(),
{
    if rs.len() > 0 {
        lemma_registering_all_keeps_the_tree(p, rs.drop_last());
        lemma_registering_keeps_the_tree(p.registering_all(rs.drop_last()).ledger, rs.last());
    }
}

proof fn lemma_absorbing_all_keeps_the_tree(p: ProcessModel, es: Seq<Event>, t_ns: u64)
    requires
        p.ledger.wf(),
    ensures
        p.absorbing_all(es, t_ns).ledger.wf(),
    decreases es.len(),
{
    if es.len() > 0 {
        lemma_absorbing_all_keeps_the_tree(p, es.drop_last(), t_ns);
        lemma_absorbing_keeps_the_tree(
            p.absorbing_all(es.drop_last(), t_ns).ledger,
            es.last(),
            t_ns,
        );
    }
}

/// A frame reaches the rings only through what came of its events.
pub(crate) proof fn lemma_receiving_is_made_of(p: ProcessModel, frame: Frame, now: u64)
    ensures
        ({
            let ready = p.hearing(frame.seq, frame.t_ns, now).registering_all(
                frame.registers@,
            ).opening(frame.t_ns);
            let applied = ready.outcomes(frame.events@, frame.t_ns);
            let after = p.receiving(frame, now);
            &&& after.ledger == ready.absorbing_all(frame.events@, frame.t_ns).ledger
            &&& after.fine == if applied.len() == 0 {
                p.fine
            } else {
                landing(p.fine, frame.t_ns, applied)
            }
            &&& after.coarse == if applied.len() == 0 {
                p.coarse
            } else {
                landing(p.coarse, frame.t_ns, applied)
            }
        }),
{
    let heard = p.hearing(frame.seq, frame.t_ns, now);
    lemma_registering_leaves_the_rest(heard, frame.registers@);
    let ready = heard.registering_all(frame.registers@).opening(frame.t_ns);
    lemma_absorbing_leaves_the_rest(ready, frame.events@, frame.t_ns);
}

/// Registering counts no frame as late.
proof fn lemma_registering_is_never_late(p: ProcessModel, rs: Seq<Register>)
    ensures
        p.registering_all(rs).counts.late_frames == p.counts.late_frames,
    decreases rs.len(),
{
    if rs.len() > 0 {
        lemma_registering_is_never_late(p, rs.drop_last());
    }
}

/// Neither does an event.
proof fn lemma_absorbing_is_never_late(p: ProcessModel, es: Seq<Event>, t_ns: u64)
    ensures
        p.absorbing_all(es, t_ns).counts.late_frames == p.counts.late_frames,
    decreases es.len(),
{
    if es.len() > 0 {
        lemma_absorbing_is_never_late(p, es.drop_last(), t_ns);
    }
}

/// Every frame that falls before the oldest window still held counts as late,
/// whatever it carries, and no other does.
pub proof fn lemma_every_late_frame_is_counted(p: ProcessModel, frame: Frame, now: u64)
    ensures
        p.receiving(frame, now).counts.late_frames == quantity::capped(
            p.counts.late_frames,
            if p.fine.too_late(p.fine.index_of(frame.t_ns)) {
                1
            } else {
                0
            },
        ),
{
    let heard = p.hearing(frame.seq, frame.t_ns, now);
    lemma_registering_leaves_the_rest(heard, frame.registers@);
    lemma_registering_is_never_late(heard, frame.registers@);
    let ready = heard.registering_all(frame.registers@).opening(frame.t_ns);
    lemma_absorbing_leaves_the_rest(ready, frame.events@, frame.t_ns);
    lemma_absorbing_is_never_late(ready, frame.events@, frame.t_ns);
}

/// Whatever a frame holds, the process it reaches stays sound: both rings are
/// contiguous and within their capacity, and the call tree hangs together.
pub proof fn lemma_receiving_keeps_the_process_sound(p: ProcessModel, frame: Frame, now: u64)
    requires
        p.wf(),
    ensures
        p.receiving(frame, now).wf(),
{
    let t = frame.t_ns;
    let heard = p.hearing(frame.seq, t, now);
    lemma_registering_leaves_the_rest(heard, frame.registers@);
    lemma_registering_all_keeps_the_tree(heard, frame.registers@);
    let ready = heard.registering_all(frame.registers@).opening(t);
    lemma_absorbing_leaves_the_rest(ready, frame.events@, t);
    lemma_absorbing_all_keeps_the_tree(ready, frame.events@, t);
    let applied = ready.outcomes(frame.events@, t);
    lemma_landing_keeps_the_axis_contiguous(ready.coarse, t, applied);
    lemma_landing_keeps_the_axis_contiguous(ready.fine, t, applied);
}

/// A frame changes nothing that identifies the process, and its clock only
/// moves forward.
pub proof fn lemma_receiving_keeps_the_identity(p: ProcessModel, frame: Frame, now: u64)
    ensures
        ({
            let after = p.receiving(frame, now);
            &&& after.id == p.id
            &&& after.app == p.app
            &&& after.pid == p.pid
            &&& after.source == p.source
            &&& after.started_unix_ms == p.started_unix_ms
            &&& after.ended_unix_ms == p.ended_unix_ms
            &&& after.live_connections == p.live_connections
            &&& after.last_t_ns >= p.last_t_ns
            &&& after.last_t_ns >= frame.t_ns
            &&& after.last_seq == Some(frame.seq)
        }),
{
    let t = frame.t_ns;
    let heard = p.hearing(frame.seq, t, now);
    lemma_registering_leaves_the_rest(heard, frame.registers@);
    let ready = heard.registering_all(frame.registers@).opening(t);
    lemma_absorbing_leaves_the_rest(ready, frame.events@, t);
}

/// What lands in a ring lands in the window of its own instant; every other
/// window the ring still holds is as it was.
pub proof fn lemma_landing_leaves_the_other_windows(
    r: RingModel,
    t_ns: u64,
    applied: Seq<AppliedModel>,
    other: u64,
)
    requires
        r.wf(),
        other != r.index_of(t_ns),
        r.holds(other),
        landing(r, t_ns, applied).holds(other),
    ensures
        landing(r, t_ns, applied).find(other) == r.find(other),
{
    let index = r.index_of(t_ns);
    if !r.too_late(index) {
        ring::lemma_reaching_keeps_the_axis_contiguous(r, index);
        let reached = r.reaching(index);
        let folded = folding_all(reached.find(index).unwrap(), applied);
        lemma_folding_stays_in_place(reached.find(index).unwrap(), applied);
        assert(reached.offset_of(other) != reached.offset_of(index));
        assert(reached.with_window(index, folded).windows[0].index == reached.windows[0].index);
        assert(reached.holds(other));
        ring::lemma_reaching_keeps_what_is_held(r, index, other);
    }
}

/// A frame changes the window of its own instant and no other that is still
/// held.
pub proof fn lemma_a_frame_changes_no_other_window(
    p: ProcessModel,
    frame: Frame,
    now: u64,
    other: u64,
)
    requires
        p.wf(),
        other != p.fine.index_of(frame.t_ns),
        p.fine.holds(other),
        p.receiving(frame, now).fine.holds(other),
    ensures
        p.receiving(frame, now).fine.find(other) == p.fine.find(other),
{
    let t = frame.t_ns;
    let heard = p.hearing(frame.seq, t, now);
    lemma_registering_leaves_the_rest(heard, frame.registers@);
    let ready = heard.registering_all(frame.registers@).opening(t);
    lemma_absorbing_leaves_the_rest(ready, frame.events@, t);
    let applied = ready.outcomes(frame.events@, t);
    if applied.len() > 0 {
        lemma_landing_leaves_the_other_windows(p.fine, t, applied, other);
    }
}

/// A window is pushed once it can no longer change: as long as time does not run
/// backwards, the ring holds it exactly as it was pushed until it leaves.
pub proof fn lemma_a_pushed_window_no_longer_changes(
    p: ProcessModel,
    frame: Frame,
    now: u64,
    later: Frame,
    later_now: u64,
)
    requires
        p.wf(),
        p.closing(frame.t_ns) is Some,
        later.t_ns >= frame.t_ns,
    ensures
        ({
            let pushed = p.closing(frame.t_ns).unwrap();
            let (after, then) = (
                p.receiving(frame, now),
                p.receiving(frame, now).receiving(later, later_now),
            );
            &&& after.fine.holds(pushed.index) ==> after.fine.find(pushed.index) == Some(pushed)
            &&& after.fine.holds(pushed.index) && then.fine.holds(pushed.index)
                ==> then.fine.find(pushed.index) == Some(pushed)
        }),
{
    let open = p.open_fine_index.unwrap();
    let pushed = p.closing(frame.t_ns).unwrap();
    let after = p.receiving(frame, now);
    assert(p.fine.find(open) == Some(pushed));
    assert(pushed.index == open) by {
        assert(p.fine.windows[p.fine.offset_of(open)].index == open);
    }
    lemma_receiving_keeps_the_process_sound(p, frame, now);
    if after.fine.holds(open) {
        lemma_a_frame_changes_no_other_window(p, frame, now, open);
        assert(after.fine.resolution_ns == p.fine.resolution_ns);
        assert(later.t_ns / p.fine.resolution_ns >= frame.t_ns / p.fine.resolution_ns)
            by (nonlinear_arith)
            requires
                later.t_ns >= frame.t_ns,
                p.fine.resolution_ns > 0,
        ;
        if after.receiving(later, later_now).fine.holds(open) {
            lemma_a_frame_changes_no_other_window(after, later, later_now, open);
        }
    }
}

/// An id that was never registered is never invented: events add no function,
/// type or context, and one that names an unknown id changes nothing at all.
pub proof fn lemma_unknown_ids_are_never_invented(l: Ledger, e: Event, t_ns: u64)
    ensures
        l.absorbing(e, t_ns).functions.dom() == l.functions.dom(),
        l.absorbing(e, t_ns).types.dom() == l.types.dom(),
        l.absorbing(e, t_ns).paths.dom() == l.paths.dom(),
        !l.knows(e) ==> l.absorbing(e, t_ns) == l && l.outcome(e, t_ns) is None,
{
    let after = l.absorbing(e, t_ns);
    assert(after.functions.dom() =~= l.functions.dom());
    assert(after.types.dom() =~= l.types.dom());
    assert(after.paths.dom() =~= l.paths.dom());
}

/// Deltas only ever add: no event takes anything off a total.
pub proof fn lemma_no_event_lowers_a_total(l: Ledger, e: Event, t_ns: u64)
    ensures
        forall|f: u32| #[trigger]
            l.functions.contains_key(f) ==> {
                let (before, after) = (l.functions[f], l.absorbing(e, t_ns).functions[f]);
                before.calls <= after.calls && before.ns_total <= after.ns_total
            },
        forall|p: u32| #[trigger]
            l.paths.contains_key(p) ==> {
                let (before, after) = (l.paths[p], l.absorbing(e, t_ns).paths[p]);
                before.calls <= after.calls && before.self_ns <= after.self_ns
            },
        forall|pair: (u32, u32)| #[trigger]
            l.edges.contains_key(pair) ==> l.absorbing(e, t_ns).edges.contains_key(pair)
                && l.edges[pair] <= l.absorbing(e, t_ns).edges[pair],
{
}

/// Call deltas accumulate, and the order two of them arrive in makes no
/// difference to the totals.
pub proof fn lemma_call_deltas_accumulate(
    l: Ledger,
    func: FunctionId,
    count: u64,
    ns: Dist,
    other_count: u64,
    other_ns: Dist,
    t_ns: u64,
)
    requires
        l.functions.contains_key(func.0),
    ensures
        ({
            let one = Event::Calls { func, count, ns };
            let other = Event::Calls { func, count: other_count, ns: other_ns };
            let both = l.absorbing(one, t_ns).absorbing(other, t_ns).functions[func.0];
            let swapped = l.absorbing(other, t_ns).absorbing(one, t_ns).functions[func.0];
            let before = l.functions[func.0];
            &&& both.calls == dist::clamp64((before.calls + count + other_count) as nat)
            &&& both.ns_total == dist::clamp64(
                (before.ns_total + elapsed(ns) + elapsed(other_ns)) as nat,
            )
            &&& swapped.calls == both.calls
            &&& swapped.ns_total == both.ns_total
        }),
{
}

/// A census is never summed: of two readings of a type, the one taken later
/// stands, whichever arrives first.
pub proof fn lemma_a_later_census_replaces_an_earlier_one(
    l: Ledger,
    ty: TypeId,
    live: u64,
    bytes: u64,
    sizes: Dist,
    t_ns: u64,
    earlier_live: u64,
    earlier_bytes: u64,
    earlier_sizes: Dist,
    earlier_t_ns: u64,
)
    requires
        l.types.contains_key(ty.0),
        earlier_t_ns < t_ns,
        l.types[ty.0].latest matches Some(held) ==> held.at_t_ns <= t_ns,
    ensures
        ({
            let now = Event::Census { ty, live, bytes, sizes };
            let earlier = Event::Census {
                ty,
                live: earlier_live,
                bytes: earlier_bytes,
                sizes: earlier_sizes,
            };
            let in_order = l.absorbing(earlier, earlier_t_ns).absorbing(now, t_ns);
            let out_of_order = l.absorbing(now, t_ns).absorbing(earlier, earlier_t_ns);
            let reading = Some(reading_at(live, bytes, sizes, t_ns));
            in_order.types[ty.0].latest == reading && out_of_order.types[ty.0].latest == reading
        }),
{
}

/// The call graph is read off the tree: an activation of a context is a call
/// from the function above it to its own.
pub proof fn lemma_edges_follow_the_tree(l: Ledger, path: PathId, count: u64, self_ns: u64, t: u64)
    requires
        l.wf(),
        l.paths.contains_key(path.0),
        l.paths[path.0].parent != 0,
    ensures
        ({
            let p = l.paths[path.0];
            let above = l.paths[p.parent].func;
            l.absorbing(Event::Stack { path, count, self_ns }, t).edges == ring::plus_edge(
                l.edges,
                (above, p.func),
                count,
            )
        }),
{
}

/// One fact has one source: beside a call tree, an edge reported on its own adds
/// nothing to the graph that is read off the tree.
pub proof fn lemma_an_edge_beside_a_tree_adds_nothing(
    l: Ledger,
    from: FunctionId,
    to: FunctionId,
    count: u64,
    t_ns: u64,
)
    requires
        exists|path: u32| #[trigger] l.paths.contains_key(path),
    ensures
        l.absorbing(Event::Edge { from, to, count }, t_ns) == l,
        l.outcome(Event::Edge { from, to, count }, t_ns) is None,
{
}

/// Registering an id again keeps the history behind it.
pub proof fn lemma_registering_again_keeps_the_history(l: Ledger, r: Register)
    ensures
        forall|f: u32| #[trigger]
            l.functions.contains_key(f) ==> {
                let (before, after) = (l.functions[f], l.registering(r).functions[f]);
                &&& l.registering(r).functions.contains_key(f)
                &&& after.calls == before.calls
                &&& after.ns_total == before.ns_total
                &&& after.ns_buckets == before.ns_buckets
            },
        forall|t: u32| #[trigger]
            l.types.contains_key(t) ==> l.registering(r).types.contains_key(t)
                && l.registering(r).types[t].latest == l.types[t].latest,
        forall|p: u32| #[trigger]
            l.paths.contains_key(p) ==> {
                let (before, after) = (l.paths[p], l.registering(r).paths[p]);
                &&& l.registering(r).paths.contains_key(p)
                &&& after.calls == before.calls
                &&& after.self_ns == before.self_ns
                &&& before.attributed ==> after == before
            },
        l.registering(r).edges == l.edges,
{
}

impl ProcessState {
    /// Folds one frame in, as heard at `now_unix_ms`. The window it closes, if
    /// it closes one, goes to whoever watches the process.
    pub fn apply_frame_at(&mut self, frame: &Frame, now_unix_ms: u64) -> (r: Option<Update>)
        requires
            old(self)@.wf(),
        ensures
            final(self)@ == old(self)@.receiving(*frame, now_unix_ms),
            final(self)@.wf(),
            final(self)@.counts.late_frames == quantity::capped(
                old(self)@.counts.late_frames,
                if old(self)@.fine.too_late(old(self)@.fine.index_of(frame.t_ns)) {
                    1
                } else {
                    0
                },
            ),
            match r {
                Some(update) => update@ matches UpdateModel::WindowClosed(w)
                    && old(self)@.closing(frame.t_ns) == Some(w),
                None => old(self)@.closing(frame.t_ns) is None,
            },
    {
        let ghost before = self@;
        self.counts.frames = self.counts.frames.saturating_add(1);
        if let Some(previous) = self.last_seq {
            if frame.seq > previous && frame.seq - previous > 1 {
                self.counts.missed_frames = self.counts.missed_frames.saturating_add(
                    frame.seq - previous - 1,
                );
            }
        }
        self.last_seq = Some(frame.seq);
        if frame.t_ns > self.last_t_ns {
            self.last_t_ns = frame.t_ns;
        }
        self.last_frame_unix_ms = Some(now_unix_ms);
        let ghost heard = before.hearing(frame.seq, frame.t_ns, now_unix_ms);
        proof {
            assert(self@ =~= heard);
        }
        for n in 0..frame.registers.len()
            invariant
                self@ == heard.registering_all(frame.registers@.take(n as int)),
        {
            proof {
                assert(frame.registers@.take(n + 1).drop_last() =~= frame.registers@.take(
                    n as int,
                ));
            }
            self.register(&frame.registers[n]);
        }
        proof {
            assert(frame.registers@.take(frame.registers@.len() as int) =~= frame.registers@);
            lemma_registering_leaves_the_rest(heard, frame.registers@);
        }
        let closed = self.close_open_window_before(frame.t_ns);
        let ghost ready = self@;
        let applied = self.accumulate_totals(&frame.events, frame.t_ns);
        proof {
            lemma_absorbing_leaves_the_rest(ready, frame.events@, frame.t_ns);
        }
        self.fold_into_rings(&applied, frame.t_ns);
        proof {
            lemma_receiving_keeps_the_process_sound(before, *frame, now_unix_ms);
            lemma_every_late_frame_is_counted(before, *frame, now_unix_ms);
        }
        match closed {
            Some(window) => Some(Update::WindowClosed(Box::new(window))),
            None => None,
        }
    }

    /// Folds one frame in, as heard now.
    pub fn apply_frame(&mut self, frame: &Frame) -> (r: Option<Update>)
        requires
            old(self)@.wf(),
        ensures
            final(self)@.wf(),
            final(self)@.counts.late_frames == quantity::capped(
                old(self)@.counts.late_frames,
                if old(self)@.fine.too_late(old(self)@.fine.index_of(frame.t_ns)) {
                    1
                } else {
                    0
                },
            ),
            final(self)@.last_frame_unix_ms matches Some(now) && final(self)@ == old(
                self,
            )@.receiving(*frame, now),
            match r {
                Some(update) => update@ matches UpdateModel::WindowClosed(w)
                    && old(self)@.closing(frame.t_ns) == Some(w),
                None => old(self)@.closing(frame.t_ns) is None,
            },
    {
        let now: u64 = clock::now_unix_ms();
        let ghost before = self@;
        let r = self.apply_frame_at(frame, now);
        proof {
            lemma_receiving_notes_the_time(before, *frame, now);
        }
        r
    }

    /// Takes in the greeting that opens a connection.
    pub fn greet(&mut self, hello: &Hello)
        ensures
            final(self)@ == old(self)@.greeting(*hello),
    {
        self.app = hello.app.clone();
        self.source = hello.source.clone();
        self.window_ms = hello.window_ms;
        self.ended_unix_ms = None;
        self.live_connections = self.live_connections.saturating_add(1);
    }

    /// Closes one connection at `now_unix_ms`, and says what that means to
    /// whoever watches the process.
    pub fn part(&mut self, now_unix_ms: u64) -> (r: Vec<Update>)
        ensures
            final(self)@ == old(self)@.parting(now_unix_ms),
            saying(r@) == old(self)@.farewell(now_unix_ms),
    {
        let ghost before = self@;
        let mut updates: Vec<Update> = Vec::new();
        self.live_connections = self.live_connections.saturating_sub(1);
        if self.live_connections == 0 {
            self.ended_unix_ms = Some(now_unix_ms);
            if let Some(window) = self.flush_open_window() {
                updates.push(Update::WindowClosed(Box::new(window)));
            }
            updates.push(Update::ProcessEnded { ended_unix_ms: now_unix_ms });
        }
        proof {
            assert(saying(updates@) =~= before.farewell(now_unix_ms));
        }
        updates
    }

    /// Seals the window still open, so the last thing a dying process did is
    /// pushed to a watching UI rather than stranded.
    fn flush_open_window(&mut self) -> (r: Option<Window>)
        ensures
            final(self)@ == (ProcessModel { open_fine_index: None, ..old(self)@ }),
            match r {
                Some(w) => old(self)@.last_words() == Some(w@),
                None => old(self)@.last_words() is None,
            },
    {
        match self.open_fine_index {
            Some(open) => {
                let sealed = self.eventful(open);
                self.open_fine_index = None;
                sealed
            },
            None => None,
        }
    }
}

proof fn lemma_receiving_notes_the_time(p: ProcessModel, frame: Frame, now: u64)
    ensures
        p.receiving(frame, now).last_frame_unix_ms == Some(now),
{
    let heard = p.hearing(frame.seq, frame.t_ns, now);
    lemma_registering_leaves_the_rest(heard, frame.registers@);
    let ready = heard.registering_all(frame.registers@).opening(frame.t_ns);
    lemma_absorbing_leaves_the_rest(ready, frame.events@, frame.t_ns);
}

impl ProcessModel {
    /// The open window, where something happened in it.
    pub open spec fn last_words(self) -> Option<WindowModel> {
        match self.open_fine_index {
            Some(open) => self.eventful(open),
            None => None,
        }
    }

    /// The process as a connection opens: it takes the greeting's word for what
    /// it is called, and is no longer ended.
    pub open spec fn greeting(self, hello: Hello) -> ProcessModel {
        ProcessModel {
            app: hello.app@,
            source: hello.source@,
            window_ms: hello.window_ms,
            ended_unix_ms: None,
            live_connections: if self.live_connections == u32::MAX {
                u32::MAX
            } else {
                (self.live_connections + 1) as u32
            },
            ..self
        }
    }

    /// The process as a connection closes: the last one out marks it ended.
    pub open spec fn parting(self, now: u64) -> ProcessModel {
        if self.live_connections <= 1 {
            ProcessModel {
                live_connections: 0,
                ended_unix_ms: Some(now),
                open_fine_index: None,
                ..self
            }
        } else {
            ProcessModel { live_connections: (self.live_connections - 1) as u32, ..self }
        }
    }

    /// What a watching UI is told as a connection closes.
    pub open spec fn farewell(self, now: u64) -> Seq<UpdateModel> {
        if self.live_connections <= 1 {
            match self.last_words() {
                Some(w) => seq![
                    UpdateModel::WindowClosed(w),
                    UpdateModel::ProcessEnded { ended_unix_ms: now },
                ],
                None => seq![UpdateModel::ProcessEnded { ended_unix_ms: now }],
            }
        } else {
            Seq::empty()
        }
    }
}

} // verus!
