//! The shapes the web UI reads. Every one is a published contract, so the
//! field names spell out their units and say whether a number accumulates or
//! is a reading at an instant.
use std::collections::BTreeMap;

use vstd::prelude::*;

use crate::dist;
use crate::ordered;
use crate::proto::Location;
use crate::quantity;
use crate::ring;
use crate::ring::{
    CallModel, CensusModel, CensusReading, Ring, RingModel, StackDelta, StackModel, Window,
    WindowModel,
};
use crate::session::{Feed, Member, MemberModel, Session, SessionModel};
use crate::store::{
    FunctionModel, PathModel, PathState, ProcessId, ProcessModel, ProcessState, TypeModel, Update,
    UpdateModel,
};
use crate::proto;
use crate::text;

verus! {

broadcast use crate::ordered::group_sorted_maps;

/// How much of the recent past a per-second rate is averaged over.
pub const RATE_WINDOW_MS: u64 = 1_000;

/// Which ring a snapshot's windows come from.
#[derive(Debug, Clone, Copy, PartialEq, Eq, Structural)]
pub enum Resolution {
    /// 100ms windows over the last minute.
    Fine,
    /// 1s windows over the last quarter of an hour.
    Coarse,
}

impl Resolution {
    /// The resolution a client names. One nobody recognizes is a client bug,
    /// and answering it with the fine view would hide that behind an axis
    /// quietly a quarter the length the client asked for.
    pub fn parse(raw: &str) -> (r: Option<Resolution>)
        ensures
            r == if raw@ == "fine"@ {
                Some(Resolution::Fine)
            } else if raw@ == "coarse"@ {
                Some(Resolution::Coarse)
            } else {
                None
            },
    {
        if text::same(raw, "fine") {
            Some(Resolution::Fine)
        } else if text::same(raw, "coarse") {
            Some(Resolution::Coarse)
        } else {
            None
        }
    }

    pub fn as_str(self) -> (r: &'static str)
        ensures
            r@ == match self {
                Resolution::Fine => "fine"@,
                Resolution::Coarse => "coarse"@,
            },
    {
        match self {
            Resolution::Fine => "fine",
            Resolution::Coarse => "coarse",
        }
    }
}

/// What a snapshot is asked to cover.
#[derive(Debug, Clone, Copy, PartialEq, Eq, Structural)]
pub struct SnapshotView {
    pub resolution: Resolution,
    /// At most this many of the most recent windows.
    pub limit: usize,
}

/// A total over a span of time. Dividing the one by the other is left to
/// whoever prints it.
#[derive(Debug, Clone, Copy, PartialEq, Eq, Structural)]
pub struct Rate {
    pub total: u64,
    pub covered_ns: u64,
}

#[derive(Debug)]
pub struct ProcessList {
    pub processes: Vec<ProcessSummary>,
}

#[derive(Debug)]
pub struct ProcessSummary {
    pub id: String,
    pub app: String,
    pub pid: u32,
    pub source: String,
    pub started_unix_ms: u64,
    /// Set once the last connection for this process closes. A null here means
    /// the process is still streaming.
    pub ended_unix_ms: Option<u64>,
    pub connected: bool,
    /// The window length the emitter declared, which is not the daemon's own
    /// window length. See `resolution_ms` on a snapshot.
    pub window_ms: u32,
    pub last_frame_unix_ms: Option<u64>,
    /// Monotonic nanoseconds since process start, at the newest frame's close.
    pub last_t_ns: u64,
    pub counts: CountsJson,
}

#[derive(Debug, Clone, Copy, PartialEq, Eq, Structural)]
pub struct CountsJson {
    pub frames: u64,
    pub events: u64,
    pub functions: u64,
    pub types: u64,
    pub edges: u64,
    pub paths: u64,
    pub missed_frames: u64,
    pub late_frames: u64,
    pub unknown_id: u64,
    pub malformed_lines: u64,
}

#[derive(Debug)]
pub struct Snapshot {
    pub process: ProcessSummary,
    pub taken_unix_ms: u64,
    pub rate_window_ms: u64,
    pub resolution: &'static str,
    pub resolution_ms: u64,
    pub resolution_capacity: u64,
    pub fine_window_ms: u64,
    pub fine_window_capacity: u64,
    pub functions: Vec<FunctionJson>,
    pub types: Vec<TypeJson>,
    pub edges: Vec<EdgeJson>,
    pub paths: Vec<PathJson>,
    pub windows: Vec<WindowJson>,
}

#[derive(Debug)]
pub struct FunctionJson {
    pub id: u32,
    pub name: String,
    pub module: Option<String>,
    pub location: Option<LocationJson>,
    /// Calls since the process connected. Accumulates.
    pub calls_total: u64,
    /// Nanoseconds spent in those calls, since the process connected.
    pub ns_total: u64,
    /// Nanoseconds spent in the function and outside any measured callee,
    /// summed over every context it was reached through.
    pub self_ns_total: u64,
    pub calls_per_sec: Rate,
    pub ns_per_sec: Rate,
    pub self_ns_per_sec: Rate,
    /// Lifetime duration histogram. `lo` and `hi` are nanoseconds.
    pub ns_buckets: Vec<BucketJson>,
}

#[derive(Debug)]
pub struct TypeJson {
    pub id: u32,
    pub name: String,
    pub location: Option<LocationJson>,
    /// The latest reading, or null if this type has not reported one yet.
    pub census: Option<CensusJson>,
}

/// A reading at one instant. These numbers replace the previous reading; they
/// are never summed over time.
#[derive(Debug)]
pub struct CensusJson {
    pub live: u64,
    pub bytes: u64,
    pub at_t_ns: u64,
    /// Sizes of the live instances. `lo` and `hi` are bytes.
    pub size_buckets: Vec<BucketJson>,
}

#[derive(Debug, Clone, Copy, PartialEq, Eq, Structural)]
pub struct EdgeJson {
    pub from: u32,
    pub to: u32,
    /// Calls since the process connected. Never expires.
    pub calls_total: u64,
}

/// One node of the call tree. `parent` is zero where nothing measured called
/// it.
#[derive(Debug, Clone, Copy, PartialEq, Eq, Structural)]
pub struct PathJson {
    pub id: u32,
    pub parent: u32,
    pub func: u32,
    pub calls_total: u64,
    pub self_ns_total: u64,
}

#[derive(Debug, Clone, Copy, PartialEq, Eq, Structural)]
pub struct BucketJson {
    pub lo: u64,
    pub hi: u64,
    pub count: u64,
}

#[derive(Debug)]
pub struct LocationJson {
    pub file: String,
    pub line: u32,
    pub column: Option<u32>,
}

/// One closed window. `calls`, `edges` and `stacks` are that window's own
/// deltas; `census` is the reading taken at its close.
#[derive(Debug)]
pub struct WindowJson {
    pub index: u64,
    pub start_t_ns: u64,
    pub end_t_ns: u64,
    pub calls: Vec<WindowCallJson>,
    pub edges: Vec<WindowEdgeJson>,
    pub stacks: Vec<WindowStackJson>,
    pub census: Vec<WindowCensusJson>,
}

#[derive(Debug, Clone, Copy, PartialEq, Eq, Structural)]
pub struct WindowCallJson {
    pub func: u32,
    pub calls: u64,
    pub ns: u64,
}

#[derive(Debug, Clone, Copy, PartialEq, Eq, Structural)]
pub struct WindowEdgeJson {
    pub from: u32,
    pub to: u32,
    pub calls: u64,
}

#[derive(Debug, Clone, Copy, PartialEq, Eq, Structural)]
pub struct WindowStackJson {
    pub path: u32,
    pub calls: u64,
    pub self_ns: u64,
}

#[derive(Debug, Clone, Copy, PartialEq, Eq, Structural)]
pub struct WindowCensusJson {
    pub ty: u32,
    pub live: u64,
    pub bytes: u64,
}

#[derive(Debug)]
pub enum StreamMessage {
    Window { process_id: String, window: WindowJson },
    ProcessEnded { process_id: String, ended_unix_ms: u64 },
}

#[derive(Debug)]
pub struct SessionList {
    pub sessions: Vec<SessionJson>,
}

/// One program, and the emitters watching it. `cpu` and `memory` each name a
/// process id the snapshot route accepts.
#[derive(Debug)]
pub struct SessionJson {
    pub id: String,
    pub app: String,
    pub pid: u32,
    pub connected: bool,
    pub cpu: Option<MemberJson>,
    pub memory: Option<MemberJson>,
    /// Entries that matched this session and lost to a better one of their own
    /// feed. Usually a bridge restarted against a target that never died.
    pub superseded: Vec<MemberJson>,
}

#[derive(Debug)]
pub struct MemberJson {
    pub process_id: String,
    pub feed: &'static str,
    pub source: String,
    pub started_unix_ms: u64,
    pub ended_unix_ms: Option<u64>,
    pub connected: bool,
    pub last_frame_unix_ms: Option<u64>,
}

/// A stream message with the feed it came from, since one session's socket
/// carries both.
#[derive(Debug)]
pub struct SessionStreamMessage {
    pub session_id: String,
    pub feed: &'static str,
    pub message: StreamMessage,
}

/// What a process's counters come to, with how many symbols it has named.
pub open spec fn counts_of(p: ProcessModel) -> CountsJson {
    CountsJson {
        frames: p.counts.frames,
        events: p.counts.events,
        functions: p.ledger.functions.len() as u64,
        types: p.ledger.types.len() as u64,
        edges: p.ledger.edges.len() as u64,
        paths: p.ledger.paths.len() as u64,
        missed_frames: p.counts.missed_frames,
        late_frames: p.counts.late_frames,
        unknown_id: p.counts.unknown_id,
        malformed_lines: p.counts.malformed_lines,
    }
}

/// The summary says what the process holds.
pub open spec fn summarises(s: ProcessSummary, p: ProcessModel) -> bool {
    &&& s.id@ == p.id
    &&& s.app@ == p.app
    &&& s.pid == p.pid
    &&& s.source@ == p.source
    &&& s.started_unix_ms == p.started_unix_ms
    &&& s.ended_unix_ms == p.ended_unix_ms
    &&& s.connected == (p.live_connections > 0)
    &&& s.window_ms == p.window_ms
    &&& s.last_frame_unix_ms == p.last_frame_unix_ms
    &&& s.last_t_ns == p.last_t_ns
    &&& s.counts == counts_of(p)
}

pub fn summary(process: &ProcessState) -> (r: ProcessSummary)
    ensures
        summarises(r, process@),
{
    ProcessSummary {
        id: process.id.as_str().to_owned(),
        app: process.app.clone(),
        pid: process.pid,
        source: process.source.clone(),
        started_unix_ms: process.started_unix_ms,
        ended_unix_ms: process.ended_unix_ms,
        connected: process.is_connected(),
        window_ms: process.window_ms,
        last_frame_unix_ms: process.last_frame_unix_ms,
        last_t_ns: process.last_t_ns,
        counts: counts(process),
    }
}

fn counts(process: &ProcessState) -> (r: CountsJson)
    ensures
        r == counts_of(process@),
{
    proof {
        let l = process@.ledger;
        assert(l.functions.dom() =~= process.functions@.dom());
        assert(l.types.dom() =~= process.types@.dom());
        assert(l.edges.dom() =~= process.edges@.dom());
        assert(l.paths.dom() =~= process.paths@.dom());
    }
    CountsJson {
        frames: process.counts.frames,
        events: process.counts.events,
        functions: process.functions.len() as u64,
        types: process.types.len() as u64,
        edges: process.edges.len() as u64,
        paths: process.paths.len() as u64,
        missed_frames: process.counts.missed_frames,
        late_frames: process.counts.late_frames,
        unknown_id: process.counts.unknown_id,
        malformed_lines: process.counts.malformed_lines,
    }
}

/// A bucket with the range of values it covers.
pub open spec fn bucket_of(index: u16, count: u64) -> BucketJson {
    BucketJson { lo: dist::bucket_span(index).0, hi: dist::bucket_span(index).1, count }
}

fn bucket(index: u16, count: u64) -> (r: BucketJson)
    ensures
        r == bucket_of(index, count),
{
    let (lo, hi) = dist::bucket_range(index);
    BucketJson { lo, hi, count }
}

/// A histogram, smallest values first.
pub open spec fn histogram_of(m: Map<u16, u64>) -> Seq<BucketJson> {
    ordered::rising_u16(m.dom()).map_values(|i: u16| bucket_of(i, m[i]))
}

fn histogram(m: &BTreeMap<u16, u64>) -> (r: Vec<BucketJson>)
    ensures
        r@ == histogram_of(m@),
{
    let keys = ordered::keys_u16(m);
    let mut buckets: Vec<BucketJson> = Vec::new();
    for n in 0..keys.len()
        invariant
            ordered::lists_u16(keys@, m@.dom()),
            keys@ == ordered::rising_u16(m@.dom()),
            buckets@.len() == n,
            forall|i: int| 0 <= i < n ==> #[trigger] buckets@[i] == histogram_of(m@)[i],
    {
        proof {
            assert(keys@.contains(keys@[n as int]));
        }
        let count: u64 = match m.get(&keys[n]) {
            Some(c) => *c,
            None => 0,
        };
        buckets.push(bucket(keys[n], count));
    }
    proof {
        assert(buckets@ =~= histogram_of(m@));
    }
    buckets
}

/// Collapsed entries, each with the range of values it covers.
pub open spec fn sizes_of(b: Seq<(u16, u32)>) -> Seq<BucketJson> {
    b.map_values(|e: (u16, u32)| bucket_of(e.0, e.1 as u64))
}

/// The reading says what was recorded.
pub open spec fn reads(c: CensusJson, m: CensusModel) -> bool {
    &&& c.live == m.live
    &&& c.bytes == m.bytes
    &&& c.at_t_ns == m.at_t_ns
    &&& c.size_buckets@ == sizes_of(m.size_buckets)
}

fn census(reading: &CensusReading) -> (r: CensusJson)
    ensures
        reads(r, reading@),
{
    let mut size_buckets: Vec<BucketJson> = Vec::new();
    for n in 0..reading.size_buckets.len()
        invariant
            size_buckets@ =~= sizes_of(reading.size_buckets@).take(n as int),
    {
        let (index, count) = reading.size_buckets[n];
        size_buckets.push(bucket(index, count as u64));
    }
    proof {
        assert(size_buckets@ =~= sizes_of(reading.size_buckets@));
    }
    CensusJson {
        live: reading.live.get(),
        bytes: reading.bytes.get(),
        at_t_ns: reading.at_t_ns,
        size_buckets,
    }
}

/// The place is the one declared.
pub open spec fn places(j: Option<LocationJson>, l: Option<Location>) -> bool {
    match (j, l) {
        (Some(j), Some(l)) => j.file@ == l.file@ && j.line == l.line && j.column == l.column,
        (None, None) => true,
        _ => false,
    }
}

fn location(source: &Option<Location>) -> (r: Option<LocationJson>)
    ensures
        places(r, *source),
{
    match source {
        Some(l) => Some(LocationJson { file: l.file.clone(), line: l.line, column: l.column }),
        None => None,
    }
}

/// The calls of a window, by function.
pub open spec fn calls_in(w: WindowModel) -> Seq<WindowCallJson> {
    ordered::rising_u32(w.calls.dom()).map_values(
        |f: u32| WindowCallJson { func: f, calls: w.calls[f].calls, ns: w.calls[f].ns },
    )
}

/// The edges of a window, by pair of functions.
pub open spec fn edges_in(w: WindowModel) -> Seq<WindowEdgeJson> {
    ordered::rising_pairs(w.edges.dom()).map_values(
        |p: (u32, u32)| WindowEdgeJson { from: p.0, to: p.1, calls: w.edges[p] },
    )
}

/// The contexts of a window.
pub open spec fn stacks_in(w: WindowModel) -> Seq<WindowStackJson> {
    ordered::rising_u32(w.stacks.dom()).map_values(
        |p: u32|
            WindowStackJson { path: p, calls: w.stacks[p].calls, self_ns: w.stacks[p].self_ns },
    )
}

/// The readings of a window, by type.
pub open spec fn census_in(w: WindowModel) -> Seq<WindowCensusJson> {
    ordered::rising_u32(w.census.dom()).map_values(
        |t: u32| WindowCensusJson { ty: t, live: w.census[t].live, bytes: w.census[t].bytes },
    )
}

/// The window says what happened in it.
pub open spec fn shows(j: WindowJson, w: WindowModel) -> bool {
    &&& j.index == w.index
    &&& j.start_t_ns == w.start()
    &&& j.end_t_ns == w.end()
    &&& j.calls@ == calls_in(w)
    &&& j.edges@ == edges_in(w)
    &&& j.stacks@ == stacks_in(w)
    &&& j.census@ == census_in(w)
}

fn window_calls(source: &Window) -> (r: Vec<WindowCallJson>)
    ensures
        r@ == calls_in(source@),
{
    let keys = ordered::keys_u32(&source.calls);
    let mut calls: Vec<WindowCallJson> = Vec::new();
    proof {
        assert(source@.calls.dom() =~= source.calls@.dom());
    }
    for n in 0..keys.len()
        invariant
            ordered::lists_u32(keys@, source.calls@.dom()),
            keys@ == ordered::rising_u32(source@.calls.dom()),
            calls@.len() == n,
            forall|i: int| 0 <= i < n ==> #[trigger] calls@[i] == calls_in(source@)[i],
    {
        proof {
            assert(keys@.contains(keys@[n as int]));
        }
        if let Some(delta) = source.calls.get(&keys[n]) {
            calls.push(
                WindowCallJson { func: keys[n], calls: delta.calls.get(), ns: delta.ns.get() },
            );
        }
    }
    proof {
        assert(calls@ =~= calls_in(source@));
    }
    calls
}

fn window_edges(source: &Window) -> (r: Vec<WindowEdgeJson>)
    ensures
        r@ == edges_in(source@),
{
    let keys = ordered::keys_pairs(&source.edges);
    let mut edges: Vec<WindowEdgeJson> = Vec::new();
    proof {
        assert(source@.edges.dom() =~= source.edges@.dom());
    }
    for n in 0..keys.len()
        invariant
            ordered::lists_pairs(keys@, source.edges@.dom()),
            keys@ == ordered::rising_pairs(source@.edges.dom()),
            edges@.len() == n,
            forall|i: int| 0 <= i < n ==> #[trigger] edges@[i] == edges_in(source@)[i],
    {
        proof {
            assert(keys@.contains(keys@[n as int]));
        }
        if let Some(calls) = source.edges.get(&keys[n]) {
            edges.push(WindowEdgeJson { from: keys[n].0, to: keys[n].1, calls: calls.get() });
        }
    }
    proof {
        assert(edges@ =~= edges_in(source@));
    }
    edges
}

fn window_stacks(source: &Window) -> (r: Vec<WindowStackJson>)
    ensures
        r@ == stacks_in(source@),
{
    let keys = ordered::keys_u32(&source.stacks);
    let mut stacks: Vec<WindowStackJson> = Vec::new();
    proof {
        assert(source@.stacks.dom() =~= source.stacks@.dom());
    }
    for n in 0..keys.len()
        invariant
            ordered::lists_u32(keys@, source.stacks@.dom()),
            keys@ == ordered::rising_u32(source@.stacks.dom()),
            stacks@.len() == n,
            forall|i: int| 0 <= i < n ==> #[trigger] stacks@[i] == stacks_in(source@)[i],
    {
        proof {
            assert(keys@.contains(keys@[n as int]));
        }
        if let Some(delta) = source.stacks.get(&keys[n]) {
            stacks.push(
                WindowStackJson {
                    path: keys[n],
                    calls: delta.calls.get(),
                    self_ns: delta.self_ns.get(),
                },
            );
        }
    }
    proof {
        assert(stacks@ =~= stacks_in(source@));
    }
    stacks
}

fn window_census(source: &Window) -> (r: Vec<WindowCensusJson>)
    ensures
        r@ == census_in(source@),
{
    let keys = ordered::keys_u32(&source.census);
    let mut readings: Vec<WindowCensusJson> = Vec::new();
    proof {
        assert(source@.census.dom() =~= source.census@.dom());
    }
    for n in 0..keys.len()
        invariant
            ordered::lists_u32(keys@, source.census@.dom()),
            keys@ == ordered::rising_u32(source@.census.dom()),
            readings@.len() == n,
            forall|i: int| 0 <= i < n ==> #[trigger] readings@[i] == census_in(source@)[i],
    {
        proof {
            assert(keys@.contains(keys@[n as int]));
        }
        if let Some(reading) = source.census.get(&keys[n]) {
            readings.push(
                WindowCensusJson {
                    ty: keys[n],
                    live: reading.live.get(),
                    bytes: reading.bytes.get(),
                },
            );
        }
    }
    proof {
        assert(readings@ =~= census_in(source@));
    }
    readings
}

pub fn window(source: &Window) -> (r: WindowJson)
    ensures
        shows(r, source@),
{
    WindowJson {
        index: source.index,
        start_t_ns: source.start_t_ns(),
        end_t_ns: source.end_t_ns(),
        calls: window_calls(source),
        edges: window_edges(source),
        stacks: window_stacks(source),
        census: window_census(source),
    }
}

/// The message says what the update says, of the process it came from.
pub open spec fn relays(m: StreamMessage, id: Seq<char>, u: UpdateModel) -> bool {
    match (m, u) {
        (StreamMessage::Window { process_id, window }, UpdateModel::WindowClosed(w)) => process_id@
            == id && shows(window, w),
        (
            StreamMessage::ProcessEnded { process_id, ended_unix_ms },
            UpdateModel::ProcessEnded { ended_unix_ms: ended },
        ) => process_id@ == id && ended_unix_ms == ended,
        _ => false,
    }
}

pub fn stream_message(id: &ProcessId, update: &Update) -> (r: StreamMessage)
    ensures
        relays(r, id@, update@),
{
    match update {
        Update::WindowClosed(closed) => StreamMessage::Window {
            process_id: id.as_str().to_owned(),
            window: window(closed),
        },
        Update::ProcessEnded { ended_unix_ms } => StreamMessage::ProcessEnded {
            process_id: id.as_str().to_owned(),
            ended_unix_ms: *ended_unix_ms,
        },
    }
}

/// How a feed is spelled.
pub open spec fn spelled(feed: Feed) -> Seq<char> {
    match feed {
        Feed::Cpu => "cpu"@,
        Feed::Memory => "memory"@,
    }
}

pub fn session_stream_message(
    session_id: &str,
    feed: Feed,
    process_id: &ProcessId,
    update: &Update,
) -> (r: SessionStreamMessage)
    ensures
        r.session_id@ == session_id@,
        r.feed@ == spelled(feed),
        relays(r.message, process_id@, update@),
{
    SessionStreamMessage {
        session_id: session_id.to_owned(),
        feed: feed.as_str(),
        message: stream_message(process_id, update),
    }
}

/// The entry says what the member says.
pub open spec fn enters(j: MemberJson, m: MemberModel) -> bool {
    &&& j.process_id@ == m.process_id
    &&& j.feed@ == spelled(m.feed)
    &&& j.source@ == m.source
    &&& j.started_unix_ms == m.started_unix_ms
    &&& j.ended_unix_ms == m.ended_unix_ms
    &&& j.connected == m.connected
    &&& j.last_frame_unix_ms == m.last_frame_unix_ms
}

/// The entry says what the member says, where there is one.
pub open spec fn enters_if_any(j: Option<MemberJson>, m: Option<MemberModel>) -> bool {
    match (j, m) {
        (Some(j), Some(m)) => enters(j, m),
        (None, None) => true,
        _ => false,
    }
}

fn member(source: &Member) -> (r: MemberJson)
    ensures
        enters(r, source@),
{
    MemberJson {
        process_id: source.process_id.as_str().to_owned(),
        feed: source.feed.as_str(),
        source: source.source.clone(),
        started_unix_ms: source.started_unix_ms,
        ended_unix_ms: source.ended_unix_ms,
        connected: source.connected,
        last_frame_unix_ms: source.last_frame_unix_ms,
    }
}

fn member_if_any(source: &Option<Member>) -> (r: Option<MemberJson>)
    ensures
        enters_if_any(r, crate::session::entry(*source)),
{
    match source {
        Some(m) => Some(member(m)),
        None => None,
    }
}

/// The shape says what the session says.
pub open spec fn presents(j: SessionJson, s: SessionModel) -> bool {
    &&& j.id@ == s.id
    &&& j.app@ == s.app
    &&& j.pid == s.pid
    &&& j.connected == s.is_connected()
    &&& enters_if_any(j.cpu, s.cpu)
    &&& enters_if_any(j.memory, s.memory)
    &&& j.superseded@.len() == s.superseded.len()
    &&& forall|i: int|
        0 <= i < s.superseded.len() ==> enters(#[trigger] j.superseded@[i], s.superseded[i])
}

pub fn session(source: &Session) -> (r: SessionJson)
    ensures
        presents(r, source@),
{
    let mut superseded: Vec<MemberJson> = Vec::new();
    for n in 0..source.superseded.len()
        invariant
            superseded@.len() == n,
            forall|i: int|
                0 <= i < n ==> enters(#[trigger] superseded@[i], source@.superseded[i]),
    {
        proof {
            assert(source@.superseded[n as int] == source.superseded@[n as int]@);
        }
        superseded.push(member(&source.superseded[n]));
    }
    SessionJson {
        id: source.id.clone(),
        app: source.app.clone(),
        pid: source.pid,
        connected: source.is_connected(),
        cpu: member_if_any(&source.cpu),
        memory: member_if_any(&source.memory),
        superseded,
    }
}

pub fn session_list(sessions: &Vec<Session>) -> (r: SessionList)
    ensures
        r.sessions@.len() == sessions@.len(),
        forall|i: int|
            0 <= i < sessions@.len() ==> presents(#[trigger] r.sessions@[i], sessions@[i]@),
{
    let mut list: Vec<SessionJson> = Vec::new();
    for n in 0..sessions.len()
        invariant
            list@.len() == n,
            forall|i: int| 0 <= i < n ==> presents(#[trigger] list@[i], sessions@[i]@),
    {
        list.push(session(&sessions[n]));
    }
    SessionList { sessions: list }
}

/// How many windows make up the span a rate is averaged over.
pub open spec fn rate_windows(resolution_ns: u64) -> nat {
    let whole = (RATE_WINDOW_MS * 1_000_000) / resolution_ns as int;
    if whole >= 1 {
        whole as nat
    } else {
        1
    }
}

/// The windows a rate is averaged over. They are always fine ones: asking for a
/// longer axis is not asking for "per second" to start meaning something else.
pub open spec fn recent(p: ProcessModel) -> Seq<WindowModel> {
    ring::last_of(p.fine.windows, rate_windows(p.fine.resolution_ns))
}

/// Calls and nanoseconds of one function over some windows.
pub open spec fn spent(ws: Seq<WindowModel>, f: u32) -> (nat, nat)
    decreases ws.len(),
{
    if ws.len() == 0 {
        (0, 0)
    } else {
        let before = spent(ws.drop_last(), f);
        match ring::held(ws.last().calls, f) {
            Some(d) => (before.0 + d.calls as nat, before.1 + d.ns as nat),
            None => before,
        }
    }
}

/// What the contexts in `ids` add up to for one function, each counted with its
/// amount.
pub open spec fn credited(
    ids: Seq<u32>,
    paths: Map<u32, PathModel>,
    amount: spec_fn(u32) -> u64,
    f: u32,
) -> nat
    decreases ids.len(),
{
    if ids.len() == 0 {
        0
    } else {
        let before = credited(ids.drop_last(), paths, amount, f);
        let id = ids.last();
        if paths.contains_key(id) && paths[id].func == f {
            before + amount(id) as nat
        } else {
            before
        }
    }
}

/// Self time of one function over the process lifetime: what every context it
/// was reached through spent outside any measured callee.
pub open spec fn self_lifetime(paths: Map<u32, PathModel>, f: u32) -> nat {
    credited(ordered::rising_u32(paths.dom()), paths, |id: u32| paths[id].self_ns, f)
}

/// Self time of one function within one window.
pub open spec fn self_within(w: WindowModel, paths: Map<u32, PathModel>, f: u32) -> nat {
    credited(ordered::rising_u32(w.stacks.dom()), paths, |id: u32| w.stacks[id].self_ns, f)
}

/// Self time of one function over some windows.
pub open spec fn self_over(ws: Seq<WindowModel>, paths: Map<u32, PathModel>, f: u32) -> nat
    decreases ws.len(),
{
    if ws.len() == 0 {
        0
    } else {
        self_over(ws.drop_last(), paths, f) + self_within(ws.last(), paths, f)
    }
}

/// The amount held for a function, where there is any.
spec fn amount(m: Map<u32, u64>, f: u32) -> u64 {
    match ring::held(m, f) {
        Some(n) => n,
        None => 0,
    }
}

/// Adds to the amount held for a function.
fn credit(totals: &mut BTreeMap<u32, u64>, func: u32, ns: u64)
    ensures
        forall|f: u32| #[trigger]
            amount(final(totals)@, f) == if f == func {
                quantity::capped(amount(old(totals)@, f), ns)
            } else {
                amount(old(totals)@, f)
            },
{
    let held: u64 = match totals.get(&func) {
        Some(n) => *n,
        None => 0,
    };
    totals.insert(func, held.saturating_add(ns));
}

/// Self time by function over the process lifetime.
fn lifetime_self(process: &ProcessState) -> (r: BTreeMap<u32, u64>)
    ensures
        forall|f: u32| #[trigger]
            amount(r@, f) == dist::clamp64(self_lifetime(process@.ledger.paths, f)),
{
    let ghost paths = process@.ledger.paths;
    let ghost spent = |id: u32| paths[id].self_ns;
    let ids = ordered::keys_u32(&process.paths);
    let mut totals: BTreeMap<u32, u64> = BTreeMap::new();
    proof {
        assert(paths.dom() =~= process.paths@.dom());
    }
    for n in 0..ids.len()
        invariant
            paths == process@.ledger.paths,
            paths.dom() == process.paths@.dom(),
            spent == (|id: u32| paths[id].self_ns),
            ordered::lists_u32(ids@, paths.dom()),
            forall|f: u32| #[trigger]
                amount(totals@, f) == dist::clamp64(
                    credited(ids@.take(n as int), paths, spent, f),
                ),
    {
        let ghost before = totals@;
        proof {
            assert(ids@.contains(ids@[n as int]));
            assert(ids@.take(n + 1).drop_last() =~= ids@.take(n as int));
        }
        if let Some(path) = process.paths.get(&ids[n]) {
            credit(&mut totals, path.func.0, path.self_ns.get());
        }
        proof {
            assert forall|f: u32| #[trigger] amount(totals@, f) == dist::clamp64(
                credited(ids@.take(n + 1), paths, spent, f),
            ) by {
                assert(amount(before, f) == dist::clamp64(
                    credited(ids@.take(n as int), paths, spent, f),
                ));
            }
        }
    }
    proof {
        assert(ids@.take(ids@.len() as int) =~= ids@);
    }
    totals
}

/// Adds the self time of one window, by function.
fn credit_window(totals: &mut BTreeMap<u32, u64>, window: &Window, process: &ProcessState)
    ensures
        forall|f: u32| #[trigger]
            amount(final(totals)@, f) == dist::clamp64(
                amount(old(totals)@, f) as nat + self_within(window@, process@.ledger.paths, f),
            ),
{
    let ghost paths = process@.ledger.paths;
    let ghost w = window@;
    let ghost start = totals@;
    let ghost spent = |id: u32| w.stacks[id].self_ns;
    let ids = ordered::keys_u32(&window.stacks);
    proof {
        assert(w.stacks.dom() =~= window.stacks@.dom());
    }
    for n in 0..ids.len()
        invariant
            paths == process@.ledger.paths,
            w == window@,
            w.stacks.dom() == window.stacks@.dom(),
            spent == (|id: u32| w.stacks[id].self_ns),
            ordered::lists_u32(ids@, w.stacks.dom()),
            forall|f: u32| #[trigger]
                amount(totals@, f) == dist::clamp64(
                    amount(start, f) as nat + credited(ids@.take(n as int), paths, spent, f),
                ),
    {
        let ghost before = totals@;
        proof {
            assert(ids@.contains(ids@[n as int]));
            assert(ids@.take(n + 1).drop_last() =~= ids@.take(n as int));
        }
        if let Some(path) = process.paths.get(&ids[n]) {
            if let Some(delta) = window.stacks.get(&ids[n]) {
                credit(totals, path.func.0, delta.self_ns.get());
            }
        }
        proof {
            assert forall|f: u32| #[trigger] amount(totals@, f) == dist::clamp64(
                amount(start, f) as nat + credited(ids@.take(n + 1), paths, spent, f),
            ) by {
                assert(amount(before, f) == dist::clamp64(
                    amount(start, f) as nat + credited(ids@.take(n as int), paths, spent, f),
                ));
            }
        }
    }
    proof {
        assert(ids@.take(ids@.len() as int) =~= ids@);
    }
}

/// Self time by function over some windows.
fn recent_self(recent: &Vec<&Window>, process: &ProcessState, Ghost(ws): Ghost<Seq<WindowModel>>) -> (r:
    BTreeMap<u32, u64>)
    requires
        recent@.len() == ws.len(),
        forall|i: int| 0 <= i < ws.len() ==> (#[trigger] recent@[i])@ == ws[i],
    ensures
        forall|f: u32| #[trigger]
            amount(r@, f) == dist::clamp64(self_over(ws, process@.ledger.paths, f)),
{
    let ghost paths = process@.ledger.paths;
    let mut totals: BTreeMap<u32, u64> = BTreeMap::new();
    for n in 0..recent.len()
        invariant
            paths == process@.ledger.paths,
            recent@.len() == ws.len(),
            forall|i: int| 0 <= i < ws.len() ==> (#[trigger] recent@[i])@ == ws[i],
            forall|f: u32| #[trigger]
                amount(totals@, f) == dist::clamp64(self_over(ws.take(n as int), paths, f)),
    {
        let ghost before = totals@;
        proof {
            assert(ws.take(n + 1).drop_last() =~= ws.take(n as int));
            assert(recent@[n as int]@ == ws[n as int]);
        }
        credit_window(&mut totals, recent[n], process);
        proof {
            assert forall|f: u32| #[trigger] amount(totals@, f) == dist::clamp64(
                self_over(ws.take(n + 1), paths, f),
            ) by {
                assert(amount(before, f) == dist::clamp64(
                    self_over(ws.take(n as int), paths, f),
                ));
            }
        }
    }
    proof {
        assert(ws.take(ws.len() as int) =~= ws);
    }
    totals
}

/// Calls and nanoseconds of one function over some windows.
fn recent_calls(recent: &Vec<&Window>, func: u32, Ghost(ws): Ghost<Seq<WindowModel>>) -> (r: (
    u64,
    u64,
))
    requires
        recent@.len() == ws.len(),
        forall|i: int| 0 <= i < ws.len() ==> (#[trigger] recent@[i])@ == ws[i],
    ensures
        r.0 == dist::clamp64(spent(ws, func).0),
        r.1 == dist::clamp64(spent(ws, func).1),
{
    let mut calls: u64 = 0;
    let mut ns: u64 = 0;
    for n in 0..recent.len()
        invariant
            recent@.len() == ws.len(),
            forall|i: int| 0 <= i < ws.len() ==> (#[trigger] recent@[i])@ == ws[i],
            calls == dist::clamp64(spent(ws.take(n as int), func).0),
            ns == dist::clamp64(spent(ws.take(n as int), func).1),
    {
        proof {
            assert(ws.take(n + 1).drop_last() =~= ws.take(n as int));
            assert(recent@[n as int]@ == ws[n as int]);
        }
        if let Some(delta) = recent[n].calls.get(&func) {
            calls = calls.saturating_add(delta.calls.get());
            ns = ns.saturating_add(delta.ns.get());
        }
    }
    proof {
        assert(ws.take(ws.len() as int) =~= ws);
    }
    (calls, ns)
}

/// The span the recent windows cover.
pub open spec fn covered(p: ProcessModel) -> u64 {
    quantity::capped_product(recent(p).len() as u64, p.fine.resolution_ns)
}

/// The shape says what is known of one function.
pub open spec fn describes(j: FunctionJson, p: ProcessModel, id: u32) -> bool {
    let f = p.ledger.functions[id];
    let (calls, ns) = spent(recent(p), id);
    &&& j.id == id
    &&& j.name@ == f.name
    &&& text::text_of(j.module) == f.module
    &&& places(j.location, f.location)
    &&& j.calls_total == f.calls
    &&& j.ns_total == f.ns_total
    &&& j.self_ns_total == dist::clamp64(self_lifetime(p.ledger.paths, id))
    &&& j.calls_per_sec == (Rate { total: dist::clamp64(calls), covered_ns: covered(p) })
    &&& j.ns_per_sec == (Rate { total: dist::clamp64(ns), covered_ns: covered(p) })
    &&& j.self_ns_per_sec == (Rate {
        total: dist::clamp64(self_over(recent(p), p.ledger.paths, id)),
        covered_ns: covered(p),
    })
    &&& j.ns_buckets@ == histogram_of(f.ns_buckets)
}

fn recent_windows(process: &ProcessState) -> (r: Vec<&Window>)
    requires
        process@.fine.wf(),
    ensures
        r@.len() == recent(process@).len(),
        forall|i: int| 0 <= i < r@.len() ==> (#[trigger] r@[i])@ == recent(process@)[i],
{
    let resolution_ns: u64 = process.fine.resolution_ns();
    let wanted: u64 = RATE_WINDOW_MS * 1_000_000 / resolution_ns;
    let count: usize = if wanted >= 1 {
        wanted as usize
    } else {
        1
    };
    process.fine.most_recent(count)
}

fn functions(process: &ProcessState) -> (r: Vec<FunctionJson>)
    requires
        process@.fine.wf(),
    ensures
        ({
            let ids = ordered::rising_u32(process@.ledger.functions.dom());
            &&& r@.len() == ids.len()
            &&& forall|i: int|
                0 <= i < ids.len() ==> describes(#[trigger] r@[i], process@, ids[i])
        }),
{
    let ghost p = process@;
    let ghost ws = recent(p);
    let windows = recent_windows(process);
    let covered_ns: u64 = quantity::times(windows.len() as u64, process.fine.resolution_ns());
    let self_totals = lifetime_self(process);
    let self_recent = recent_self(&windows, process, Ghost(ws));
    let ids = ordered::keys_u32(&process.functions);
    let mut list: Vec<FunctionJson> = Vec::new();
    proof {
        assert(p.ledger.functions.dom() =~= process.functions@.dom());
    }
    for n in 0..ids.len()
        invariant
            p == process@,
            ws == recent(p),
            windows@.len() == ws.len(),
            forall|i: int| 0 <= i < ws.len() ==> (#[trigger] windows@[i])@ == ws[i],
            covered_ns == covered(p),
            forall|f: u32| #[trigger]
                amount(self_totals@, f) == dist::clamp64(self_lifetime(p.ledger.paths, f)),
            forall|f: u32| #[trigger]
                amount(self_recent@, f) == dist::clamp64(self_over(ws, p.ledger.paths, f)),
            ordered::lists_u32(ids@, process.functions@.dom()),
            list@.len() == n,
            forall|i: int| 0 <= i < n ==> describes(#[trigger] list@[i], p, ids@[i]),
    {
        let id: u32 = ids[n];
        proof {
            assert(ids@.contains(ids@[n as int]));
            assert(amount(self_totals@, id) == dist::clamp64(self_lifetime(p.ledger.paths, id)));
            assert(amount(self_recent@, id) == dist::clamp64(self_over(ws, p.ledger.paths, id)));
        }
        let self_ns_total: u64 = match self_totals.get(&id) {
            Some(ns) => *ns,
            None => 0,
        };
        let recent_self_ns: u64 = match self_recent.get(&id) {
            Some(ns) => *ns,
            None => 0,
        };
        let (calls, ns) = recent_calls(&windows, id, Ghost(ws));
        if let Some(state) = process.functions.get(&id) {
            proof {
                assert(p.ledger.functions[id] == state@);
            }
            list.push(
                FunctionJson {
                    id,
                    name: state.name.clone(),
                    module: proto::copy_text(&state.module),
                    location: location(&state.location),
                    calls_total: state.calls.get(),
                    ns_total: state.ns_total.get(),
                    self_ns_total,
                    calls_per_sec: Rate { total: calls, covered_ns },
                    ns_per_sec: Rate { total: ns, covered_ns },
                    self_ns_per_sec: Rate { total: recent_self_ns, covered_ns },
                    ns_buckets: histogram(&state.ns_buckets),
                },
            );
        }
    }
    list
}

/// The shape says what is known of one type.
pub open spec fn tells(j: TypeJson, id: u32, t: TypeModel) -> bool {
    &&& j.id == id
    &&& j.name@ == t.name
    &&& places(j.location, t.location)
    &&& match (j.census, t.latest) {
        (Some(c), Some(m)) => reads(c, m),
        (None, None) => true,
        _ => false,
    }
}

fn types(process: &ProcessState) -> (r: Vec<TypeJson>)
    ensures
        ({
            let l = process@.ledger;
            let ids = ordered::rising_u32(l.types.dom());
            &&& r@.len() == ids.len()
            &&& forall|i: int|
                0 <= i < ids.len() ==> tells(#[trigger] r@[i], ids[i], l.types[ids[i]])
        }),
{
    let ghost l = process@.ledger;
    let ids = ordered::keys_u32(&process.types);
    let mut list: Vec<TypeJson> = Vec::new();
    proof {
        assert(l.types.dom() =~= process.types@.dom());
    }
    for n in 0..ids.len()
        invariant
            l == process@.ledger,
            ordered::lists_u32(ids@, process.types@.dom()),
            list@.len() == n,
            forall|i: int| 0 <= i < n ==> tells(#[trigger] list@[i], ids@[i], l.types[ids@[i]]),
    {
        let id: u32 = ids[n];
        proof {
            assert(ids@.contains(ids@[n as int]));
        }
        if let Some(state) = process.types.get(&id) {
            proof {
                assert(l.types[id] == state@);
            }
            list.push(
                TypeJson {
                    id,
                    name: state.name.clone(),
                    location: location(&state.location),
                    census: match &state.latest {
                        Some(reading) => Some(census(reading)),
                        None => None,
                    },
                },
            );
        }
    }
    list
}

/// The call graph, by pair of functions.
pub open spec fn edges_of(edges: Map<(u32, u32), u64>) -> Seq<EdgeJson> {
    ordered::rising_pairs(edges.dom()).map_values(
        |p: (u32, u32)| EdgeJson { from: p.0, to: p.1, calls_total: edges[p] },
    )
}

fn edges(process: &ProcessState) -> (r: Vec<EdgeJson>)
    ensures
        r@ == edges_of(process@.ledger.edges),
{
    let ghost all = process@.ledger.edges;
    let keys = ordered::keys_pairs(&process.edges);
    let mut list: Vec<EdgeJson> = Vec::new();
    proof {
        assert(all.dom() =~= process.edges@.dom());
    }
    for n in 0..keys.len()
        invariant
            all == process@.ledger.edges,
            ordered::lists_pairs(keys@, process.edges@.dom()),
            keys@ == ordered::rising_pairs(all.dom()),
            list@.len() == n,
            forall|i: int| 0 <= i < n ==> #[trigger] list@[i] == edges_of(all)[i],
    {
        proof {
            assert(keys@.contains(keys@[n as int]));
        }
        if let Some(calls) = process.edges.get(&keys[n]) {
            list.push(EdgeJson { from: keys[n].0, to: keys[n].1, calls_total: calls.get() });
        }
    }
    proof {
        assert(list@ =~= edges_of(all));
    }
    list
}

/// The call tree, by context.
pub open spec fn paths_of(paths: Map<u32, PathModel>) -> Seq<PathJson> {
    ordered::rising_u32(paths.dom()).map_values(
        |id: u32|
            PathJson {
                id,
                parent: paths[id].parent,
                func: paths[id].func,
                calls_total: paths[id].calls,
                self_ns_total: paths[id].self_ns,
            },
    )
}

fn paths(process: &ProcessState) -> (r: Vec<PathJson>)
    ensures
        r@ == paths_of(process@.ledger.paths),
{
    let ghost all = process@.ledger.paths;
    let ids = ordered::keys_u32(&process.paths);
    let mut list: Vec<PathJson> = Vec::new();
    proof {
        assert(all.dom() =~= process.paths@.dom());
    }
    for n in 0..ids.len()
        invariant
            all == process@.ledger.paths,
            ordered::lists_u32(ids@, process.paths@.dom()),
            ids@ == ordered::rising_u32(all.dom()),
            list@.len() == n,
            forall|i: int| 0 <= i < n ==> #[trigger] list@[i] == paths_of(all)[i],
    {
        let id: u32 = ids[n];
        proof {
            assert(ids@.contains(ids@[n as int]));
        }
        if let Some(path) = process.paths.get(&id) {
            list.push(
                PathJson {
                    id,
                    parent: path.parent.0,
                    func: path.func.0,
                    calls_total: path.calls.get(),
                    self_ns_total: path.self_ns.get(),
                },
            );
        }
    }
    proof {
        assert(list@ =~= paths_of(all));
    }
    list
}

fn windows(ring: &Ring, limit: usize) -> (r: Vec<WindowJson>)
    ensures
        ({
            let shown = ring::last_of(ring@.windows, limit as nat);
            &&& r@.len() == shown.len()
            &&& forall|i: int| 0 <= i < shown.len() ==> shows(#[trigger] r@[i], shown[i])
        }),
{
    let ghost shown = ring::last_of(ring@.windows, limit as nat);
    let recent = ring.most_recent(limit);
    let mut list: Vec<WindowJson> = Vec::new();
    for n in 0..recent.len()
        invariant
            recent@.len() == shown.len(),
            forall|i: int| 0 <= i < shown.len() ==> (#[trigger] recent@[i])@ == shown[i],
            list@.len() == n,
            forall|i: int| 0 <= i < n ==> shows(#[trigger] list@[i], shown[i]),
    {
        proof {
            assert(recent@[n as int]@ == shown[n as int]);
        }
        list.push(window(recent[n]));
    }
    list
}

/// The ring a view asks for.
pub open spec fn ring_of(p: ProcessModel, resolution: Resolution) -> RingModel {
    match resolution {
        Resolution::Fine => p.fine,
        Resolution::Coarse => p.coarse,
    }
}

/// The snapshot says everything known of the process, with the windows the view
/// asks for: at most `limit` of the most recent, oldest first.
pub open spec fn portrays(s: Snapshot, p: ProcessModel, taken: u64, view: SnapshotView) -> bool {
    let ring = ring_of(p, view.resolution);
    let functions = ordered::rising_u32(p.ledger.functions.dom());
    let types = ordered::rising_u32(p.ledger.types.dom());
    let shown = ring::last_of(ring.windows, view.limit as nat);
    &&& summarises(s.process, p)
    &&& s.taken_unix_ms == taken
    &&& s.rate_window_ms == RATE_WINDOW_MS
    &&& s.resolution@ == match view.resolution {
        Resolution::Fine => "fine"@,
        Resolution::Coarse => "coarse"@,
    }
    &&& s.resolution_ms == ring.resolution_ns / 1_000_000
    &&& s.resolution_capacity == ring.capacity
    &&& s.fine_window_ms == p.fine.resolution_ns / 1_000_000
    &&& s.fine_window_capacity == p.fine.capacity
    &&& s.functions@.len() == functions.len()
    &&& forall|i: int|
        0 <= i < functions.len() ==> describes(#[trigger] s.functions@[i], p, functions[i])
    &&& s.types@.len() == types.len()
    &&& forall|i: int|
        0 <= i < types.len() ==> tells(#[trigger] s.types@[i], types[i], p.ledger.types[types[i]])
    &&& s.edges@ == edges_of(p.ledger.edges)
    &&& s.paths@ == paths_of(p.ledger.paths)
    &&& s.windows@.len() == shown.len()
    &&& forall|i: int| 0 <= i < shown.len() ==> shows(#[trigger] s.windows@[i], shown[i])
}

/// Everything known about one process, as the view asks for it.
pub fn snapshot_view(process: &ProcessState, taken_unix_ms: u64, view: SnapshotView) -> (r: Snapshot)
    requires
        process@.wf(),
    ensures
        portrays(r, process@, taken_unix_ms, view),
{
    let ring = match view.resolution {
        Resolution::Fine => &process.fine,
        Resolution::Coarse => &process.coarse,
    };
    Snapshot {
        process: summary(process),
        taken_unix_ms,
        rate_window_ms: RATE_WINDOW_MS,
        resolution: view.resolution.as_str(),
        resolution_ms: ring.resolution_ns() / 1_000_000,
        resolution_capacity: ring.capacity() as u64,
        fine_window_ms: process.fine.resolution_ns() / 1_000_000,
        fine_window_capacity: process.fine.capacity() as u64,
        functions: functions(process),
        types: types(process),
        edges: edges(process),
        paths: paths(process),
        windows: windows(ring, view.limit),
    }
}

/// Everything known about one process, over the whole fine ring.
pub fn snapshot(process: &ProcessState, taken_unix_ms: u64) -> (r: Snapshot)
    requires
        process@.wf(),
    ensures
        portrays(
            r,
            process@,
            taken_unix_ms,
            SnapshotView { resolution: Resolution::Fine, limit: usize::MAX },
        ),
{
    snapshot_view(
        process,
        taken_unix_ms,
        SnapshotView { resolution: Resolution::Fine, limit: usize::MAX },
    )
}

/// What every function in `fs` adds up to.
pub open spec fn credited_to_all(
    fs: Seq<u32>,
    ids: Seq<u32>,
    paths: Map<u32, PathModel>,
    amount: spec_fn(u32) -> u64,
) -> nat
    decreases fs.len(),
{
    if fs.len() == 0 {
        0
    } else {
        credited_to_all(fs.drop_last(), ids, paths, amount) + credited(
            ids,
            paths,
            amount,
            fs.last(),
        )
    }
}

/// What every context in `ids` adds up to.
pub open spec fn in_all(ids: Seq<u32>, amount: spec_fn(u32) -> u64) -> nat
    decreases ids.len(),
{
    if ids.len() == 0 {
        0
    } else {
        in_all(ids.drop_last(), amount) + amount(ids.last()) as nat
    }
}

/// One more context is credited to one function of those listed.
proof fn lemma_credited_once(
    fs: Seq<u32>,
    ids: Seq<u32>,
    paths: Map<u32, PathModel>,
    amount: spec_fn(u32) -> u64,
)
    requires
        ids.len() > 0,
        paths.contains_key(ids.last()),
        forall|i: int, j: int| 0 <= i < j < fs.len() ==> #[trigger] fs[i] < #[trigger] fs[j],
    ensures
        credited_to_all(fs, ids, paths, amount) == credited_to_all(
            fs,
            ids.drop_last(),
            paths,
            amount,
        ) + if fs.contains(paths[ids.last()].func) {
            amount(ids.last()) as nat
        } else {
            0
        },
    decreases fs.len(),
{
    if fs.len() > 0 {
        let front = fs.drop_last();
        let f = paths[ids.last()].func;
        lemma_credited_once(front, ids, paths, amount);
        assert(fs.last() == fs[fs.len() - 1]);
        if front.contains(f) {
            let k = choose|k: int| 0 <= k < front.len() && front[k] == f;
            assert(fs[k] == f);
            assert(fs[k] < fs[fs.len() - 1]);
        } else if fs.contains(f) {
            let k = choose|k: int| 0 <= k < fs.len() && fs[k] == f;
            if k < front.len() {
                assert(front[k] == f);
            }
        }
    }
}

proof fn lemma_credited_to_all(
    fs: Seq<u32>,
    ids: Seq<u32>,
    paths: Map<u32, PathModel>,
    amount: spec_fn(u32) -> u64,
)
    requires
        forall|i: int, j: int| 0 <= i < j < fs.len() ==> #[trigger] fs[i] < #[trigger] fs[j],
        forall|i: int|
            0 <= i < ids.len() ==> paths.contains_key(#[trigger] ids[i]) && fs.contains(
                paths[ids[i]].func,
            ),
    ensures
        credited_to_all(fs, ids, paths, amount) == in_all(ids, amount),
    decreases ids.len(),
{
    if ids.len() > 0 {
        let front = ids.drop_last();
        assert(ids.last() == ids[ids.len() - 1]);
        assert forall|i: int| 0 <= i < front.len() implies paths.contains_key(#[trigger] front[i])
            && fs.contains(paths[front[i]].func) by {
            assert(front[i] == ids[i]);
        }
        lemma_credited_to_all(fs, front, paths, amount);
        lemma_credited_once(fs, ids, paths, amount);
    } else {
        lemma_credited_nothing(fs, ids, paths, amount);
    }
}

proof fn lemma_credited_nothing(
    fs: Seq<u32>,
    ids: Seq<u32>,
    paths: Map<u32, PathModel>,
    amount: spec_fn(u32) -> u64,
)
    requires
        ids.len() == 0,
    ensures
        credited_to_all(fs, ids, paths, amount) == 0,
    decreases fs.len(),
{
    if fs.len() > 0 {
        lemma_credited_nothing(fs.drop_last(), ids, paths, amount);
    }
}

/// Adding self time across every function counts nothing twice and leaves
/// nothing out: it comes to the self time of the whole call tree.
pub proof fn lemma_self_time_adds_up_across_functions(
    l: crate::store::Ledger,
    fs: Seq<u32>,
    ids: Seq<u32>,
)
    requires
        l.wf(),
        ordered::lists_u32(fs, l.functions.dom()),
        ordered::lists_u32(ids, l.paths.dom()),
    ensures
        credited_to_all(fs, ids, l.paths, |id: u32| l.paths[id].self_ns) == in_all(
            ids,
            |id: u32| l.paths[id].self_ns,
        ),
{
    assert forall|i: int| 0 <= i < ids.len() implies l.paths.contains_key(#[trigger] ids[i])
        && fs.contains(l.paths[ids[i]].func) by {
        assert(ids.contains(ids[i]));
        assert(l.paths.contains_key(ids[i]));
        assert(l.functions.dom().contains(l.paths[ids[i]].func));
    }
    lemma_credited_to_all(fs, ids, l.paths, |id: u32| l.paths[id].self_ns);
}

} // verus!
