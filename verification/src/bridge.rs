//! Turning successive hotpath reports into lightwatch frames.
//!
//! hotpath's counters are cumulative from process start. A window's activity is
//! the difference between two readings, so all the state the bridge keeps is
//! the last reading of every function id it has seen during one run of one
//! target process.
//!
//! Three properties of the source shape this, and each is handled here rather
//! than papered over at the edges:
//!
//! 1. The list of functions is truncated to a row limit, so a function that
//!    appeared once and is missing next time has not gone quiet. It fell off the
//!    list. Readings are therefore never evicted, and a missing id produces no
//!    event at all.
//! 2. Every number is a preformatted string. The total is the only one worth
//!    differencing, so the window's mean duration is the change in the total
//!    over the change in the calls, and that single value is what goes on the
//!    wire.
//! 3. The target restarts. [`Stream::same_run`] is the guard; the caller opens
//!    a new stream rather than differencing across two processes.
use std::collections::HashMap;

use vstd::prelude::*;
use vstd::string::*;

use crate::clock;
use crate::dist;
use crate::dist::Dist;
use crate::proto::{Event, Frame, FunctionId, Hello, Location, Register};
use crate::quantity;
use crate::text;

verus! {

broadcast use vstd::std_specs::hash::group_hash_axioms;

/// The name the bridge announces itself by.
pub const SOURCE: &'static str = "lightwatch-hotpath";

/// Where the bridge expects the daemon, unless told otherwise.
pub const DEFAULT_SOCKET: &'static str = "/tmp/lightwatch.sock";

/// Longest wait between retries while the target or the daemon is away, in
/// milliseconds.
pub const MAX_BACKOFF_MS: u64 = 5000;

/// Where a reported function was declared.
#[derive(Debug, Clone, PartialEq, Eq)]
pub struct EntryLocation {
    pub file: String,
    pub line: u32,
    pub column: u32,
}

/// One function of a report, as far as the bridge reads it.
#[derive(Debug, Clone, PartialEq, Eq)]
pub struct FunctionEntry {
    pub id: u32,
    pub name: String,
    pub calls: u64,
    /// The time spent in the function so far, as hotpath prints it.
    pub total: String,
    pub location: Option<EntryLocation>,
}

/// One report, as far as the bridge reads it.
#[derive(Debug, Clone, PartialEq, Eq)]
pub struct Report {
    pub total_elapsed_ns: u64,
    pub caller_name: String,
    pub data: Vec<FunctionEntry>,
}

/// A function of a report: its location is a file, a line and a column.
#[verifier::ext_equal]
pub ghost struct EntryModel {
    pub id: u32,
    pub name: Seq<char>,
    pub calls: u64,
    pub total: Seq<char>,
    pub location: Option<(Seq<char>, u32, u32)>,
}

/// A report.
#[verifier::ext_equal]
pub ghost struct ReportModel {
    pub total_elapsed_ns: u64,
    pub caller_name: Seq<char>,
    pub data: Seq<EntryModel>,
}

impl View for FunctionEntry {
    type V = EntryModel;

    open spec fn view(&self) -> EntryModel {
        EntryModel {
            id: self.id,
            name: self.name@,
            calls: self.calls,
            total: self.total@,
            location: match self.location {
                Some(l) => Some((l.file@, l.line, l.column)),
                None => None,
            },
        }
    }
}

impl View for Report {
    type V = ReportModel;

    open spec fn view(&self) -> ReportModel {
        ReportModel {
            total_elapsed_ns: self.total_elapsed_ns,
            caller_name: self.caller_name@,
            data: Seq::new(self.data@.len(), |i: int| self.data@[i]@),
        }
    }
}

/// The nanoseconds that hotpath reads a printed duration as.
pub uninterp spec fn printed_duration(s: Seq<char>) -> Option<u64>;

/// `hotpath::parse_duration` reads a printed duration such as `4.42 ms` back to
/// nanoseconds, and gives nothing for a text that is no duration. What it reads
/// depends on the text alone. Which number a text stands for is left unsaid: it
/// goes through floating point.
pub assume_specification[ hotpath::parse_duration ](s: &str) -> (r: Option<u64>)
    ensures
        r == printed_duration(s@),
;

/// The totals of a report in nanoseconds, where they read as durations.
pub open spec fn printed_totals(report: ReportModel) -> Seq<Option<u64>> {
    Seq::new(report.data.len(), |i: int| printed_duration(report.data[i].total))
}

/// The last cumulative reading for one function.
#[derive(Debug, Clone, Copy, PartialEq, Eq, Structural)]
pub struct Reading {
    pub calls: u64,
    pub total_ns: u64,
}

/// What a first sight of a function tells the daemon.
#[verifier::ext_equal]
pub ghost struct Named {
    pub id: u32,
    pub name: Seq<char>,
    pub module: Option<Seq<char>>,
    pub location: Option<(Seq<char>, u32, u32)>,
}

/// The calls of one function since its last reading, and the durations they are
/// given.
#[verifier::ext_equal]
pub ghost struct Moved {
    pub id: u32,
    pub count: u64,
    pub ns: Seq<(u16, u32)>,
}

/// What folding the rows of a report comes to.
#[verifier::ext_equal]
pub ghost struct Folded {
    pub readings: Map<u32, Reading>,
    pub named: Seq<Named>,
    pub moved: Seq<Moved>,
}

/// A function is named by its path below its crate, and its crate is its module.
pub open spec fn naming(e: EntryModel) -> Named {
    Named {
        id: e.id,
        name: match text::parted(e.name, ':') {
            Some(parts) => parts.1,
            None => e.name,
        },
        module: match text::parted(e.name, ':') {
            Some(parts) => Some(parts.0),
            None => None,
        },
        location: e.location,
    }
}

/// The window's durations, as much as the source knows about them: every call
/// at the mean, and none at all where the total did not move.
pub open spec fn mean_durations(delta_total_ns: u64, count: u64) -> Seq<(u16, u32)> {
    if delta_total_ns == 0 {
        Seq::empty()
    } else {
        seq![(dist::bucket_index(delta_total_ns / count), dist::clamp32(count as nat))]
    }
}

/// The reading a row holds.
pub open spec fn reading(e: EntryModel, total: Option<u64>) -> Reading {
    Reading { calls: e.calls, total_ns: total.unwrap_or(0) }
}

/// How far a total has risen.
pub open spec fn rise(before: u64, after: u64) -> u64 {
    if after >= before {
        (after - before) as u64
    } else {
        0
    }
}

impl Folded {
    /// One more row: an id seen for the first time is named, and one whose calls
    /// have risen is reported, unless the run has only begun.
    pub open spec fn row(self, priming: bool, e: EntryModel, total: Option<u64>) -> Folded {
        let now = reading(e, total);
        let readings = self.readings.insert(e.id, now);
        if !self.readings.contains_key(e.id) {
            Folded { readings, named: self.named.push(naming(e)), moved: self.moved }
        } else {
            let before = self.readings[e.id];
            if priming || e.calls <= before.calls {
                Folded { readings, named: self.named, moved: self.moved }
            } else {
                let count = (e.calls - before.calls) as u64;
                Folded {
                    readings,
                    named: self.named,
                    moved: self.moved.push(
                        Moved {
                            id: e.id,
                            count,
                            ns: mean_durations(rise(before.total_ns, now.total_ns), count),
                        },
                    ),
                }
            }
        }
    }
}

/// Every row of a report folded in, from the readings before it. A report that
/// finds none is the first of a run.
pub open spec fn folding(
    start: Map<u32, Reading>,
    data: Seq<EntryModel>,
    totals: Seq<Option<u64>>,
) -> Folded
    decreases data.len(),
{
    if data.len() == 0 {
        Folded { readings: start, named: Seq::empty(), moved: Seq::empty() }
    } else {
        folding(start, data.drop_last(), totals).row(
            start =~= Map::empty(),
            data.last(),
            totals[data.len() - 1],
        )
    }
}

/// The bridge's view of one run of one target process.
///
/// Dropped and rebuilt when the target restarts, which is also what makes it
/// safe to pass hotpath's own function ids straight through as
/// [`FunctionId`]s. They are unique within a run and never reused, the
/// protocol asks for nothing more, and an id that matches hotpath's own report
/// makes a disagreement between the two diagnosable.
#[derive(Debug)]
pub struct Stream {
    pid: u32,
    seq: u64,
    elapsed_ns: u64,
    readings: HashMap<u32, Reading>,
}

/// What a stream knows of the run it describes.
#[verifier::ext_equal]
pub ghost struct StreamModel {
    pub pid: u32,
    pub seq: u64,
    pub elapsed_ns: u64,
    pub readings: Map<u32, Reading>,
}

impl View for Stream {
    type V = StreamModel;

    closed spec fn view(&self) -> StreamModel {
        StreamModel {
            pid: self.pid,
            seq: self.seq,
            elapsed_ns: self.elapsed_ns,
            readings: self.readings@,
        }
    }
}

impl StreamModel {
    /// A run that nothing has been heard of.
    pub open spec fn starting(pid: u32) -> StreamModel {
        StreamModel { pid, seq: 0, elapsed_ns: 0, readings: Map::empty() }
    }

    /// The stream after a report.
    pub open spec fn absorbing(self, report: ReportModel, totals: Seq<Option<u64>>) -> StreamModel {
        StreamModel {
            pid: self.pid,
            seq: quantity::capped(self.seq, 1),
            elapsed_ns: report.total_elapsed_ns,
            readings: folding(self.readings, report.data, totals).readings,
        }
    }

    /// The frame is the one a report implies.
    pub open spec fn implies_frame(
        self,
        report: ReportModel,
        totals: Seq<Option<u64>>,
        f: Frame,
    ) -> bool {
        let folded = folding(self.readings, report.data, totals);
        &&& f.seq == self.seq
        &&& f.t_ns == report.total_elapsed_ns
        &&& names_all(f.registers@, folded.named)
        &&& reports_all(f.events@, folded.moved)
    }
}

/// The registration says what a first sight of a function does.
pub open spec fn names(r: Register, n: Named) -> bool {
    r matches Register::Function { id, name, module, location } && id.0 == n.id && name@ == n.name
        && text::text_of(module) == n.module && match location {
        Some(l) => n.location is Some && l.column is Some && n.location == Some(
            (l.file@, l.line, l.column.unwrap()),
        ),
        None => n.location is None,
    }
}

/// The registrations name those functions, in that order.
pub open spec fn names_all(rs: Seq<Register>, ns: Seq<Named>) -> bool {
    &&& rs.len() == ns.len()
    &&& forall|i: int| 0 <= i < rs.len() ==> names(#[trigger] rs[i], ns[i])
}

/// The event reports those calls.
pub open spec fn reports(e: Event, m: Moved) -> bool {
    e matches Event::Calls { func, count, ns } && func.0 == m.id && count == m.count && (
    ns matches Dist::Buckets { b } && b@ == m.ns)
}

/// The events report those calls, in that order.
pub open spec fn reports_all(es: Seq<Event>, ms: Seq<Moved>) -> bool {
    &&& es.len() == ms.len()
    &&& forall|i: int| 0 <= i < es.len() ==> reports(#[trigger] es[i], ms[i])
}

/// The window's durations, as much as the source knows about them.
///
/// A window short enough that the total did not move in its fourth significant
/// figure gives an empty distribution. That says the calls happened and their
/// duration is below what the source reports, which is true. Bucketing the
/// zero instead would claim they took no time.
fn window_duration(delta_total_ns: u64, count: u64) -> (r: Dist)
    requires
        count > 0,
    ensures
        r matches Dist::Buckets { b } && b@ == mean_durations(delta_total_ns, count),
{
    if delta_total_ns == 0 {
        return Dist::empty();
    }
    let mean_ns: u64 = delta_total_ns / count;
    let weight: u32 = if count > u32::MAX as u64 {
        u32::MAX
    } else {
        count as u32
    };
    let mut b: Vec<(u16, u32)> = Vec::new();
    b.push((dist::bucket_of(mean_ns), weight));
    proof {
        assert(b@ =~= mean_durations(delta_total_ns, count));
    }
    Dist::Buckets { b }
}

fn register_for(entry: &FunctionEntry) -> (r: Register)
    ensures
        names(r, naming(entry@)),
{
    let (module, name) = match text::part_at_pair(entry.name.as_str(), ':') {
        Some((crate_name, rest)) => (Some(crate_name.to_owned()), rest.to_owned()),
        None => (None, entry.name.clone()),
    };
    let location = match &entry.location {
        Some(l) => Some(Location { file: l.file.clone(), line: l.line, column: Some(l.column) }),
        None => None,
    };
    Register::Function { id: FunctionId(entry.id), name, module, location }
}

impl Stream {
    pub fn new(pid: u32) -> (r: Self)
        ensures
            r@ == StreamModel::starting(pid),
    {
        Stream { pid, seq: 0, elapsed_ns: 0, readings: HashMap::new() }
    }

    /// Whether a fresh reading continues the run this stream describes. A
    /// changed pid or an elapsed time that moved backwards both mean the
    /// process was replaced, and differencing across that boundary would
    /// report a new process's whole lifetime as one window.
    pub fn same_run(&self, pid: u32, elapsed_ns: u64) -> (r: bool)
        ensures
            r == (self@.pid == pid && elapsed_ns >= self@.elapsed_ns),
    {
        self.pid == pid && elapsed_ns >= self.elapsed_ns
    }

    /// Folds one report into the stream and returns the frame it implies.
    ///
    /// The first report of a run yields registrations and no events. Its
    /// counters cover everything the process did before the bridge attached,
    /// and charging that to a single window would misreport the rate the
    /// interface sorts by. It is the same fabricated delta a truncated row
    /// would produce, arriving by a different route.
    pub fn absorb(&mut self, report: &Report) -> (r: Frame)
        ensures
            final(self)@ == old(self)@.absorbing(report@, printed_totals(report@)),
            old(self)@.implies_frame(report@, printed_totals(report@), r),
    {
        let mut totals: Vec<Option<u64>> = Vec::new();
        for n in 0..report.data.len()
            invariant
                totals@ == printed_totals(report@).take(n as int),
        {
            totals.push(hotpath::parse_duration(report.data[n].total.as_str()));
            proof {
                assert(totals@ =~= printed_totals(report@).take(n + 1));
            }
        }
        proof {
            assert(totals@ =~= printed_totals(report@));
        }
        self.absorb_measured(report, &totals)
    }

    /// Folds in a report whose totals have been read already: one reading per
    /// row, and nothing for a total that did not read as a duration, which then
    /// counts as none.
    pub fn absorb_measured(&mut self, report: &Report, totals: &Vec<Option<u64>>) -> (r: Frame)
        requires
            totals@.len() == report.data@.len(),
        ensures
            final(self)@ == old(self)@.absorbing(report@, totals@),
            old(self)@.implies_frame(report@, totals@, r),
    {
        let ghost start = self.readings@;
        let ghost data = report@.data;
        let priming = self.readings.is_empty();
        let mut registers: Vec<Register> = Vec::new();
        let mut events: Vec<Event> = Vec::new();
        proof {
            assert(data.take(0) =~= Seq::<EntryModel>::empty());
            assert(priming == (start =~= Map::empty()));
        }
        for n in 0..report.data.len()
            invariant
                totals@.len() == report.data@.len(),
                data == report@.data,
                priming == (start =~= Map::empty()),
                self.pid == old(self).pid,
                self.seq == old(self).seq,
                self.readings@ == folding(start, data.take(n as int), totals@).readings,
                names_all(registers@, folding(start, data.take(n as int), totals@).named),
                reports_all(events@, folding(start, data.take(n as int), totals@).moved),
        {
            let entry = &report.data[n];
            let ghost so_far = folding(start, data.take(n as int), totals@);
            proof {
                assert(data.take(n + 1).drop_last() =~= data.take(n as int));
                assert(data.take(n + 1).last() == entry@);
                assert(folding(start, data.take(n + 1), totals@) == so_far.row(
                    priming,
                    entry@,
                    totals@[n as int],
                ));
            }
            let now = Reading {
                calls: entry.calls,
                total_ns: match totals[n] {
                    Some(ns) => ns,
                    None => 0,
                },
            };
            let previous: Option<Reading> = match self.readings.get(&entry.id) {
                Some(seen) => Some(*seen),
                None => None,
            };
            self.readings.insert(entry.id, now);
            match previous {
                None => {
                    registers.push(register_for(entry));
                },
                Some(before) => {
                    if !priming && entry.calls > before.calls {
                        let count: u64 = entry.calls - before.calls;
                        let risen: u64 = if now.total_ns >= before.total_ns {
                            now.total_ns - before.total_ns
                        } else {
                            0
                        };
                        events.push(
                            Event::Calls {
                                func: FunctionId(entry.id),
                                count,
                                ns: window_duration(risen, count),
                            },
                        );
                    }
                },
            }
        }
        proof {
            assert(data.take(data.len() as int) =~= data);
        }
        self.elapsed_ns = report.total_elapsed_ns;
        let frame = Frame { seq: self.seq, t_ns: report.total_elapsed_ns, registers, events };
        self.seq = self.seq.saturating_add(1);
        frame
    }
}

/// What comes before the first `::`, or all of it.
pub open spec fn crate_of(caller_name: Seq<char>) -> Seq<char> {
    match text::parted(caller_name, ':') {
        Some(parts) => parts.0,
        None => caller_name,
    }
}

/// What to call the target in the interface. hotpath reports the instrumented
/// entry point, so `lightphotos::main` names the application.
pub fn app_name<'a>(caller_name: &'a str) -> (r: &'a str)
    ensures
        r@ == crate_of(caller_name@),
{
    match text::part_at_pair(caller_name, ':') {
        Some((crate_name, _)) => crate_name,
        None => caller_name,
    }
}

/// When a target started, by what it says has elapsed since.
pub open spec fn started_at(now_ms: u64, elapsed_ns: u64) -> u64 {
    if now_ms >= elapsed_ns / 1_000_000 {
        (now_ms - elapsed_ns / 1_000_000) as u64
    } else {
        0
    }
}

/// hotpath reports elapsed time since its own start, which is close enough to
/// process start to tell a recycled pid from a reused one.
pub fn process_start_unix_ms(elapsed_ns: u64) -> (r: u64)
    ensures
        exists|now_ms: u64| r == #[trigger] started_at(now_ms, elapsed_ns),
{
    let now_ms: u64 = clock::now_unix_ms();
    process_start_at(now_ms, elapsed_ns)
}

/// As [`process_start_unix_ms`], by a clock that reads `now_ms`.
pub fn process_start_at(now_ms: u64, elapsed_ns: u64) -> (r: u64)
    ensures
        r == started_at(now_ms, elapsed_ns),
{
    let elapsed_ms: u64 = elapsed_ns / 1_000_000;
    if now_ms >= elapsed_ms {
        now_ms - elapsed_ms
    } else {
        0
    }
}

/// What a fresh reading means for the stream that is open.
#[derive(Debug, Clone, Copy, PartialEq, Eq, Structural)]
pub enum Link {
    /// It continues the stream.
    Continues,
    /// The target was replaced, and the stream with it.
    Restarted,
    /// There is no stream yet.
    Unopened,
}

/// What a reading of `pid` at `elapsed_ns` means for the stream that is open.
pub fn link(stream: &Option<Stream>, pid: u32, elapsed_ns: u64) -> (r: Link)
    ensures
        r == match stream {
            Some(open) => if open@.pid == pid && elapsed_ns >= open@.elapsed_ns {
                Link::Continues
            } else {
                Link::Restarted
            },
            None => Link::Unopened,
        },
{
    match stream {
        Some(open) => {
            if open.same_run(pid, elapsed_ns) {
                Link::Continues
            } else {
                Link::Restarted
            }
        },
        None => Link::Unopened,
    }
}

/// How the bridge announces the target that `report` describes.
pub fn greeting(report: &Report, pid: u32, window_ms: u32, started_unix_ms: u64) -> (r: Hello)
    ensures
        r.schema == crate::proto::SCHEMA_VERSION,
        r.app@ == crate_of(report@.caller_name),
        r.pid == pid,
        r.started_unix_ms == started_unix_ms,
        r.window_ms == window_ms,
        r.source@ == SOURCE@,
{
    let mut hello = Hello::new(
        app_name(report.caller_name.as_str()),
        SOURCE,
        pid,
        started_unix_ms,
    );
    hello.window_ms = window_ms;
    hello
}

/// The wait after one that did not help: twice as long, up to a limit.
pub fn next_backoff(backoff_ms: u64) -> (r: u64)
    ensures
        r == if backoff_ms * 2 < MAX_BACKOFF_MS {
            (backoff_ms * 2) as u64
        } else {
            MAX_BACKOFF_MS
        },
{
    if backoff_ms < MAX_BACKOFF_MS / 2 {
        backoff_ms * 2
    } else {
        MAX_BACKOFF_MS
    }
}

/// Keeps a target that is down for an hour from writing a line every window.
#[derive(Debug)]
pub struct Log {
    complaint: Option<String>,
}

impl View for Log {
    type V = Option<Seq<char>>;

    closed spec fn view(&self) -> Option<Seq<char>> {
        text::text_of(self.complaint)
    }
}

impl Log {
    pub fn new() -> (r: Self)
        ensures
            r@ is None,
    {
        Log { complaint: None }
    }

    /// Whether this trouble is worth a line: it is unless it was the last one
    /// heard of.
    pub fn trouble(&mut self, message: &str) -> (r: bool)
        ensures
            final(self)@ == Some(message@),
            r == (old(self)@ != Some(message@)),
    {
        let known = match &self.complaint {
            Some(last) => text::same(last.as_str(), message),
            None => false,
        };
        if !known {
            self.complaint = Some(message.to_owned());
        }
        !known
    }

    /// Whether a recovery is worth a line: it is where there was trouble.
    pub fn recovered(&mut self) -> (r: bool)
        ensures
            final(self)@ is None,
            r == (old(self)@ is Some),
    {
        let was = self.complaint.is_some();
        self.complaint = None;
        was
    }
}

/// An id is among those named.
pub open spec fn names_id(ns: Seq<Named>, id: u32) -> bool {
    exists|i: int| 0 <= i < ns.len() && (#[trigger] ns[i]).id == id
}

/// No event ever names a function that was not registered first, in an earlier
/// frame or this one, and no function is registered twice: what a stream has
/// readings of is what it has registered.
pub proof fn lemma_functions_are_registered_once_and_first(
    start: Map<u32, Reading>,
    data: Seq<EntryModel>,
    totals: Seq<Option<u64>>,
)
    ensures
        ({
            let f = folding(start, data, totals);
            &&& forall|i: int|
                0 <= i < f.moved.len() ==> start.contains_key((#[trigger] f.moved[i]).id)
                    || names_id(f.named, f.moved[i].id)
            &&& forall|i: int|
                0 <= i < f.named.len() ==> !start.contains_key((#[trigger] f.named[i]).id)
            &&& forall|i: int, j: int|
                0 <= i < j < f.named.len() ==> (#[trigger] f.named[i]).id != (
                #[trigger] f.named[j]).id
            &&& forall|id: u32| #[trigger]
                f.readings.contains_key(id) == (start.contains_key(id) || names_id(f.named, id))
        }),
    decreases data.len(),
{
    if data.len() > 0 {
        let before = folding(start, data.drop_last(), totals);
        let f = folding(start, data, totals);
        let e = data.last();
        lemma_functions_are_registered_once_and_first(start, data.drop_last(), totals);
        assert forall|id: u32| names_id(before.named, id) implies names_id(f.named, id) by {
            let i = choose|i: int| 0 <= i < before.named.len() && (#[trigger] before.named[i]).id == id;
            assert(f.named[i].id == id);
        }
        if before.readings.contains_key(e.id) {
            assert(f.named == before.named);
            assert forall|i: int| 0 <= i < f.moved.len() implies start.contains_key(
                (#[trigger] f.moved[i]).id,
            ) || names_id(f.named, f.moved[i].id) by {
                if i < before.moved.len() {
                    assert(f.moved[i] == before.moved[i]);
                }
            }
        } else {
            assert(f.named == before.named.push(naming(e)));
            assert(f.named[before.named.len() as int].id == e.id);
            assert(names_id(f.named, e.id));
            assert forall|i: int, j: int| 0 <= i < j < f.named.len() implies (
            #[trigger] f.named[i]).id != (#[trigger] f.named[j]).id by {
                if j == before.named.len() {
                    assert(f.named[i] == before.named[i]);
                    assert(names_id(before.named, before.named[i].id));
                }
            }
            assert forall|id: u32| #[trigger] f.readings.contains_key(id) == (
            start.contains_key(id) || names_id(f.named, id)) by {
                assert(before.readings.contains_key(id) == (start.contains_key(id) || names_id(
                    before.named,
                    id,
                )));
                if names_id(f.named, id) {
                    let i = choose|i: int| 0 <= i < f.named.len() && (#[trigger] f.named[i]).id == id;
                    if i < before.named.len() {
                        assert(before.named[i].id == id);
                    }
                }
            }
        }
    }
}

/// The calls reported of one function.
pub open spec fn counted(ms: Seq<Moved>, id: u32) -> nat
    decreases ms.len(),
{
    if ms.len() == 0 {
        0
    } else {
        counted(ms.drop_last(), id) + if ms.last().id == id {
            ms.last().count as nat
        } else {
            0
        }
    }
}

/// The report does not list the function.
pub open spec fn omits(data: Seq<EntryModel>, id: u32) -> bool {
    forall|i: int| 0 <= i < data.len() ==> (#[trigger] data[i]).id != id
}

/// A function truncated out of a report is not reported as idle or as new: it
/// produces no event of any size, and its reading waits for its return.
pub proof fn lemma_a_missing_row_says_nothing(
    start: Map<u32, Reading>,
    data: Seq<EntryModel>,
    totals: Seq<Option<u64>>,
    id: u32,
)
    requires
        omits(data, id),
    ensures
        ({
            let f = folding(start, data, totals);
            &&& !names_id(f.named, id)
            &&& forall|i: int| 0 <= i < f.moved.len() ==> (#[trigger] f.moved[i]).id != id
            &&& f.readings.contains_key(id) == start.contains_key(id)
            &&& start.contains_key(id) ==> f.readings[id] == start[id]
        }),
    decreases data.len(),
{
    if data.len() > 0 {
        assert forall|i: int| 0 <= i < data.drop_last().len() implies (
        #[trigger] data.drop_last()[i]).id != id by {
            assert(data[i].id != id);
        }
        lemma_a_missing_row_says_nothing(start, data.drop_last(), totals, id);
        let before = folding(start, data.drop_last(), totals);
        let f = folding(start, data, totals);
        assert(data.last() == data[data.len() - 1]);
        assert forall|i: int| 0 <= i < f.named.len() implies (#[trigger] f.named[i]).id != id by {
            if i < before.named.len() {
                assert(f.named[i] == before.named[i]);
            }
        }
        assert forall|i: int| 0 <= i < f.moved.len() implies (#[trigger] f.moved[i]).id != id by {
            if i < before.moved.len() {
                assert(f.moved[i] == before.moved[i]);
            }
        }
    }
}

/// Readings are never evicted.
pub proof fn lemma_readings_are_kept(
    start: Map<u32, Reading>,
    data: Seq<EntryModel>,
    totals: Seq<Option<u64>>,
)
    ensures
        start.dom().subset_of(folding(start, data, totals).readings.dom()),
    decreases data.len(),
{
    if data.len() > 0 {
        lemma_readings_are_kept(start, data.drop_last(), totals);
    }
}

/// The first report of a run registers every function it lists and charges none
/// of them anything, however large its counters are.
pub proof fn lemma_a_first_report_charges_nothing(
    pid: u32,
    report: ReportModel,
    totals: Seq<Option<u64>>,
)
    ensures
        ({
            let f = folding(StreamModel::starting(pid).readings, report.data, totals);
            &&& f.moved.len() == 0
            &&& forall|i: int|
                0 <= i < report.data.len() ==> names_id(f.named, (#[trigger] report.data[i]).id)
        }),
{
    lemma_priming_charges_nothing(report.data, totals);
}

proof fn lemma_priming_charges_nothing(data: Seq<EntryModel>, totals: Seq<Option<u64>>)
    ensures
        ({
            let f = folding(Map::empty(), data, totals);
            &&& f.moved.len() == 0
            &&& forall|i: int|
                0 <= i < data.len() ==> names_id(f.named, (#[trigger] data[i]).id)
        }),
    decreases data.len(),
{
    if data.len() > 0 {
        let before = folding(Map::empty(), data.drop_last(), totals);
        let f = folding(Map::empty(), data, totals);
        lemma_priming_charges_nothing(data.drop_last(), totals);
        lemma_functions_are_registered_once_and_first(Map::empty(), data, totals);
        assert forall|i: int| 0 <= i < data.len() implies names_id(
            f.named,
            (#[trigger] data[i]).id,
        ) by {
            if i < data.len() - 1 {
                assert(data.drop_last()[i] == data[i]);
                let k = choose|k: int|
                    0 <= k < before.named.len() && (#[trigger] before.named[k]).id == data[i].id;
                assert(f.named[k].id == data[i].id);
            } else {
                assert(f.readings.contains_key(data[i].id));
            }
        }
    }
}

/// Whenever the report lists the function, its calls have not fallen.
pub open spec fn steady(
    start: Map<u32, Reading>,
    data: Seq<EntryModel>,
    totals: Seq<Option<u64>>,
    id: u32,
) -> bool
    decreases data.len(),
{
    data.len() > 0 ==> {
        &&& steady(start, data.drop_last(), totals, id)
        &&& data.last().id == id ==> data.last().calls >= folding(
            start,
            data.drop_last(),
            totals,
        ).readings[id].calls
    }
}

proof fn lemma_one_window_is_a_difference(
    start: Map<u32, Reading>,
    data: Seq<EntryModel>,
    totals: Seq<Option<u64>>,
    id: u32,
)
    requires
        start.contains_key(id),
        steady(start, data, totals, id),
    ensures
        ({
            let f = folding(start, data, totals);
            &&& f.readings.contains_key(id)
            &&& f.readings[id].calls == start[id].calls + counted(f.moved, id)
        }),
    decreases data.len(),
{
    assert(!(start =~= Map::empty()));
    if data.len() > 0 {
        lemma_one_window_is_a_difference(start, data.drop_last(), totals, id);
        let before = folding(start, data.drop_last(), totals);
        let f = folding(start, data, totals);
        if f.moved.len() > before.moved.len() {
            assert(f.moved.drop_last() =~= before.moved);
        } else {
            assert(f.moved == before.moved);
        }
    }
}

/// The calls of one function over several reports, as the frames tell them.
pub open spec fn calls_told(
    s: StreamModel,
    reports: Seq<(ReportModel, Seq<Option<u64>>)>,
    id: u32,
) -> nat
    decreases reports.len(),
{
    if reports.len() == 0 {
        0
    } else {
        let before = after_all(s, reports.drop_last());
        calls_told(s, reports.drop_last(), id) + counted(
            folding(before.readings, reports.last().0.data, reports.last().1).moved,
            id,
        )
    }
}

/// The stream after several reports.
pub open spec fn after_all(
    s: StreamModel,
    reports: Seq<(ReportModel, Seq<Option<u64>>)>,
) -> StreamModel
    decreases reports.len(),
{
    if reports.len() == 0 {
        s
    } else {
        after_all(s, reports.drop_last()).absorbing(reports.last().0, reports.last().1)
    }
}

/// The function's counter never falls over those reports.
pub open spec fn steady_over(
    s: StreamModel,
    reports: Seq<(ReportModel, Seq<Option<u64>>)>,
    id: u32,
) -> bool
    decreases reports.len(),
{
    reports.len() > 0 ==> {
        &&& steady_over(s, reports.drop_last(), id)
        &&& steady(
            after_all(s, reports.drop_last()).readings,
            reports.last().0.data,
            reports.last().1,
            id,
        )
    }
}

/// However many reports a function falls off of in between, the windows
/// together tell every call between its first reading and its last, and none
/// besides.
pub proof fn lemma_windows_add_up_to_the_difference(
    s: StreamModel,
    reports: Seq<(ReportModel, Seq<Option<u64>>)>,
    id: u32,
)
    requires
        s.readings.contains_key(id),
        steady_over(s, reports, id),
    ensures
        after_all(s, reports).readings.contains_key(id),
        after_all(s, reports).readings[id].calls == s.readings[id].calls + calls_told(
            s,
            reports,
            id,
        ),
    decreases reports.len(),
{
    if reports.len() > 0 {
        lemma_windows_add_up_to_the_difference(s, reports.drop_last(), id);
        lemma_one_window_is_a_difference(
            after_all(s, reports.drop_last()).readings,
            reports.last().0.data,
            reports.last().1,
            id,
        );
    }
}

/// A window's distribution covers every call it reports, up to what a weight
/// can carry, or says nothing of how long they took.
pub proof fn lemma_a_distribution_covers_its_calls(delta_total_ns: u64, count: u64)
    requires
        count > 0,
    ensures
        delta_total_ns == 0 ==> mean_durations(delta_total_ns, count).len() == 0,
        delta_total_ns > 0 ==> dist::total(mean_durations(delta_total_ns, count)) == dist::clamp32(
            count as nat,
        ),
{
    if delta_total_ns > 0 {
        let s = mean_durations(delta_total_ns, count);
        assert(s.drop_last() =~= Seq::<(u16, u32)>::empty());
        assert(dist::total(s.drop_last()) == 0);
    }
}

/// The readings are those the rows hold.
spec fn settled(readings: Map<u32, Reading>, data: Seq<EntryModel>, n: int) -> bool {
    forall|i: int|
        0 <= i < n ==> readings.contains_key((#[trigger] data[i]).id) && readings[data[i].id].calls
            == data[i].calls
}

proof fn lemma_a_report_settles(
    start: Map<u32, Reading>,
    data: Seq<EntryModel>,
    totals: Seq<Option<u64>>,
)
    requires
        forall|i: int, j: int|
            0 <= i < j < data.len() ==> (#[trigger] data[i]).id != (#[trigger] data[j]).id,
    ensures
        settled(folding(start, data, totals).readings, data, data.len() as int),
    decreases data.len(),
{
    if data.len() > 0 {
        let (rows, f) = (data.drop_last(), folding(start, data, totals));
        assert forall|i: int, j: int| 0 <= i < j < rows.len() implies (#[trigger] rows[i]).id != (
        #[trigger] rows[j]).id by {
            assert(data[i].id != data[j].id);
        }
        lemma_a_report_settles(start, rows, totals);
        assert forall|i: int| 0 <= i < data.len() implies f.readings.contains_key(
            (#[trigger] data[i]).id,
        ) && f.readings[data[i].id].calls == data[i].calls by {
            if i < rows.len() {
                assert(rows[i] == data[i]);
                assert(data[i].id != data[data.len() - 1].id);
            }
        }
    }
}

proof fn lemma_settled_rows_do_not_move(
    start: Map<u32, Reading>,
    data: Seq<EntryModel>,
    totals: Seq<Option<u64>>,
)
    requires
        forall|i: int, j: int|
            0 <= i < j < data.len() ==> (#[trigger] data[i]).id != (#[trigger] data[j]).id,
        settled(start, data, data.len() as int),
    ensures
        folding(start, data, totals).moved.len() == 0,
        folding(start, data, totals).named.len() == 0,
        forall|id: u32| #[trigger]
            folding(start, data, totals).readings.contains_key(id) == start.contains_key(id),
        forall|id: u32|
            omits(data, id) && start.contains_key(id) ==> (#[trigger] folding(
                start,
                data,
                totals,
            ).readings[id]) == start[id],
    decreases data.len(),
{
    if data.len() > 0 {
        let rows = data.drop_last();
        assert forall|i: int, j: int| 0 <= i < j < rows.len() implies (#[trigger] rows[i]).id != (
        #[trigger] rows[j]).id by {
            assert(data[i].id != data[j].id);
        }
        assert(settled(start, rows, rows.len() as int)) by {
            assert forall|i: int| 0 <= i < rows.len() implies start.contains_key(
                (#[trigger] rows[i]).id,
            ) && start[rows[i].id].calls == rows[i].calls by {
                assert(data[i] == rows[i]);
            }
        }
        lemma_settled_rows_do_not_move(start, rows, totals);
        let e = data.last();
        let before = folding(start, rows, totals);
        assert(e == data[data.len() - 1]);
        assert(omits(rows, e.id)) by {
            assert forall|i: int| 0 <= i < rows.len() implies (#[trigger] rows[i]).id != e.id by {
                assert(data[i].id != data[data.len() - 1].id);
            }
        }
        assert(before.readings[e.id] == start[e.id]);
        assert forall|id: u32| omits(data, id) && start.contains_key(id) implies (
        #[trigger] folding(start, data, totals).readings[id]) == start[id] by {
            assert(omits(rows, id)) by {
                assert forall|i: int| 0 <= i < rows.len() implies (#[trigger] rows[i]).id != id by {
                    assert(data[i].id != id);
                }
            }
            assert(before.readings[id] == start[id]);
            assert(data[data.len() - 1].id != id);
        }
    }
}

/// A report heard twice tells nothing the second time.
pub proof fn lemma_an_unmoved_report_tells_nothing(
    start: Map<u32, Reading>,
    data: Seq<EntryModel>,
    totals: Seq<Option<u64>>,
)
    requires
        forall|i: int, j: int|
            0 <= i < j < data.len() ==> (#[trigger] data[i]).id != (#[trigger] data[j]).id,
    ensures
        ({
            let again = folding(folding(start, data, totals).readings, data, totals);
            again.moved.len() == 0 && again.named.len() == 0
        }),
{
    lemma_a_report_settles(start, data, totals);
    lemma_settled_rows_do_not_move(folding(start, data, totals).readings, data, totals);
}

} // verus!
