//! One running program, seen through however many emitters are pointed at it.
//!
//! A target instrumented for both halves is two streams as far as
//! [`crate::store`] is concerned, and has to stay that way: each emitter counts
//! `seq` from its own zero, and interleaving the two into one ring is what the
//! store's missed-frame accounting cannot survive.
//!
//! So nothing here is stored. [`pair_sessions`] is a pure fold over the
//! registry, recomputed per request, and the registry stays the only thing
//! that remembers anything.
use vstd::multiset::Multiset;
use vstd::prelude::*;
use vstd::string::*;

use crate::registry::Registry;
use crate::sorting;
use crate::sorting::Order;
use crate::store::{ProcessId, ProcessModel, ProcessState};
use crate::text;

verus! {

/// The emitter that counts live objects. Every other source is a timing feed:
/// a census can only be taken from inside the target's address space, so a
/// bridge over an external profiler never produces one.
pub const CENSUS_SOURCE: &'static str = "lightwatch-probe";

/// How far apart two emitters' idea of one process's start may be before they
/// are taken to be describing two different runs of a recycled pid.
///
/// The probe reads the clock as it starts; the bridge estimates its target's
/// start from a poll. They never agree exactly, and the bridge's estimate moves
/// by a few milliseconds between its own runs, so an exact match would pair
/// nothing at all.
pub const SAME_RUN_TOLERANCE_MS: u64 = 10_000;

/// Which half of the picture a process entry supplies.
#[derive(Debug, Clone, Copy, PartialEq, Eq, PartialOrd, Ord, Structural)]
pub enum Feed {
    /// Per-function calls and durations.
    Cpu,
    /// Per-type live counts and bytes.
    Memory,
}

/// The feed a source supplies.
pub open spec fn feed_of(source: Seq<char>) -> Feed {
    if source == CENSUS_SOURCE@ {
        Feed::Memory
    } else {
        Feed::Cpu
    }
}

impl Feed {
    pub fn of(source: &str) -> (r: Feed)
        ensures
            r == feed_of(source@),
    {
        if text::same(source, CENSUS_SOURCE) {
            Feed::Memory
        } else {
            Feed::Cpu
        }
    }

    pub fn as_str(self) -> (r: &'static str)
        ensures
            r@ == match self {
                Feed::Cpu => "cpu"@,
                Feed::Memory => "memory"@,
            },
    {
        match self {
            Feed::Cpu => "cpu",
            Feed::Memory => "memory",
        }
    }
}

/// One process entry, as a session sees it.
#[derive(Debug, PartialEq, Eq)]
pub struct Member {
    pub process_id: ProcessId,
    pub feed: Feed,
    pub source: String,
    pub started_unix_ms: u64,
    pub ended_unix_ms: Option<u64>,
    pub connected: bool,
    pub last_frame_unix_ms: Option<u64>,
}

/// What a [`Member`] says.
#[verifier::ext_equal]
pub struct MemberModel {
    pub process_id: Seq<char>,
    pub feed: Feed,
    pub source: Seq<char>,
    pub started_unix_ms: u64,
    pub ended_unix_ms: Option<u64>,
    pub connected: bool,
    pub last_frame_unix_ms: Option<u64>,
}

impl View for Member {
    type V = MemberModel;

    open spec fn view(&self) -> MemberModel {
        MemberModel {
            process_id: self.process_id@,
            feed: self.feed,
            source: self.source@,
            started_unix_ms: self.started_unix_ms,
            ended_unix_ms: self.ended_unix_ms,
            connected: self.connected,
            last_frame_unix_ms: self.last_frame_unix_ms,
        }
    }
}

impl Clone for Member {
    fn clone(&self) -> (r: Self)
        ensures
            r@ == self@,
    {
        Member {
            process_id: self.process_id.clone(),
            feed: self.feed,
            source: self.source.clone(),
            started_unix_ms: self.started_unix_ms,
            ended_unix_ms: self.ended_unix_ms,
            connected: self.connected,
            last_frame_unix_ms: self.last_frame_unix_ms,
        }
    }
}

/// What an entry says, where there is one.
pub open spec fn entry(m: Option<Member>) -> Option<MemberModel> {
    match m {
        Some(m) => Some(m@),
        None => None,
    }
}

/// What a list of entries says.
pub open spec fn entries(ms: Seq<Member>) -> Seq<MemberModel> {
    ms.map_values(|m: Member| m@)
}

/// One run of one program, with the emitters watching it.
#[derive(Debug, PartialEq, Eq)]
pub struct Session {
    pub id: String,
    pub app: String,
    pub pid: u32,
    pub cpu: Option<Member>,
    pub memory: Option<Member>,
    /// Entries that matched this session but lost to a better one of their own
    /// feed. Restarting a bridge against a still-running target leaves one of
    /// these behind, and dropping it silently would make the daemon look like
    /// it had picked at random.
    pub superseded: Vec<Member>,
}

/// What a [`Session`] says.
#[verifier::ext_equal]
pub struct SessionModel {
    pub id: Seq<char>,
    pub app: Seq<char>,
    pub pid: u32,
    pub cpu: Option<MemberModel>,
    pub memory: Option<MemberModel>,
    pub superseded: Seq<MemberModel>,
}

impl View for Session {
    type V = SessionModel;

    open spec fn view(&self) -> SessionModel {
        SessionModel {
            id: self.id@,
            app: self.app@,
            pid: self.pid,
            cpu: entry(self.cpu),
            memory: entry(self.memory),
            superseded: entries(self.superseded@),
        }
    }
}

/// The same entry again, where there is one.
fn copy_entry(m: &Option<Member>) -> (r: Option<Member>)
    ensures
        entry(r) == entry(*m),
{
    match m {
        Some(m) => Some(m.clone()),
        None => None,
    }
}

impl Clone for Session {
    fn clone(&self) -> (r: Self)
        ensures
            r@ == self@,
    {
        let mut superseded: Vec<Member> = Vec::new();
        for n in 0..self.superseded.len()
            invariant
                superseded@.len() == n,
                forall|i: int|
                    0 <= i < n ==> (#[trigger] superseded@[i])@ == self.superseded@[i]@,
        {
            superseded.push(self.superseded[n].clone());
        }
        proof {
            assert(entries(superseded@) =~= entries(self.superseded@));
        }
        Session {
            id: self.id.clone(),
            app: self.app.clone(),
            pid: self.pid,
            cpu: copy_entry(&self.cpu),
            memory: copy_entry(&self.memory),
            superseded,
        }
    }
}

impl SessionModel {
    pub open spec fn is_connected(self) -> bool {
        (self.cpu matches Some(m) && m.connected) || (self.memory matches Some(m) && m.connected)
    }

    /// Both feeds, in a fixed order, skipping the half that is missing.
    pub open spec fn members(self) -> Seq<MemberModel> {
        match (self.cpu, self.memory) {
            (Some(cpu), Some(memory)) => seq![cpu, memory],
            (Some(cpu), None) => seq![cpu],
            (None, Some(memory)) => seq![memory],
            (None, None) => Seq::empty(),
        }
    }

    /// The earlier start of its feeds.
    pub open spec fn started(self) -> u64 {
        match (self.cpu, self.memory) {
            (Some(cpu), Some(memory)) => if cpu.started_unix_ms <= memory.started_unix_ms {
                cpu.started_unix_ms
            } else {
                memory.started_unix_ms
            },
            (Some(cpu), None) => cpu.started_unix_ms,
            (None, Some(memory)) => memory.started_unix_ms,
            (None, None) => 0,
        }
    }
}

impl Session {
    pub fn is_connected(&self) -> (r: bool)
        ensures
            r == self@.is_connected(),
    {
        let cpu = match &self.cpu {
            Some(m) => m.connected,
            None => false,
        };
        let memory = match &self.memory {
            Some(m) => m.connected,
            None => false,
        };
        cpu || memory
    }

    /// Both feeds, in a fixed order, skipping the half that is missing.
    pub fn members(&self) -> (r: Vec<&Member>)
        ensures
            r@.len() == self@.members().len(),
            forall|i: int| 0 <= i < r@.len() ==> (#[trigger] r@[i])@ == self@.members()[i],
    {
        let mut members: Vec<&Member> = Vec::new();
        if let Some(m) = &self.cpu {
            members.push(m);
        }
        if let Some(m) = &self.memory {
            members.push(m);
        }
        members
    }

    fn started_unix_ms(&self) -> (r: u64)
        ensures
            r == self@.started(),
    {
        match &self.cpu {
            Some(cpu) => match &self.memory {
                Some(memory) => if cpu.started_unix_ms <= memory.started_unix_ms {
                    cpu.started_unix_ms
                } else {
                    memory.started_unix_ms
                },
                None => cpu.started_unix_ms,
            },
            None => match &self.memory {
                Some(memory) => memory.started_unix_ms,
                None => 0,
            },
        }
    }
}

/// The entry a process makes in its session.
pub open spec fn member_of(p: ProcessModel) -> MemberModel {
    MemberModel {
        process_id: p.id,
        feed: feed_of(p.source),
        source: p.source,
        started_unix_ms: p.started_unix_ms,
        ended_unix_ms: p.ended_unix_ms,
        connected: p.live_connections > 0,
        last_frame_unix_ms: p.last_frame_unix_ms,
    }
}

fn member(process: &ProcessState) -> (r: Member)
    ensures
        r@ == member_of(process@),
{
    Member {
        process_id: process.id.clone(),
        feed: Feed::of(process.source.as_str()),
        source: process.source.clone(),
        started_unix_ms: process.started_unix_ms,
        ended_unix_ms: process.ended_unix_ms,
        connected: process.is_connected(),
        last_frame_unix_ms: process.last_frame_unix_ms,
    }
}

/// Which of two entries for the same feed speaks for the session. A live
/// emitter beats a dead one; between two live ones the newest wins, because a
/// restarted bridge leaves the stream it abandoned marked connected until its
/// socket closes.
pub open spec fn outranks(held: MemberModel, candidate: MemberModel) -> bool {
    if held.connected == candidate.connected {
        held.started_unix_ms >= candidate.started_unix_ms
    } else {
        held.connected
    }
}

/// The entry that speaks for a feed: the first that none of the others
/// outranks.
pub open spec fn speaker(run: Seq<MemberModel>, feed: Feed) -> Option<MemberModel>
    decreases run.len(),
{
    if run.len() == 0 {
        None
    } else {
        let before = speaker(run.drop_last(), feed);
        let m = run.last();
        if m.feed != feed {
            before
        } else {
            match before {
                Some(held) if outranks(held, m) => Some(held),
                _ => Some(m),
            }
        }
    }
}

/// The entries that lost to another of their own feed, in the order they lost.
pub open spec fn losers(run: Seq<MemberModel>) -> Seq<MemberModel>
    decreases run.len(),
{
    if run.len() == 0 {
        Seq::empty()
    } else {
        let before = losers(run.drop_last());
        let m = run.last();
        match speaker(run.drop_last(), m.feed) {
            Some(held) => if outranks(held, m) {
                before.push(m)
            } else {
                before.push(held)
            },
            None => before,
        }
    }
}

/// Newest start first.
pub open spec fn newer(a: MemberModel, b: MemberModel) -> bool {
    a.started_unix_ms >= b.started_unix_ms
}

/// The earliest start in a run.
pub open spec fn anchor(run: Seq<MemberModel>) -> u64
    decreases run.len(),
{
    if run.len() == 0 {
        0
    } else if run.len() == 1 {
        run[0].started_unix_ms
    } else {
        let before = anchor(run.drop_last());
        if run.last().started_unix_ms < before {
            run.last().started_unix_ms
        } else {
            before
        }
    }
}

/// A character that needs no care in a path segment.
pub open spec fn plain(c: char) -> bool {
    ||| 'a' <= c <= 'z'
    ||| 'A' <= c <= 'Z'
    ||| '0' <= c <= '9'
    ||| c == '-'
    ||| c == '_'
}

/// A name with every character that is not plain replaced.
pub open spec fn plainly(app: Seq<char>) -> Seq<char> {
    app.map_values(
        |c: char|
            if plain(c) {
                c
            } else {
                '_'
            },
    )
}

/// Stable across requests, and safe in a path segment whatever the target
/// called itself.
pub open spec fn session_name(app: Seq<char>, pid: u32, anchor: u64) -> Seq<char> {
    plainly(app).push('-') + text::decimal(pid as nat).push('-') + text::decimal(anchor as nat)
}

/// A session id holds nothing that would have to be escaped in a URL.
pub proof fn lemma_a_session_id_is_plain(app: Seq<char>, pid: u32, anchor: u64)
    ensures
        forall|i: int|
            0 <= i < session_name(app, pid, anchor).len() ==> plain(
                #[trigger] session_name(app, pid, anchor)[i],
            ),
{
    text::lemma_decimal_holds_digits(pid as nat);
    text::lemma_decimal_holds_digits(anchor as nat);
    let name = session_name(app, pid, anchor);
    let (a, p, s) = (plainly(app), text::decimal(pid as nat), text::decimal(anchor as nat));
    assert forall|i: int| 0 <= i < name.len() implies plain(#[trigger] name[i]) by {
        if i < a.len() {
            assert(name[i] == a[i]);
        } else if i == a.len() {
            assert(name[i] == '-');
        } else if i < a.len() + 1 + p.len() {
            assert(name[i] == p[i - a.len() - 1]);
        } else if i == a.len() + 1 + p.len() {
            assert(name[i] == '-');
        } else {
            assert(name[i] == s[i - a.len() - p.len() - 2]);
        }
    }
}

/// The session that one run of one program makes.
pub open spec fn session_of(app: Seq<char>, pid: u32, run: Seq<MemberModel>) -> SessionModel {
    SessionModel {
        id: session_name(app, pid, anchor(run)),
        app,
        pid,
        cpu: speaker(run, Feed::Cpu),
        memory: speaker(run, Feed::Memory),
        superseded: sorting::sorted(
            losers(run),
            |a: MemberModel, b: MemberModel| newer(a, b),
        ),
    }
}

/// A process entry with the program it belongs to.
struct Seat {
    app: String,
    pid: u32,
    member: Member,
}

/// What a [`Seat`] says.
#[verifier::ext_equal]
pub struct SeatModel {
    pub app: Seq<char>,
    pub pid: u32,
    pub member: MemberModel,
}

impl View for Seat {
    type V = SeatModel;

    closed spec fn view(&self) -> SeatModel {
        SeatModel { app: self.app@, pid: self.pid, member: self.member@ }
    }
}

/// The seat a process takes.
pub open spec fn seat_of(p: ProcessModel) -> SeatModel {
    SeatModel { app: p.app, pid: p.pid, member: member_of(p) }
}

/// By program, then by pid, then by start.
pub open spec fn seated_before(a: SeatModel, b: SeatModel) -> bool {
    if a.app != b.app {
        text::precedes(a.app, b.app)
    } else if a.pid != b.pid {
        a.pid < b.pid
    } else {
        a.member.started_unix_ms <= b.member.started_unix_ms
    }
}

/// The two entries describe one run: the same program, pid and, near enough,
/// the same start.
pub open spec fn same_run(a: SeatModel, b: SeatModel) -> bool {
    &&& a.app == b.app
    &&& a.pid == b.pid
    &&& b.member.started_unix_ms - a.member.started_unix_ms <= SAME_RUN_TOLERANCE_MS
}

/// Splits seated entries into runs, wherever one does not continue the run of
/// the entry before it. A pid the OS handed out again is a different program as
/// far as anyone reading this is concerned, and the only evidence for that is a
/// start time far from the others.
pub open spec fn runs(seats: Seq<SeatModel>) -> Seq<Seq<SeatModel>>
    decreases seats.len(),
{
    if seats.len() == 0 {
        Seq::empty()
    } else {
        let before = runs(seats.drop_last());
        let s = seats.last();
        if seats.len() > 1 && same_run(seats[seats.len() - 2], s) {
            before.update(before.len() - 1, before.last().push(s))
        } else {
            before.push(seq![s])
        }
    }
}

/// The entries of a run.
pub open spec fn members_of(run: Seq<SeatModel>) -> Seq<MemberModel> {
    run.map_values(|s: SeatModel| s.member)
}

/// Newest run first, and by id between two that started together.
pub open spec fn newer_session(a: SessionModel, b: SessionModel) -> bool {
    if a.started() != b.started() {
        a.started() > b.started()
    } else {
        a.id == b.id || text::precedes(a.id, b.id)
    }
}

/// Every session the processes make: entries are seated by program, split into
/// runs, and each run is one session.
pub open spec fn sessions_of(all: Seq<ProcessModel>) -> Seq<SessionModel> {
    let seats = sorting::sorted(
        all.map_values(|p: ProcessModel| seat_of(p)),
        |a: SeatModel, b: SeatModel| seated_before(a, b),
    );
    let sessions = runs(seats).map_values(
        |run: Seq<SeatModel>| session_of(run[0].app, run[0].pid, members_of(run)),
    );
    sorting::sorted(sessions, |a: SessionModel, b: SessionModel| newer_session(a, b))
}

/// The entry that speaks for a feed is one of the run, of that feed, and
/// outranks every other; there is one wherever the feed has an entry at all.
pub proof fn lemma_the_speaker_outranks_its_feed(run: Seq<MemberModel>, feed: Feed)
    ensures
        match speaker(run, feed) {
            Some(s) => {
                &&& s.feed == feed
                &&& run.contains(s)
                &&& forall|i: int|
                    0 <= i < run.len() && (#[trigger] run[i]).feed == feed ==> outranks(s, run[i])
            },
            None => forall|i: int| 0 <= i < run.len() ==> (#[trigger] run[i]).feed != feed,
        },
    decreases run.len(),
{
    if run.len() > 0 {
        let front = run.drop_last();
        lemma_the_speaker_outranks_its_feed(front, feed);
        assert(run.last() == run[run.len() - 1]);
        if let Some(s) = speaker(front, feed) {
            let k = choose|k: int| 0 <= k < front.len() && front[k] == s;
            assert(run[k] == s);
        }
        assert forall|i: int| 0 <= i < run.len() && (#[trigger] run[i]).feed == feed implies match
        speaker(run, feed) {
            Some(s) => outranks(s, run[i]),
            None => false,
        } by {
            if i < front.len() {
                assert(front[i] == run[i]);
            }
        }
        if speaker(run, feed) is None {
            assert forall|i: int| 0 <= i < run.len() implies (#[trigger] run[i]).feed != feed by {
                if i < front.len() {
                    assert(front[i] == run[i]);
                }
            }
        }
    }
}

/// The speakers of a run, as a collection.
pub open spec fn speakers(run: Seq<MemberModel>) -> Multiset<MemberModel> {
    let cpu = match speaker(run, Feed::Cpu) {
        Some(m) => Multiset::singleton(m),
        None => Multiset::empty(),
    };
    match speaker(run, Feed::Memory) {
        Some(m) => cpu.insert(m),
        None => cpu,
    }
}

/// No entry of a run is dropped: each one speaks for its feed or is reported as
/// superseded, and none is reported twice.
pub proof fn lemma_no_entry_is_dropped(run: Seq<MemberModel>)
    ensures
        run.to_multiset() == losers(run).to_multiset().add(speakers(run)),
    decreases run.len(),
{
    broadcast use vstd::multiset::group_multiset_axioms;
    broadcast use vstd::seq_lib::group_to_multiset_ensures;

    if run.len() > 0 {
        let front = run.drop_last();
        lemma_no_entry_is_dropped(front);
        assert(run =~= front.push(run.last()));
        assert(run.to_multiset() =~= losers(run).to_multiset().add(speakers(run)));
    } else {
        assert(run.to_multiset() =~= losers(run).to_multiset().add(speakers(run)));
    }
}

/// Splitting into runs loses no entry, invents none and keeps their order.
pub proof fn lemma_runs_hold_every_entry(seats: Seq<SeatModel>)
    ensures
        runs(seats).flatten() == seats,
        seats.len() > 0 ==> runs(seats).len() > 0 && runs(seats).last().len() > 0
            && runs(seats).last().last() == seats.last(),
        forall|i: int| 0 <= i < runs(seats).len() ==> (#[trigger] runs(seats)[i]).len() > 0,
    decreases seats.len(),
{
    if seats.len() > 0 {
        let front = seats.drop_last();
        let s = seats.last();
        lemma_runs_hold_every_entry(front);
        let before = runs(front);
        if seats.len() > 1 && same_run(seats[seats.len() - 2], s) {
            let (head, last) = (before.drop_last(), before.last());
            assert(before =~= head.push(last));
            assert(runs(seats) =~= head.push(last.push(s)));
            head.lemma_flatten_push(last);
            head.lemma_flatten_push(last.push(s));
            assert(head.flatten() + last.push(s) =~= (head.flatten() + last).push(s));
        } else {
            before.lemma_flatten_push(seq![s]);
            assert(before.flatten() + seq![s] =~= front.push(s));
        }
        assert(front.push(s) =~= seats);
    } else {
        assert(runs(seats).flatten() =~= seats);
    }
}

/// A run is one program on one pid, and each of its entries starts within the
/// tolerance of the one before.
pub proof fn lemma_a_run_is_one_program(seats: Seq<SeatModel>, i: int, j: int)
    requires
        0 <= i < runs(seats).len(),
        0 < j < runs(seats)[i].len(),
    ensures
        same_run(runs(seats)[i][j - 1], runs(seats)[i][j]),
    decreases seats.len(),
{
    let front = seats.drop_last();
    let s = seats.last();
    let before = runs(front);
    lemma_runs_hold_every_entry(front);
    if i < before.len() && j < before[i].len() {
        lemma_a_run_is_one_program(front, i, j);
    } else if seats.len() > 1 && same_run(seats[seats.len() - 2], s) {
        assert(front.last() == seats[seats.len() - 2]);
    }
}

/// Where one run ends and the next begins, the entries on either side are not
/// of one run: a pid handed out again is a different program.
pub proof fn lemma_a_new_run_is_another_program(seats: Seq<SeatModel>, i: int)
    requires
        0 <= i < runs(seats).len() - 1,
    ensures
        runs(seats)[i].len() > 0,
        runs(seats)[i + 1].len() > 0,
        !same_run(runs(seats)[i].last(), runs(seats)[i + 1][0]),
    decreases seats.len(),
{
    let front = seats.drop_last();
    let before = runs(front);
    lemma_runs_hold_every_entry(front);
    lemma_runs_hold_every_entry(seats);
    if front.len() > 0 {
        assert(front.last() == seats[seats.len() - 2]);
    }
    if i + 1 < before.len() {
        lemma_a_new_run_is_another_program(front, i);
    }
}

/// The newest run is listed first.
pub proof fn lemma_the_newest_session_is_listed_first(all: Seq<ProcessModel>)
    ensures
        sorting::in_order(
            sessions_of(all),
            |a: SessionModel, b: SessionModel| newer_session(a, b),
        ),
{
    let leq = |a: SessionModel, b: SessionModel| newer_session(a, b);
    assert forall|a: SessionModel, b: SessionModel| #[trigger] leq(a, b) || leq(b, a) by {
        text::lemma_precedes_total(a.id, b.id);
    }
    assert forall|a: SessionModel, b: SessionModel, c: SessionModel| #[trigger]
        leq(a, b) && #[trigger] leq(b, c) implies leq(a, c) by {
        if a.started() == b.started() && b.started() == c.started() && a.id != b.id && b.id
            != c.id {
            text::lemma_precedes_transitive(a.id, b.id, c.id);
        }
    }
    let seats = sorting::sorted(
        all.map_values(|p: ProcessModel| seat_of(p)),
        |a: SeatModel, b: SeatModel| seated_before(a, b),
    );
    sorting::lemma_sorting_is_stable(
        runs(seats).map_values(
            |run: Seq<SeatModel>| session_of(run[0].app, run[0].pid, members_of(run)),
        ),
        leq,
    );
}

/// Every entry a session reports: those that speak and those superseded.
pub open spec fn entries_of(s: SessionModel) -> Multiset<MemberModel> {
    let cpu = match s.cpu {
        Some(m) => Multiset::singleton(m),
        None => Multiset::empty(),
    };
    let spoken = match s.memory {
        Some(m) => cpu.insert(m),
        None => cpu,
    };
    s.superseded.to_multiset().add(spoken)
}

pub(crate) proof fn lemma_a_session_reports_its_run(app: Seq<char>, pid: u32, run: Seq<MemberModel>)
    ensures
        entries_of(session_of(app, pid, run)) == run.to_multiset(),
{
    let leq = |a: MemberModel, b: MemberModel| newer(a, b);
    assert(sorting::places_all(leq));
    sorting::lemma_sorting_is_stable(losers(run), leq);
    lemma_no_entry_is_dropped(run);
}

proof fn lemma_runs_report_their_entries(split: Seq<Seq<SeatModel>>)
    ensures
        sorting::gathered(
            split.map_values(
                |run: Seq<SeatModel>| session_of(run[0].app, run[0].pid, members_of(run)),
            ),
            |s: SessionModel| entries_of(s),
        ) == sorting::gathered(
            split.flatten(),
            |s: SeatModel| Multiset::singleton((|s: SeatModel| s.member)(s)),
        ),
    decreases split.len(),
{
    let make = |run: Seq<SeatModel>| session_of(run[0].app, run[0].pid, members_of(run));
    let (read, hold) = (|s: SeatModel| s.member, |s: SessionModel| entries_of(s));
    let one = |s: SeatModel| Multiset::singleton(read(s));
    if split.len() == 0 {
        assert(split.map_values(make) =~= Seq::empty());
        assert(split.flatten() =~= Seq::empty());
    } else {
        let (run, rest) = (split[0], split.skip(1));
        lemma_runs_report_their_entries(rest);
        assert(split.drop_first() =~= rest);
        assert(split.flatten() =~= run + rest.flatten());
        assert(split.map_values(make).skip(1) =~= rest.map_values(make));
        sorting::lemma_gathered_from_both(run, rest.flatten(), one);
        sorting::lemma_gathered_one_by_one(run, read);
        assert(members_of(run) =~= run.map_values(read));
        lemma_a_session_reports_its_run(run[0].app, run[0].pid, members_of(run));
    }
}

/// Every process the daemon has seen is in exactly one session, speaking for
/// its feed or superseded by another of it; nothing else is in any.
pub proof fn lemma_every_process_is_in_one_session(all: Seq<ProcessModel>)
    ensures
        sorting::gathered(sessions_of(all), |s: SessionModel| entries_of(s)) == all.map_values(
            |p: ProcessModel| member_of(p),
        ).to_multiset(),
{
    let seated = all.map_values(|p: ProcessModel| seat_of(p));
    let by_seat = |a: SeatModel, b: SeatModel| seated_before(a, b);
    let seats = sorting::sorted(seated, by_seat);
    let make = |run: Seq<SeatModel>| session_of(run[0].app, run[0].pid, members_of(run));
    let (read, hold) = (|s: SeatModel| s.member, |s: SessionModel| entries_of(s));
    let one = |s: SeatModel| Multiset::singleton(read(s));
    sorting::lemma_sorting_keeps_what_is_held(
        runs(seats).map_values(make),
        |a: SessionModel, b: SessionModel| newer_session(a, b),
        hold,
    );
    lemma_runs_report_their_entries(runs(seats));
    lemma_runs_hold_every_entry(seats);
    sorting::lemma_sorting_keeps_what_is_held(seated, by_seat, one);
    sorting::lemma_gathered_one_by_one(seated, read);
    assert(seated.map_values(read) =~= all.map_values(|p: ProcessModel| member_of(p)));
}

fn outranks_entry(held: &Member, candidate: &Member) -> (r: bool)
    ensures
        r == outranks(held@, candidate@),
{
    if held.connected == candidate.connected {
        held.started_unix_ms >= candidate.started_unix_ms
    } else {
        held.connected
    }
}

fn session_id(app: &str, pid: u32, anchor_unix_ms: u64) -> (r: String)
    ensures
        r@ == session_name(app@, pid, anchor_unix_ms),
{
    let mut id = String::new();
    let chars = text::chars_of(app);
    for n in 0..chars.len()
        invariant
            chars@ == app@,
            id@ == plainly(app@).take(n as int),
    {
        let c = chars[n];
        let is_plain = (c >= 'a' && c <= 'z') || (c >= 'A' && c <= 'Z') || (c >= '0' && c <= '9')
            || c == '-' || c == '_';
        if is_plain {
            id.push(c);
        } else {
            id.push('_');
        }
        proof {
            assert(plainly(app@).take(n + 1) =~= plainly(app@).take(n as int).push(
                plainly(app@)[n as int],
            ));
        }
    }
    id.push('-');
    text::push_decimal(&mut id, pid as u64);
    id.push('-');
    text::push_decimal(&mut id, anchor_unix_ms);
    proof {
        assert(id@ =~= session_name(app@, pid, anchor_unix_ms));
    }
    id
}

struct NewestFirst;

impl Order<Member> for NewestFirst {
    closed spec fn leq(a: Member, b: Member) -> bool {
        newer(a@, b@)
    }

    proof fn lemma_total(a: Member, b: Member) {
    }

    proof fn lemma_transitive(a: Member, b: Member, c: Member) {
    }

    fn may_precede(a: &Member, b: &Member) -> (r: bool) {
        a.started_unix_ms >= b.started_unix_ms
    }
}

struct BySeat;

impl Order<Seat> for BySeat {
    closed spec fn leq(a: Seat, b: Seat) -> bool {
        seated_before(a@, b@)
    }

    proof fn lemma_total(a: Seat, b: Seat) {
        text::lemma_precedes_total(a@.app, b@.app);
    }

    proof fn lemma_transitive(a: Seat, b: Seat, c: Seat) {
        if a@.app != b@.app && b@.app != c@.app {
            text::lemma_precedes_transitive(a@.app, b@.app, c@.app);
            if a@.app == c@.app {
                text::lemma_precedes_irreflexive(a@.app);
            }
        }
    }

    fn may_precede(a: &Seat, b: &Seat) -> (r: bool) {
        if !text::same(a.app.as_str(), b.app.as_str()) {
            text::sorts_before(a.app.as_str(), b.app.as_str())
        } else if a.pid != b.pid {
            a.pid < b.pid
        } else {
            a.member.started_unix_ms <= b.member.started_unix_ms
        }
    }
}

struct NewestSession;

impl Order<Session> for NewestSession {
    closed spec fn leq(a: Session, b: Session) -> bool {
        newer_session(a@, b@)
    }

    proof fn lemma_total(a: Session, b: Session) {
        text::lemma_precedes_total(a@.id, b@.id);
    }

    proof fn lemma_transitive(a: Session, b: Session, c: Session) {
        if a@.started() == b@.started() && b@.started() == c@.started() && a@.id != b@.id && b@.id
            != c@.id {
            text::lemma_precedes_transitive(a@.id, b@.id, c@.id);
        }
    }

    fn may_precede(a: &Session, b: &Session) -> (r: bool) {
        let (x, y) = (a.started_unix_ms(), b.started_unix_ms());
        if x != y {
            x > y
        } else {
            text::same(a.id.as_str(), b.id.as_str()) || text::sorts_before(
                a.id.as_str(),
                b.id.as_str(),
            )
        }
    }
}

spec fn seats_of(seats: Seq<Seat>) -> Seq<SeatModel> {
    seats.map_values(|s: Seat| s@)
}

/// The session one run makes.
fn session(run: &Vec<Seat>) -> (r: Session)
    requires
        run@.len() > 0,
    ensures
        r@ == session_of(run@[0]@.app, run@[0]@.pid, members_of(seats_of(run@))),
{
    let ghost all = members_of(seats_of(run@));
    let mut anchor_unix_ms: u64 = 0;
    let mut superseded: Vec<Member> = Vec::new();
    let mut cpu: Option<Member> = None;
    let mut memory: Option<Member> = None;
    proof {
        assert(entries(superseded@) =~= losers(all.take(0)));
    }
    for n in 0..run.len()
        invariant
            all == members_of(seats_of(run@)),
            anchor_unix_ms == anchor(all.take(n as int)),
            entry(cpu) == speaker(all.take(n as int), Feed::Cpu),
            entry(memory) == speaker(all.take(n as int), Feed::Memory),
            entries(superseded@) == losers(all.take(n as int)),
    {
        let ghost front = all.take(n as int);
        proof {
            assert(all.take(n + 1).drop_last() =~= front);
            assert(all.take(n + 1).last() == run@[n as int]@.member);
        }
        let member = run[n].member.clone();
        if n == 0 || member.started_unix_ms < anchor_unix_ms {
            anchor_unix_ms = member.started_unix_ms;
        }
        let feed = member.feed;
        let held = match feed {
            Feed::Cpu => cpu.take(),
            Feed::Memory => memory.take(),
        };
        let (winner, loser) = match held {
            Some(held) => {
                if outranks_entry(&held, &member) {
                    (held, Some(member))
                } else {
                    (member, Some(held))
                }
            },
            None => (member, None),
        };
        match feed {
            Feed::Cpu => {
                cpu = Some(winner);
            },
            Feed::Memory => {
                memory = Some(winner);
            },
        }
        let ghost before = entries(superseded@);
        if let Some(l) = loser {
            superseded.push(l);
            proof {
                assert(entries(superseded@) =~= before.push(l@));
            }
        }
    }
    proof {
        assert(all.take(all.len() as int) =~= all);
        sorting::lemma_sorting_commutes_with_reading(
            superseded@,
            |m: Member| m@,
            sorting::order_of::<Member, NewestFirst>(),
            |a: MemberModel, b: MemberModel| newer(a, b),
        );
    }
    Session {
        id: session_id(run[0].app.as_str(), run[0].pid, anchor_unix_ms),
        app: run[0].app.clone(),
        pid: run[0].pid,
        cpu,
        memory,
        superseded: sorting::stable_sort::<Member, NewestFirst>(superseded),
    }
}

spec fn runs_of(all: Seq<Vec<Seat>>) -> Seq<Seq<SeatModel>> {
    all.map_values(|run: Vec<Seat>| seats_of(run@))
}

/// Splits seated entries into runs.
fn split_runs(seats: Vec<Seat>) -> (r: Vec<Vec<Seat>>)
    ensures
        runs_of(r@) == runs(seats_of(seats@)),
{
    let ghost all = seats_of(seats@);
    let mut split: Vec<Vec<Seat>> = Vec::new();
    proof {
        assert(runs_of(split@) =~= runs(all.take(0)));
    }
    for n in 0..seats.len()
        invariant
            all == seats_of(seats@),
            runs_of(split@) == runs(all.take(n as int)),
    {
        let ghost front = all.take(n as int);
        let ghost before = runs_of(split@);
        proof {
            assert(all.take(n + 1).drop_last() =~= front);
            assert(all.take(n + 1).last() == seats@[n as int]@);
            lemma_runs_hold_every_entry(front);
        }
        let seat = Seat {
            app: seats[n].app.clone(),
            pid: seats[n].pid,
            member: seats[n].member.clone(),
        };
        let continues = n > 0 && seats[n].pid == seats[n - 1].pid && text::same(
            seats[n].app.as_str(),
            seats[n - 1].app.as_str(),
        ) && (seats[n].member.started_unix_ms <= seats[n - 1].member.started_unix_ms
            || seats[n].member.started_unix_ms - seats[n - 1].member.started_unix_ms
            <= SAME_RUN_TOLERANCE_MS);
        proof {
            assert(n > 0 ==> all.take(n + 1)[n - 1] == seats@[n - 1]@);
        }
        if continues {
            let last: usize = split.len() - 1;
            let ghost run = split@[last as int]@;
            split[last].push(seat);
            proof {
                assert(seats_of(split@[last as int]@) =~= before[last as int].push(seat@));
                assert(runs_of(split@) =~= before.update(last as int, before.last().push(seat@)));
            }
        } else {
            let mut run: Vec<Seat> = Vec::new();
            run.push(seat);
            proof {
                assert(seats_of(run@) =~= seq![seat@]);
            }
            split.push(run);
            proof {
                assert(runs_of(split@) =~= before.push(seq![seat@]));
            }
        }
    }
    proof {
        assert(all.take(all.len() as int) =~= all);
    }
    split
}

/// Every session the registry currently describes, newest run first.
///
/// Pure: it reads the registry and builds a fresh answer. Nothing is cached,
/// so a session appears the moment its second emitter connects and needs no
/// invalidation when one goes away.
pub fn pair_sessions(registry: &Registry) -> (r: Vec<Session>)
    ensures
        r@.map_values(|s: Session| s@) == sessions_of(registry@),
{
    let processes = registry.all();
    let ghost all = registry@.map_values(|p: ProcessModel| seat_of(p));
    let mut seats: Vec<Seat> = Vec::new();
    for n in 0..processes.len()
        invariant
            processes@.len() == registry@.len(),
            forall|i: int|
                0 <= i < processes@.len() ==> (#[trigger] processes@[i])@ == registry@[i],
            all == registry@.map_values(|p: ProcessModel| seat_of(p)),
            seats@.len() == n,
            forall|i: int| 0 <= i < n ==> (#[trigger] seats@[i])@ == all[i],
    {
        let process = processes[n];
        proof {
            assert(process@ == registry@[n as int]);
        }
        seats.push(
            Seat { app: process.app.clone(), pid: process.pid, member: member(process) },
        );
    }
    proof {
        assert(seats_of(seats@) =~= all);
        sorting::lemma_sorting_commutes_with_reading(
            seats@,
            |s: Seat| s@,
            sorting::order_of::<Seat, BySeat>(),
            |a: SeatModel, b: SeatModel| seated_before(a, b),
        );
    }
    let seated = sorting::stable_sort::<Seat, BySeat>(seats);
    let ghost placed = seats_of(seated@);
    let split = split_runs(seated);
    let ghost read = |run: Seq<SeatModel>| session_of(run[0].app, run[0].pid, members_of(run));
    let mut sessions: Vec<Session> = Vec::new();
    proof {
        lemma_runs_hold_every_entry(placed);
    }
    for n in 0..split.len()
        invariant
            runs_of(split@) == runs(placed),
            forall|i: int| 0 <= i < runs(placed).len() ==> (#[trigger] runs(placed)[i]).len() > 0,
            read == (|run: Seq<SeatModel>|
                session_of(run[0].app, run[0].pid, members_of(run))),
            sessions@.len() == n,
            forall|i: int| 0 <= i < n ==> (#[trigger] sessions@[i])@ == read(runs(placed)[i]),
    {
        proof {
            assert(runs(placed)[n as int] == seats_of(split@[n as int]@));
            assert(seats_of(split@[n as int]@)[0] == split@[n as int]@[0]@);
        }
        sessions.push(session(&split[n]));
    }
    proof {
        assert(sessions@.map_values(|s: Session| s@) =~= runs(placed).map_values(read));
        sorting::lemma_sorting_commutes_with_reading(
            sessions@,
            |s: Session| s@,
            sorting::order_of::<Session, NewestSession>(),
            |a: SessionModel, b: SessionModel| newer_session(a, b),
        );
    }
    sorting::stable_sort::<Session, NewestSession>(sessions)
}

/// The first session that goes by `id`, if one does.
pub open spec fn found(sessions: Seq<SessionModel>, id: Seq<char>) -> Option<SessionModel>
    decreases sessions.len(),
{
    if sessions.len() == 0 {
        None
    } else if sessions[0].id == id {
        Some(sessions[0])
    } else {
        found(sessions.skip(1), id)
    }
}

pub fn find(registry: &Registry, id: &str) -> (r: Option<Session>)
    ensures
        match r {
            Some(s) => found(sessions_of(registry@), id@) == Some(s@),
            None => found(sessions_of(registry@), id@) is None,
        },
{
    let sessions = pair_sessions(registry);
    let ghost all = sessions_of(registry@);
    proof {
        assert(all.skip(0) =~= all);
    }
    for n in 0..sessions.len()
        invariant
            all == sessions@.map_values(|s: Session| s@),
            all == sessions_of(registry@),
            found(all, id@) == found(all.skip(n as int), id@),
    {
        proof {
            assert(all.skip(n as int)[0] == sessions@[n as int]@);
            assert(all.skip(n as int).skip(1) =~= all.skip(n + 1));
        }
        if text::same(sessions[n].id.as_str(), id) {
            return Some(sessions[n].clone());
        }
    }
    None
}

} // verus!
