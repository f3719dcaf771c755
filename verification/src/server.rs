//! What the HTTP surface decides: which process, session, window or file a
//! request is answered with.
use std::sync::Arc;

use vstd::prelude::*;
use vstd::string::*;

use crate::api;
use crate::api::{
    ProcessList, ProcessSummary, Resolution, SessionList, SessionStreamMessage, Snapshot,
    SnapshotView, StreamMessage,
};
use crate::registry;
use crate::registry::Registry;
use crate::session;
use crate::session::{Feed, Member, MemberModel, Session};
use crate::sorting;
use crate::sorting::Order;
use crate::store::{ProcessId, ProcessModel, ProcessState, Update};
use crate::text;

verus! {

pub const DEFAULT_PORT: u16 = 7700;

/// The port the environment asks for, or the default where it asks for none or
/// for something that is no port.
pub fn port_from(raw: Option<&str>) -> (r: u16)
    ensures
        r == match raw {
            Some(raw) => match text::number_up_to(raw@, u16::MAX as u64) {
                Some(port) => port as u16,
                None => DEFAULT_PORT,
            },
            None => DEFAULT_PORT,
        },
{
    match raw {
        Some(raw) => match text::parse_up_to(raw, u16::MAX as u64) {
            Some(port) => port as u16,
            None => DEFAULT_PORT,
        },
        None => DEFAULT_PORT,
    }
}

/// Newest first, and by id between two that started together.
pub open spec fn newer_process(a: ProcessModel, b: ProcessModel) -> bool {
    if a.started_unix_ms != b.started_unix_ms {
        a.started_unix_ms > b.started_unix_ms
    } else {
        a.id == b.id || text::precedes(a.id, b.id)
    }
}

/// Every process, newest first.
pub open spec fn listing(all: Seq<ProcessModel>) -> Seq<ProcessModel> {
    sorting::sorted(all, |a: ProcessModel, b: ProcessModel| newer_process(a, b))
}

struct NewestProcess;

impl<'a> Order<&'a ProcessState> for NewestProcess {
    closed spec fn leq(a: &'a ProcessState, b: &'a ProcessState) -> bool {
        newer_process(a@, b@)
    }

    proof fn lemma_total(a: &'a ProcessState, b: &'a ProcessState) {
        text::lemma_precedes_total(a@.id, b@.id);
    }

    proof fn lemma_transitive(a: &'a ProcessState, b: &'a ProcessState, c: &'a ProcessState) {
        if a@.started_unix_ms == b@.started_unix_ms && b@.started_unix_ms == c@.started_unix_ms
            && a@.id != b@.id && b@.id != c@.id {
            text::lemma_precedes_transitive(a@.id, b@.id, c@.id);
        }
    }

    fn may_precede(a: &&'a ProcessState, b: &&'a ProcessState) -> (r: bool) {
        if a.started_unix_ms != b.started_unix_ms {
            a.started_unix_ms > b.started_unix_ms
        } else {
            text::same(a.id.as_str(), b.id.as_str()) || text::sorts_before(
                a.id.as_str(),
                b.id.as_str(),
            )
        }
    }
}

/// Every stream the daemon has seen since it started, newest first.
pub fn list_processes(registry: &Registry) -> (r: ProcessList)
    ensures
        r.processes@.len() == listing(registry@).len(),
        forall|i: int|
            0 <= i < listing(registry@).len() ==> api::summarises(
                #[trigger] r.processes@[i],
                listing(registry@)[i],
            ),
{
    let all = registry.all();
    let ghost read = |p: &ProcessState| p@;
    proof {
        assert(all@.map_values(read) =~= registry@);
        sorting::lemma_sorting_commutes_with_reading(
            all@,
            read,
            sorting::order_of::<&ProcessState, NewestProcess>(),
            |a: ProcessModel, b: ProcessModel| newer_process(a, b),
        );
    }
    let ordered = sorting::stable_sort::<&ProcessState, NewestProcess>(all);
    let mut processes: Vec<ProcessSummary> = Vec::new();
    for n in 0..ordered.len()
        invariant
            read == (|p: &ProcessState| p@),
            ordered@.map_values(read) == listing(registry@),
            processes@.len() == n,
            forall|i: int|
                0 <= i < n ==> api::summarises(
                    #[trigger] processes@[i],
                    listing(registry@)[i],
                ),
    {
        proof {
            assert(ordered@.map_values(read)[n as int] == ordered@[n as int]@);
        }
        processes.push(api::summary(ordered[n]));
    }
    ProcessList { processes }
}

/// Every process is listed once, and the newest first.
pub proof fn lemma_the_newest_process_is_listed_first(all: Seq<ProcessModel>)
    ensures
        listing(all).to_multiset() == all.to_multiset(),
        sorting::in_order(listing(all), |a: ProcessModel, b: ProcessModel| newer_process(a, b)),
{
    let leq = |a: ProcessModel, b: ProcessModel| newer_process(a, b);
    assert forall|a: ProcessModel, b: ProcessModel| #[trigger] leq(a, b) || leq(b, a) by {
        text::lemma_precedes_total(a.id, b.id);
    }
    assert forall|a: ProcessModel, b: ProcessModel, c: ProcessModel| #[trigger]
        leq(a, b) && #[trigger] leq(b, c) implies leq(a, c) by {
        if a.started_unix_ms == b.started_unix_ms && b.started_unix_ms == c.started_unix_ms
            && a.id != b.id && b.id != c.id {
            text::lemma_precedes_transitive(a.id, b.id, c.id);
        }
    }
    sorting::lemma_sorting_is_stable(all, leq);
}

/// What was said, where anything was.
pub open spec fn said(raw: Option<&str>) -> Option<Seq<char>> {
    match raw {
        Some(raw) => Some(raw@),
        None => None,
    }
}

/// What a client asks a snapshot to cover: the whole fine ring unless it says
/// otherwise, and nothing at all where it names a resolution nobody knows.
pub open spec fn asked(resolution: Option<Seq<char>>, limit: Option<usize>) -> Option<
    SnapshotView,
> {
    let limit = match limit {
        Some(limit) => limit,
        None => usize::MAX,
    };
    match resolution {
        None => Some(SnapshotView { resolution: Resolution::Fine, limit }),
        Some(raw) => if raw == "fine"@ {
            Some(SnapshotView { resolution: Resolution::Fine, limit })
        } else if raw == "coarse"@ {
            Some(SnapshotView { resolution: Resolution::Coarse, limit })
        } else {
            None
        },
    }
}

/// What a client asks a snapshot to cover.
pub fn requested_view(resolution: Option<&str>, limit: Option<usize>) -> (r: Option<SnapshotView>)
    ensures
        r == asked(said(resolution), limit),
{
    let resolution = match resolution {
        None => Resolution::Fine,
        Some(raw) => match Resolution::parse(raw) {
            Some(known) => known,
            None => {
                return None;
            },
        },
    };
    let limit: usize = match limit {
        Some(limit) => limit,
        None => usize::MAX,
    };
    Some(SnapshotView { resolution, limit })
}

/// Why a request is turned away.
#[derive(Debug, Clone, Copy, PartialEq, Eq, Structural)]
pub enum Refused {
    /// A resolution nobody recognizes is a client bug, and answering it with
    /// the fine view would hide that behind an axis quietly a quarter the
    /// length the client asked for.
    BadRequest,
    /// No process goes by the id.
    NotFound,
}

/// The snapshot of one process, as a client asks for it.
pub fn snapshot(
    registry: &Registry,
    id: &str,
    resolution: Option<&str>,
    limit: Option<usize>,
    now_unix_ms: u64,
) -> (r: Result<Snapshot, Refused>)
    requires
        registry::sound(registry@),
    ensures
        match asked(said(resolution), limit) {
            None => r == Err::<Snapshot, Refused>(Refused::BadRequest),
            Some(view) => if registry::listed(registry@, id@) {
                r matches Ok(taken) && exists|i: int|
                    #![trigger registry@[i]]
                    registry::goes_by(registry@, i, id@) && api::portrays(
                        taken,
                        registry@[i],
                        now_unix_ms,
                        view,
                    )
            } else {
                r == Err::<Snapshot, Refused>(Refused::NotFound)
            },
        },
{
    let view = match requested_view(resolution, limit) {
        Some(view) => view,
        None => return Err(Refused::BadRequest),
    };
    match registry.get(&ProcessId::from_text(id)) {
        Some(process) => {
            proof {
                let i = choose|i: int| 0 <= i < registry@.len() && registry@[i] == process@;
                assert(registry::goes_by(registry@, i, id@));
            }
            Ok(api::snapshot_view(process, now_unix_ms, view))
        },
        None => Err(Refused::NotFound),
    }
}

/// Every session the daemon has seen since it started, newest run first.
pub fn list_sessions(registry: &Registry) -> (r: SessionList)
    ensures
        r.sessions@.len() == session::sessions_of(registry@).len(),
        forall|i: int|
            0 <= i < r.sessions@.len() ==> api::presents(
                #[trigger] r.sessions@[i],
                session::sessions_of(registry@)[i],
            ),
{
    let sessions = session::pair_sessions(registry);
    let list = api::session_list(&sessions);
    proof {
        let views = sessions@.map_values(|s: Session| s@);
        assert forall|i: int| 0 <= i < list.sessions@.len() implies api::presents(
            #[trigger] list.sessions@[i],
            session::sessions_of(registry@)[i],
        ) by {
            assert(views[i] == sessions@[i]@);
        }
    }
    list
}

/// The streams one session's socket carries.
#[derive(Debug)]
pub struct SessionFeeds {
    pub session_id: String,
    pub cpu: Option<ProcessId>,
    pub memory: Option<ProcessId>,
}

/// The process behind one half of a session, while the registry knows it.
pub open spec fn subscribed(all: Seq<ProcessModel>, m: Option<MemberModel>) -> Option<Seq<char>> {
    match m {
        Some(m) if registry::listed(all, m.process_id) => Some(m.process_id),
        _ => None,
    }
}

/// The id a subscription names, where there is one.
pub open spec fn id_of(id: Option<ProcessId>) -> Option<Seq<char>> {
    match id {
        Some(id) => Some(id@),
        None => None,
    }
}

fn subscribe(registry: &Registry, member: &Option<Member>) -> (r: Option<ProcessId>)
    requires
        registry::sound(registry@),
    ensures
        id_of(r) == subscribed(registry@, session::entry(*member)),
{
    match member {
        Some(m) => match registry.get(&m.process_id) {
            Some(_) => Some(m.process_id.clone()),
            None => None,
        },
        None => None,
    }
}

/// The feeds to carry down one session's socket. There are none where no
/// session goes by the id.
pub fn session_feeds(registry: &Registry, id: &str) -> (r: Option<SessionFeeds>)
    requires
        registry::sound(registry@),
    ensures
        match session::found(session::sessions_of(registry@), id@) {
            Some(s) => {
                let (cpu, memory) = (
                    subscribed(registry@, s.cpu),
                    subscribed(registry@, s.memory),
                );
                if cpu is None && memory is None {
                    r is None
                } else {
                    r matches Some(feeds) && feeds.session_id@ == s.id && id_of(feeds.cpu) == cpu
                        && id_of(feeds.memory) == memory
                }
            },
            None => r is None,
        },
{
    let session = match session::find(registry, id) {
        Some(session) => session,
        None => {
            return None;
        },
    };
    let cpu = subscribe(registry, &session.cpu);
    let memory = subscribe(registry, &session.memory);
    if cpu.is_none() && memory.is_none() {
        return None;
    }
    Some(SessionFeeds { session_id: session.id, cpu, memory })
}

/// What a subscription hands over.
#[derive(Debug)]
pub enum Received {
    Update(Arc<Update>),
    /// The reader fell behind and lost this many updates.
    Lagged(u64),
    Closed,
}

/// What a session's socket does about it.
#[derive(Debug)]
pub enum Tagged {
    Send(SessionStreamMessage),
    Skip,
    Stop,
}

/// An update is passed on with the feed it came from, a gap is passed over, and
/// a closed feed ends the socket.
pub fn tagged(session_id: &str, feed: Feed, process_id: &ProcessId, received: &Received) -> (r:
    Tagged)
    ensures
        match *received {
            Received::Update(update) => r matches Tagged::Send(message) && message.session_id@
                == session_id@ && message.feed@ == api::spelled(feed) && api::relays(
                message.message,
                process_id@,
                (*update)@,
            ),
            Received::Lagged(_) => r is Skip,
            Received::Closed => r is Stop,
        },
{
    match received {
        Received::Update(update) => Tagged::Send(
            api::session_stream_message(session_id, feed, process_id, &**update),
        ),
        Received::Lagged(_) => Tagged::Skip,
        Received::Closed => Tagged::Stop,
    }
}

/// What a process's socket does about it.
#[derive(Debug)]
pub enum Relayed {
    Send(StreamMessage),
    Skip,
    Stop,
}

/// An update is passed on, a gap is passed over, and a closed stream ends the
/// socket.
pub fn relayed(process_id: &ProcessId, received: &Received) -> (r: Relayed)
    ensures
        match *received {
            Received::Update(update) => r matches Relayed::Send(message) && api::relays(
                message,
                process_id@,
                (*update)@,
            ),
            Received::Lagged(_) => r is Skip,
            Received::Closed => r is Stop,
        },
{
    match received {
        Received::Update(update) => Relayed::Send(api::stream_message(process_id, &**update)),
        Received::Lagged(_) => Relayed::Skip,
        Received::Closed => Relayed::Stop,
    }
}

/// The file a request names inside the bundle.
pub open spec fn bundle_file(requested: Seq<char>) -> Seq<char> {
    let path = text::without_leading(requested, '/');
    if path.len() == 0 {
        "index.html"@
    } else {
        path
    }
}

pub fn bundle_path(requested: &str) -> (r: String)
    ensures
        r@ == bundle_file(requested@),
{
    let path = text::trim_leading(requested, '/');
    if path.is_empty() {
        "index.html".to_owned()
    } else {
        path.to_owned()
    }
}

/// What answers a request for a file.
#[derive(Debug, Clone, Copy, PartialEq, Eq, Structural)]
pub enum Served {
    /// The file itself.
    File,
    /// The bundle's entry page. A single-page UI owns its own routes, so an
    /// unknown path below a real bundle is its problem to render.
    Index,
    /// A page naming the routes, where no bundle is at hand.
    Placeholder,
}

pub fn served(has_file: bool, has_index: bool) -> (r: Served)
    ensures
        r == if has_file {
            Served::File
        } else if has_index {
            Served::Index
        } else {
            Served::Placeholder
        },
{
    if has_file {
        Served::File
    } else if has_index {
        Served::Index
    } else {
        Served::Placeholder
    }
}

pub const PLACEHOLDER: &'static str = "lightwatch daemon

No web UI is embedded in this build. The API is live:

  GET /api/processes                    every process this daemon has seen
  GET /api/processes/{id}/snapshot      functions, types, the call tree, and a ring
                                        ?resolution=fine|coarse &limit=<n>
  GET /api/processes/{id}/stream        websocket, one message per closed window
  GET /api/sessions                     one entry per program, both emitters joined
  GET /api/sessions/{id}/stream         websocket, both feeds, each message tagged

Emitters connect to the unix socket named by $LIGHTWATCH_SOCK_DIR.
See README.md for the response shapes.
";

/// The media type a browser is told, by file extension.
pub open spec fn media_type(extension: Seq<char>) -> Seq<char> {
    if extension == "html"@ {
        "text/html; charset=utf-8"@
    } else if extension == "js"@ || extension == "mjs"@ {
        "text/javascript; charset=utf-8"@
    } else if extension == "css"@ {
        "text/css; charset=utf-8"@
    } else if extension == "json"@ || extension == "map"@ {
        "application/json"@
    } else if extension == "svg"@ {
        "image/svg+xml"@
    } else if extension == "png"@ {
        "image/png"@
    } else if extension == "webp"@ {
        "image/webp"@
    } else if extension == "woff2"@ {
        "font/woff2"@
    } else {
        "application/octet-stream"@
    }
}

pub fn mime_for(path: &str) -> (r: &'static str)
    ensures
        r@ == media_type(text::after_last(path@, '.')),
{
    let extension = text::tail_after(path, '.');
    if text::same(extension, "html") {
        "text/html; charset=utf-8"
    } else if text::same(extension, "js") || text::same(extension, "mjs") {
        "text/javascript; charset=utf-8"
    } else if text::same(extension, "css") {
        "text/css; charset=utf-8"
    } else if text::same(extension, "json") || text::same(extension, "map") {
        "application/json"
    } else if text::same(extension, "svg") {
        "image/svg+xml"
    } else if text::same(extension, "png") {
        "image/png"
    } else if text::same(extension, "webp") {
        "image/webp"
    } else if text::same(extension, "woff2") {
        "font/woff2"
    } else {
        "application/octet-stream"
    }
}

} // verus!
