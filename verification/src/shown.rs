//! What the shapes the web UI reads say of what the daemon holds, entry by
//! entry.
use vstd::prelude::*;

use crate::api;
use crate::api::{
    BucketJson, CensusJson, EdgeJson, FunctionJson, LocationJson, MemberJson, PathJson,
    ProcessSummary, Resolution, SessionJson, Snapshot, SnapshotView, StreamMessage, TypeJson,
    WindowCallJson, WindowCensusJson, WindowEdgeJson, WindowJson, WindowStackJson,
};
use crate::dist;
use crate::ordered;
use crate::proto::Location;
use crate::ring;
use crate::ring::{CallModel, CensusModel, StackModel, WindowModel};
use crate::session::{Feed, MemberModel, SessionModel};
use crate::store;
use crate::store::{AppliedModel, PathModel, ProcessModel, TypeModel, UpdateModel};
use crate::totals;
use crate::totals::Tally;

verus! {

/// The list holds the calls of every function in the map, once each, by id.
pub open spec fn calls_told(list: Seq<WindowCallJson>, m: Map<u32, CallModel>) -> bool {
    &&& forall|i: int|
        0 <= i < list.len() ==> {
            let e = #[trigger] list[i];
            m.contains_key(e.func) && e.calls == m[e.func].calls && e.ns == m[e.func].ns
        }
    &&& forall|f: u32| #[trigger]
        m.contains_key(f) ==> exists|i: int| 0 <= i < list.len() && (#[trigger] list[i]).func == f
    &&& forall|i: int, j: int|
        0 <= i < j < list.len() ==> (#[trigger] list[i]).func < (#[trigger] list[j]).func
}

/// An entry of the list is of the call from one function to the other.
pub open spec fn lists_edge(list: Seq<WindowEdgeJson>, from: u32, to: u32, calls: u64) -> bool {
    exists|i: int|
        0 <= i < list.len() && (#[trigger] list[i]).from == from && list[i].to == to
            && list[i].calls == calls
}

/// The list holds an entry from one function to another exactly where the map
/// holds calls from the one to the other, with those calls, once each.
pub open spec fn edges_told(list: Seq<WindowEdgeJson>, m: Map<(u32, u32), u64>) -> bool {
    &&& forall|from: u32, to: u32, calls: u64| #[trigger]
        lists_edge(list, from, to, calls) <==> m.contains_key((from, to)) && m[(from, to)] == calls
    &&& forall|i: int, j: int|
        0 <= i < j < list.len() ==> {
            let (a, b) = (#[trigger] list[i], #[trigger] list[j]);
            a.from < b.from || (a.from == b.from && a.to < b.to)
        }
}

/// The list holds the share of every context in the map, once each, by id.
pub open spec fn stacks_told(list: Seq<WindowStackJson>, m: Map<u32, StackModel>) -> bool {
    &&& forall|i: int|
        0 <= i < list.len() ==> {
            let e = #[trigger] list[i];
            m.contains_key(e.path) && e.calls == m[e.path].calls && e.self_ns == m[e.path].self_ns
        }
    &&& forall|p: u32| #[trigger]
        m.contains_key(p) ==> exists|i: int| 0 <= i < list.len() && (#[trigger] list[i]).path == p
    &&& forall|i: int, j: int|
        0 <= i < j < list.len() ==> (#[trigger] list[i]).path < (#[trigger] list[j]).path
}

/// The list holds the reading of every type in the map, once each, by id.
pub open spec fn census_told(list: Seq<WindowCensusJson>, m: Map<u32, CensusModel>) -> bool {
    &&& forall|i: int|
        0 <= i < list.len() ==> {
            let e = #[trigger] list[i];
            m.contains_key(e.ty) && e.live == m[e.ty].live && e.bytes == m[e.ty].bytes
        }
    &&& forall|t: u32| #[trigger]
        m.contains_key(t) ==> exists|i: int| 0 <= i < list.len() && (#[trigger] list[i]).ty == t
    &&& forall|i: int, j: int|
        0 <= i < j < list.len() ==> (#[trigger] list[i]).ty < (#[trigger] list[j]).ty
}

/// The shape says which stretch of time the window is and everything in it.
pub open spec fn window_told(j: WindowJson, w: WindowModel) -> bool {
    &&& j.index == w.index
    &&& (w.index + 1) * w.resolution_ns <= u64::MAX ==> j.start_t_ns == w.index * w.resolution_ns
        && j.end_t_ns == (w.index + 1) * w.resolution_ns
    &&& calls_told(j.calls@, w.calls)
    &&& edges_told(j.edges@, w.edges)
    &&& stacks_told(j.stacks@, w.stacks)
    &&& census_told(j.census@, w.census)
}

/// A shown window holds an entry for what happened in it, each under its own
/// ids and with its own numbers, and no other.
pub proof fn lemma_a_shown_window_tells_what_happened(j: WindowJson, w: WindowModel)
    requires
        api::shows(j, w),
    ensures
        window_told(j, w),
{
    let (i, r) = (w.index as int, w.resolution_ns as int);
    assert((i + 1) * r == i * r + r) by (nonlinear_arith);
    assert(0 <= i * r) by (nonlinear_arith)
        requires
            0 <= i,
            0 <= r,
    ;
    ordered::lemma_listed_u32(w.calls.dom());
    ordered::lemma_listed_pairs(w.edges.dom());
    ordered::lemma_listed_u32(w.stacks.dom());
    ordered::lemma_listed_u32(w.census.dom());
    let calls = ordered::rising_u32(w.calls.dom());
    let edges = ordered::rising_pairs(w.edges.dom());
    let stacks = ordered::rising_u32(w.stacks.dom());
    let census = ordered::rising_u32(w.census.dom());
    assert forall|k: int| 0 <= k < calls.len() implies w.calls.contains_key(
        #[trigger] calls[k],
    ) by {
        assert(calls.contains(calls[k]));
    }
    assert forall|f: u32| #[trigger] w.calls.contains_key(f) implies exists|k: int|
        0 <= k < j.calls@.len() && (#[trigger] j.calls@[k]).func == f by {
        assert(calls.contains(f));
        let k = choose|k: int| 0 <= k < calls.len() && calls[k] == f;
        assert(j.calls@[k].func == f);
    }
    assert forall|k: int| 0 <= k < stacks.len() implies w.stacks.contains_key(
        #[trigger] stacks[k],
    ) by {
        assert(stacks.contains(stacks[k]));
    }
    assert forall|p: u32| #[trigger] w.stacks.contains_key(p) implies exists|k: int|
        0 <= k < j.stacks@.len() && (#[trigger] j.stacks@[k]).path == p by {
        assert(stacks.contains(p));
        let k = choose|k: int| 0 <= k < stacks.len() && stacks[k] == p;
        assert(j.stacks@[k].path == p);
    }
    assert forall|k: int| 0 <= k < census.len() implies w.census.contains_key(
        #[trigger] census[k],
    ) by {
        assert(census.contains(census[k]));
    }
    assert forall|t: u32| #[trigger] w.census.contains_key(t) implies exists|k: int|
        0 <= k < j.census@.len() && (#[trigger] j.census@[k]).ty == t by {
        assert(census.contains(t));
        let k = choose|k: int| 0 <= k < census.len() && census[k] == t;
        assert(j.census@[k].ty == t);
    }
    assert forall|from: u32, to: u32, calls: u64| #[trigger]
        lists_edge(j.edges@, from, to, calls) <==> w.edges.contains_key((from, to)) && w.edges[(
        from,
        to,
    )] == calls by {
        if lists_edge(j.edges@, from, to, calls) {
            let k = choose|k: int|
                0 <= k < j.edges@.len() && (#[trigger] j.edges@[k]).from == from && j.edges@[k].to
                    == to && j.edges@[k].calls == calls;
            assert(edges.contains(edges[k]));
        }
        if w.edges.contains_key((from, to)) && w.edges[(from, to)] == calls {
            assert(edges.contains((from, to)));
            let k = choose|k: int| 0 <= k < edges.len() && edges[k] == (from, to);
            assert(j.edges@[k].from == from);
        }
    }
    assert forall|a: int, b: int| 0 <= a < b < j.edges@.len() implies {
        let (x, y) = (#[trigger] j.edges@[a], #[trigger] j.edges@[b]);
        x.from < y.from || (x.from == y.from && x.to < y.to)
    } by {
        assert(ordered::pair_less(edges[a], edges[b]));
    }
}

/// A call from one function to another that lands in a window is shown from the
/// one to the other. No other pair is shown that was not before.
pub proof fn lemma_a_landed_edge_is_shown_as_it_was_called(
    w: WindowModel,
    from: u32,
    to: u32,
    calls: u64,
    j: WindowJson,
)
    requires
        api::shows(j, store::folding(w, AppliedModel::Edge { from, to, calls })),
    ensures
        exists|n: u64| n >= calls && #[trigger] lists_edge(j.edges@, from, to, n),
        forall|a: u32, b: u32, n: u64|
            (a, b) != (from, to) ==> (#[trigger] lists_edge(j.edges@, a, b, n)
                <==> w.edges.contains_key((a, b)) && w.edges[(a, b)] == n),
{
    let after = store::folding(w, AppliedModel::Edge { from, to, calls });
    lemma_a_shown_window_tells_what_happened(j, after);
    let n = after.edges[(from, to)];
    assert(lists_edge(j.edges@, from, to, n));
}

/// A message on a stream is of the process it came from, and says what
/// happened: the window that closed, or when the process ended.
pub proof fn lemma_a_message_says_what_happened(m: StreamMessage, id: Seq<char>, u: UpdateModel)
    requires
        api::relays(m, id, u),
    ensures
        match u {
            UpdateModel::WindowClosed(w) => m matches StreamMessage::Window { process_id, window }
                && process_id@ == id && window_told(window, w),
            UpdateModel::ProcessEnded { ended_unix_ms: at } => m matches StreamMessage::ProcessEnded {
                process_id,
                ended_unix_ms,
            } && process_id@ == id && ended_unix_ms == at,
        },
{
    if let StreamMessage::Window { process_id, window } = m {
        if let UpdateModel::WindowClosed(w) = u {
            lemma_a_shown_window_tells_what_happened(window, w);
        }
    }
}

/// The shape says where something was declared, or nothing where that is not
/// known.
pub open spec fn location_told(j: Option<LocationJson>, l: Option<Location>) -> bool {
    &&& j is Some <==> l is Some
    &&& j is Some ==> {
        &&& j.unwrap().file@ == l.unwrap().file@
        &&& j.unwrap().line == l.unwrap().line
        &&& j.unwrap().column == l.unwrap().column
    }
}

/// A bucket is shown with the values it covers.
pub open spec fn bucket_told(b: BucketJson, i: u16, count: u64) -> bool {
    &&& i <= dist::MAX_BUCKET ==> b.lo == dist::bucket_lo(i as int) && b.hi == dist::bucket_hi(
        i as int,
    )
    &&& b.count == count
}

proof fn lemma_a_bucket_is_told(i: u16, count: u64)
    ensures
        bucket_told(api::bucket_of(i, count), i, count),
{
    if i <= dist::MAX_BUCKET {
        dist::lemma_bucket_fits(i as int);
    }
}

/// A histogram is shown bucket by bucket, smallest values first.
pub open spec fn histogram_told(list: Seq<BucketJson>, m: Map<u16, u64>) -> bool {
    let keys = ordered::rising_u16(m.dom());
    &&& ordered::lists_u16(keys, m.dom())
    &&& list.len() == keys.len()
    &&& forall|i: int|
        0 <= i < list.len() ==> bucket_told(#[trigger] list[i], keys[i], m[keys[i]])
}

/// What the contexts of `f` among `ids` spent themselves.
pub open spec fn spent_by(ids: Seq<u32>, paths: Map<u32, PathModel>, spent: Map<u32, u64>, f: u32) -> nat
    decreases ids.len(),
{
    if ids.len() == 0 {
        0
    } else {
        spent_by(ids.drop_last(), paths, spent, f) + if paths.contains_key(ids.last())
            && paths[ids.last()].func == f {
            spent[ids.last()] as nat
        } else {
            0
        }
    }
}

/// What the contexts of `f` spent themselves over the whole lifetime.
pub open spec fn lifetime_self(paths: Map<u32, PathModel>, f: u32) -> nat {
    spent_by(
        ordered::rising_u32(paths.dom()),
        paths,
        paths.map_values(|p: PathModel| p.self_ns),
        f,
    )
}

/// What the contexts of `f` spent themselves in some windows.
pub open spec fn windows_self(ws: Seq<WindowModel>, paths: Map<u32, PathModel>, f: u32) -> nat
    decreases ws.len(),
{
    if ws.len() == 0 {
        0
    } else {
        windows_self(ws.drop_last(), paths, f) + spent_by(
            ordered::rising_u32(ws.last().stacks.dom()),
            paths,
            ws.last().stacks.map_values(|s: StackModel| s.self_ns),
            f,
        )
    }
}

/// The fine windows of the last second, and one at least.
pub open spec fn last_second(p: ProcessModel) -> Seq<WindowModel> {
    let ws = p.fine.windows;
    let whole: int = 1_000_000_000int / p.fine.resolution_ns as int;
    let n = if whole < 1 {
        1
    } else {
        whole
    };
    if ws.len() > n {
        ws.skip(ws.len() - n)
    } else {
        ws
    }
}

/// The shape says what is known of one function.
pub open spec fn function_told(j: FunctionJson, p: ProcessModel, id: u32) -> bool {
    let f = p.ledger.functions[id];
    let ws = last_second(p);
    let (calls, ns, own) = (
        totals::in_windows(ws, Tally::Calls(id)),
        totals::in_windows(ws, Tally::Ns(id)),
        windows_self(ws, p.ledger.paths, id),
    );
    let span = ws.len() * p.fine.resolution_ns;
    &&& p.ledger.functions.contains_key(id)
    &&& j.id == id
    &&& j.name@ == f.name
    &&& j.module is Some <==> f.module is Some
    &&& j.module is Some ==> j.module.unwrap()@ == f.module.unwrap()
    &&& location_told(j.location, f.location)
    &&& j.calls_total == f.calls
    &&& j.ns_total == f.ns_total
    &&& lifetime_self(p.ledger.paths, id) <= u64::MAX ==> j.self_ns_total == lifetime_self(
        p.ledger.paths,
        id,
    )
    &&& calls <= u64::MAX ==> j.calls_per_sec.total == calls
    &&& ns <= u64::MAX ==> j.ns_per_sec.total == ns
    &&& own <= u64::MAX ==> j.self_ns_per_sec.total == own
    &&& span <= u64::MAX ==> j.calls_per_sec.covered_ns == span && j.ns_per_sec.covered_ns == span
        && j.self_ns_per_sec.covered_ns == span
    &&& histogram_told(j.ns_buckets@, f.ns_buckets)
}

proof fn lemma_spent_by(
    ids: Seq<u32>,
    paths: Map<u32, PathModel>,
    amount: spec_fn(u32) -> u64,
    spent: Map<u32, u64>,
    f: u32,
)
    requires
        forall|i: int| 0 <= i < ids.len() ==> amount(#[trigger] ids[i]) == spent[ids[i]],
    ensures
        api::credited(ids, paths, amount, f) == spent_by(ids, paths, spent, f),
    decreases ids.len(),
{
    if ids.len() > 0 {
        let front = ids.drop_last();
        assert forall|i: int| 0 <= i < front.len() implies amount(#[trigger] front[i])
            == spent[front[i]] by {
            assert(front[i] == ids[i]);
        }
        lemma_spent_by(front, paths, amount, spent, f);
        assert(ids.last() == ids[ids.len() - 1]);
    }
}

proof fn lemma_self_over(ws: Seq<WindowModel>, paths: Map<u32, PathModel>, f: u32)
    ensures
        api::self_over(ws, paths, f) == windows_self(ws, paths, f),
    decreases ws.len(),
{
    if ws.len() > 0 {
        lemma_self_over(ws.drop_last(), paths, f);
        let w = ws.last();
        ordered::lemma_listed_u32(w.stacks.dom());
        let ids = ordered::rising_u32(w.stacks.dom());
        let spent = w.stacks.map_values(|s: StackModel| s.self_ns);
        let amount = |id: u32| w.stacks[id].self_ns;
        assert forall|i: int| 0 <= i < ids.len() implies amount(#[trigger] ids[i])
            == spent[ids[i]] by {
            assert(ids.contains(ids[i]));
            assert(w.stacks.contains_key(ids[i]));
        }
        lemma_spent_by(ids, paths, amount, spent, f);
    }
}

proof fn lemma_spent(ws: Seq<WindowModel>, f: u32)
    ensures
        api::spent(ws, f).0 == totals::in_windows(ws, Tally::Calls(f)),
        api::spent(ws, f).1 == totals::in_windows(ws, Tally::Ns(f)),
    decreases ws.len(),
{
    if ws.len() > 0 {
        lemma_spent(ws.drop_last(), f);
    }
}

proof fn lemma_a_histogram_is_told(list: Seq<BucketJson>, m: Map<u16, u64>)
    requires
        list == api::histogram_of(m),
    ensures
        histogram_told(list, m),
{
    ordered::lemma_listed_u16(m.dom());
    let keys = ordered::rising_u16(m.dom());
    assert forall|i: int| 0 <= i < list.len() implies bucket_told(
        #[trigger] list[i],
        keys[i],
        m[keys[i]],
    ) by {
        lemma_a_bucket_is_told(keys[i], m[keys[i]]);
    }
}

proof fn lemma_a_function_is_told(j: FunctionJson, p: ProcessModel, id: u32)
    requires
        p.fine.wf(),
        p.ledger.functions.contains_key(id),
        api::describes(j, p, id),
    ensures
        function_told(j, p, id),
{
    let ws = api::recent(p);
    assert(ws == last_second(p));
    lemma_spent(ws, id);
    lemma_self_over(ws, p.ledger.paths, id);
    let paths = p.ledger.paths;
    ordered::lemma_listed_u32(paths.dom());
    let ids = ordered::rising_u32(paths.dom());
    let spent = paths.map_values(|p: PathModel| p.self_ns);
    let amount = |id: u32| paths[id].self_ns;
    assert forall|i: int| 0 <= i < ids.len() implies amount(#[trigger] ids[i]) == spent[ids[i]] by {
        assert(ids.contains(ids[i]));
        assert(paths.contains_key(ids[i]));
    }
    lemma_spent_by(ids, paths, amount, spent, id);
    lemma_a_histogram_is_told(j.ns_buckets@, p.ledger.functions[id].ns_buckets);
    assert(ws.len() <= p.fine.windows.len() <= p.fine.capacity);
}

/// The shape says what was read of a type.
pub open spec fn census_reading_told(c: CensusJson, m: CensusModel) -> bool {
    &&& c.live == m.live
    &&& c.bytes == m.bytes
    &&& c.at_t_ns == m.at_t_ns
    &&& c.size_buckets@.len() == m.size_buckets.len()
    &&& forall|i: int|
        0 <= i < c.size_buckets@.len() ==> bucket_told(
            #[trigger] c.size_buckets@[i],
            m.size_buckets[i].0,
            m.size_buckets[i].1 as u64,
        )
}

/// The shape says what is known of one type.
pub open spec fn type_told(j: TypeJson, id: u32, t: TypeModel) -> bool {
    &&& j.id == id
    &&& j.name@ == t.name
    &&& location_told(j.location, t.location)
    &&& j.census is Some <==> t.latest is Some
    &&& j.census is Some ==> census_reading_told(j.census.unwrap(), t.latest.unwrap())
}

/// An entry of the list is of the call from one function to the other.
pub open spec fn lists_lifetime_edge(list: Seq<EdgeJson>, from: u32, to: u32, calls: u64) -> bool {
    exists|i: int|
        0 <= i < list.len() && (#[trigger] list[i]).from == from && list[i].to == to
            && list[i].calls_total == calls
}

/// The tree is listed node by node, each under its own id.
pub open spec fn tree_told(list: Seq<PathJson>, m: Map<u32, PathModel>) -> bool {
    &&& forall|i: int|
        0 <= i < list.len() ==> {
            let e = #[trigger] list[i];
            &&& m.contains_key(e.id)
            &&& e.parent == m[e.id].parent
            &&& e.func == m[e.id].func
            &&& e.calls_total == m[e.id].calls
            &&& e.self_ns_total == m[e.id].self_ns
        }
    &&& forall|p: u32| #[trigger]
        m.contains_key(p) ==> exists|i: int| 0 <= i < list.len() && (#[trigger] list[i]).id == p
    &&& forall|i: int, j: int|
        0 <= i < j < list.len() ==> (#[trigger] list[i]).id < (#[trigger] list[j]).id
}

/// The summary says what the process is and how its feed is doing.
pub open spec fn process_told(s: ProcessSummary, p: ProcessModel) -> bool {
    &&& s.id@ == p.id
    &&& s.app@ == p.app
    &&& s.pid == p.pid
    &&& s.source@ == p.source
    &&& s.started_unix_ms == p.started_unix_ms
    &&& s.ended_unix_ms == p.ended_unix_ms
    &&& s.connected <==> p.live_connections > 0
    &&& s.window_ms == p.window_ms
    &&& s.last_frame_unix_ms == p.last_frame_unix_ms
    &&& s.last_t_ns == p.last_t_ns
    &&& s.counts.frames == p.counts.frames
    &&& s.counts.events == p.counts.events
    &&& s.counts.missed_frames == p.counts.missed_frames
    &&& s.counts.late_frames == p.counts.late_frames
    &&& s.counts.unknown_id == p.counts.unknown_id
    &&& s.counts.malformed_lines == p.counts.malformed_lines
    &&& s.counts.functions == p.ledger.functions.len() as u64
    &&& s.counts.types == p.ledger.types.len() as u64
    &&& s.counts.edges == p.ledger.edges.len() as u64
    &&& s.counts.paths == p.ledger.paths.len() as u64
}

/// A summary says of a process what it is, when it came and went, and how many
/// of everything it has sent, lost and named.
pub proof fn lemma_a_summary_tells_of_its_process(s: ProcessSummary, p: ProcessModel)
    requires
        api::summarises(s, p),
    ensures
        process_told(s, p),
{
}

/// The windows that a snapshot of a process shows.
pub open spec fn windows_asked_for(p: ProcessModel, view: SnapshotView) -> Seq<WindowModel> {
    let ws = if view.resolution == Resolution::Coarse {
        p.coarse.windows
    } else {
        p.fine.windows
    };
    if ws.len() > view.limit {
        ws.skip(ws.len() - view.limit)
    } else {
        ws
    }
}

/// A snapshot tells everything known of a process: each function, type and
/// context once, under its own id and with its own numbers; each edge from the
/// caller to the callee; and as many of the newest windows of the ring asked for
/// as the limit allows, oldest first.
pub proof fn lemma_a_snapshot_tells_all(
    s: Snapshot,
    p: ProcessModel,
    taken: u64,
    view: SnapshotView,
)
    requires
        p.wf(),
        api::portrays(s, p, taken, view),
    ensures
        process_told(s.process, p),
        s.taken_unix_ms == taken,
        s.rate_window_ms == 1_000,
        s.resolution@ == if view.resolution == Resolution::Coarse {
            "coarse"@
        } else {
            "fine"@
        },
        s.resolution_ms == (if view.resolution == Resolution::Coarse {
            p.coarse.resolution_ns
        } else {
            p.fine.resolution_ns
        }) / 1_000_000,
        s.resolution_capacity == if view.resolution == Resolution::Coarse {
            p.coarse.capacity
        } else {
            p.fine.capacity
        },
        s.fine_window_ms == p.fine.resolution_ns / 1_000_000,
        s.fine_window_capacity == p.fine.capacity,
        forall|i: int|
            0 <= i < s.functions@.len() ==> function_told(
                #[trigger] s.functions@[i],
                p,
                s.functions@[i].id,
            ),
        forall|f: u32| #[trigger]
            p.ledger.functions.contains_key(f) ==> exists|i: int|
                0 <= i < s.functions@.len() && (#[trigger] s.functions@[i]).id == f,
        forall|i: int, j: int|
            0 <= i < j < s.functions@.len() ==> (#[trigger] s.functions@[i]).id < (
            #[trigger] s.functions@[j]).id,
        forall|i: int|
            0 <= i < s.types@.len() ==> p.ledger.types.contains_key((#[trigger] s.types@[i]).id)
                && type_told(s.types@[i], s.types@[i].id, p.ledger.types[s.types@[i].id]),
        forall|t: u32| #[trigger]
            p.ledger.types.contains_key(t) ==> exists|i: int|
                0 <= i < s.types@.len() && (#[trigger] s.types@[i]).id == t,
        forall|i: int, j: int|
            0 <= i < j < s.types@.len() ==> (#[trigger] s.types@[i]).id < (
            #[trigger] s.types@[j]).id,
        forall|from: u32, to: u32, calls: u64| #[trigger]
            lists_lifetime_edge(s.edges@, from, to, calls) <==> p.ledger.edges.contains_key(
                (from, to),
            ) && p.ledger.edges[(from, to)] == calls,
        s.edges@.len() == p.ledger.edges.dom().len() || !p.ledger.edges.dom().finite(),
        tree_told(s.paths@, p.ledger.paths),
        s.windows@.len() == windows_asked_for(p, view).len(),
        forall|i: int|
            0 <= i < s.windows@.len() ==> window_told(
                #[trigger] s.windows@[i],
                windows_asked_for(p, view)[i],
            ),
{
    let l = p.ledger;
    lemma_functions_told(s, p, taken, view);
    lemma_types_told(s, p, taken, view);
    lemma_edges_told(s, p, taken, view);
    lemma_tree_told(s, p, taken, view);
    let shown = windows_asked_for(p, view);
    assert(shown == ring::last_of(api::ring_of(p, view.resolution).windows, view.limit as nat));
    assert forall|i: int| 0 <= i < s.windows@.len() implies window_told(
        #[trigger] s.windows@[i],
        shown[i],
    ) by {
        lemma_a_shown_window_tells_what_happened(s.windows@[i], shown[i]);
    }
}

proof fn lemma_functions_told(s: Snapshot, p: ProcessModel, taken: u64, view: SnapshotView)
    requires
        p.wf(),
        api::portrays(s, p, taken, view),
    ensures
        forall|i: int|
            0 <= i < s.functions@.len() ==> function_told(
                #[trigger] s.functions@[i],
                p,
                s.functions@[i].id,
            ),
        forall|f: u32| #[trigger]
            p.ledger.functions.contains_key(f) ==> exists|i: int|
                0 <= i < s.functions@.len() && (#[trigger] s.functions@[i]).id == f,
        forall|i: int, j: int|
            0 <= i < j < s.functions@.len() ==> (#[trigger] s.functions@[i]).id < (
            #[trigger] s.functions@[j]).id,
{
    ordered::lemma_listed_u32(p.ledger.functions.dom());
    let ids = ordered::rising_u32(p.ledger.functions.dom());
    assert forall|i: int| 0 <= i < s.functions@.len() implies function_told(
        #[trigger] s.functions@[i],
        p,
        s.functions@[i].id,
    ) by {
        assert(ids.contains(ids[i]));
        assert(api::describes(s.functions@[i], p, ids[i]));
        lemma_a_function_is_told(s.functions@[i], p, ids[i]);
    }
    assert forall|f: u32| #[trigger] p.ledger.functions.contains_key(f) implies exists|i: int|
        0 <= i < s.functions@.len() && (#[trigger] s.functions@[i]).id == f by {
        assert(ids.contains(f));
        let i = choose|i: int| 0 <= i < ids.len() && ids[i] == f;
        assert(api::describes(s.functions@[i], p, ids[i]));
    }
    assert forall|i: int, j: int| 0 <= i < j < s.functions@.len() implies (
    #[trigger] s.functions@[i]).id < (#[trigger] s.functions@[j]).id by {
        assert(api::describes(s.functions@[i], p, ids[i]));
        assert(api::describes(s.functions@[j], p, ids[j]));
    }
}

proof fn lemma_types_told(s: Snapshot, p: ProcessModel, taken: u64, view: SnapshotView)
    requires
        api::portrays(s, p, taken, view),
    ensures
        forall|i: int|
            0 <= i < s.types@.len() ==> p.ledger.types.contains_key((#[trigger] s.types@[i]).id)
                && type_told(s.types@[i], s.types@[i].id, p.ledger.types[s.types@[i].id]),
        forall|t: u32| #[trigger]
            p.ledger.types.contains_key(t) ==> exists|i: int|
                0 <= i < s.types@.len() && (#[trigger] s.types@[i]).id == t,
        forall|i: int, j: int|
            0 <= i < j < s.types@.len() ==> (#[trigger] s.types@[i]).id < (
            #[trigger] s.types@[j]).id,
{
    ordered::lemma_listed_u32(p.ledger.types.dom());
    let ids = ordered::rising_u32(p.ledger.types.dom());
    assert forall|i: int| 0 <= i < s.types@.len() implies p.ledger.types.contains_key(
        (#[trigger] s.types@[i]).id,
    ) && type_told(s.types@[i], s.types@[i].id, p.ledger.types[s.types@[i].id]) by {
        assert(ids.contains(ids[i]));
        let t = p.ledger.types[ids[i]];
        assert(api::tells(s.types@[i], ids[i], t));
        if let Some(m) = t.latest {
            let c = s.types@[i].census.unwrap();
            assert forall|k: int| 0 <= k < c.size_buckets@.len() implies bucket_told(
                #[trigger] c.size_buckets@[k],
                m.size_buckets[k].0,
                m.size_buckets[k].1 as u64,
            ) by {
                lemma_a_bucket_is_told(m.size_buckets[k].0, m.size_buckets[k].1 as u64);
            }
        }
    }
    assert forall|t: u32| #[trigger] p.ledger.types.contains_key(t) implies exists|i: int|
        0 <= i < s.types@.len() && (#[trigger] s.types@[i]).id == t by {
        assert(ids.contains(t));
        let i = choose|i: int| 0 <= i < ids.len() && ids[i] == t;
        assert(api::tells(s.types@[i], ids[i], p.ledger.types[ids[i]]));
    }
    assert forall|i: int, j: int| 0 <= i < j < s.types@.len() implies (
    #[trigger] s.types@[i]).id < (#[trigger] s.types@[j]).id by {
        assert(api::tells(s.types@[i], ids[i], p.ledger.types[ids[i]]));
        assert(api::tells(s.types@[j], ids[j], p.ledger.types[ids[j]]));
    }
}

proof fn lemma_edges_told(s: Snapshot, p: ProcessModel, taken: u64, view: SnapshotView)
    requires
        api::portrays(s, p, taken, view),
    ensures
        forall|from: u32, to: u32, calls: u64| #[trigger]
            lists_lifetime_edge(s.edges@, from, to, calls) <==> p.ledger.edges.contains_key(
                (from, to),
            ) && p.ledger.edges[(from, to)] == calls,
        s.edges@.len() == p.ledger.edges.dom().len() || !p.ledger.edges.dom().finite(),
{
    let m = p.ledger.edges;
    ordered::lemma_listed_pairs(m.dom());
    let keys = ordered::rising_pairs(m.dom());
    assert forall|from: u32, to: u32, calls: u64| #[trigger]
        lists_lifetime_edge(s.edges@, from, to, calls) <==> m.contains_key((from, to)) && m[(
        from,
        to,
    )] == calls by {
        if lists_lifetime_edge(s.edges@, from, to, calls) {
            let k = choose|k: int|
                0 <= k < s.edges@.len() && (#[trigger] s.edges@[k]).from == from && s.edges@[k].to
                    == to && s.edges@[k].calls_total == calls;
            assert(keys.contains(keys[k]));
        }
        if m.contains_key((from, to)) && m[(from, to)] == calls {
            assert(keys.contains((from, to)));
            let k = choose|k: int| 0 <= k < keys.len() && keys[k] == (from, to);
            assert(s.edges@[k].from == from);
        }
    }
    assert(keys.no_duplicates()) by {
        assert forall|i: int, j: int| 0 <= i < keys.len() && 0 <= j < keys.len() && i
            != j implies keys[i] != keys[j] by {
            if i < j {
                assert(ordered::pair_less(keys[i], keys[j]));
            } else {
                assert(ordered::pair_less(keys[j], keys[i]));
            }
        }
    }
    keys.unique_seq_to_set();
    assert(keys.to_set() =~= m.dom());
}

proof fn lemma_tree_told(s: Snapshot, p: ProcessModel, taken: u64, view: SnapshotView)
    requires
        api::portrays(s, p, taken, view),
    ensures
        tree_told(s.paths@, p.ledger.paths),
{
    let m = p.ledger.paths;
    ordered::lemma_listed_u32(m.dom());
    let ids = ordered::rising_u32(m.dom());
    assert forall|k: int| 0 <= k < ids.len() implies m.contains_key(#[trigger] ids[k]) by {
        assert(ids.contains(ids[k]));
    }
    assert forall|q: u32| #[trigger] m.contains_key(q) implies exists|k: int|
        0 <= k < s.paths@.len() && (#[trigger] s.paths@[k]).id == q by {
        assert(ids.contains(q));
        let k = choose|k: int| 0 <= k < ids.len() && ids[k] == q;
        assert(s.paths@[k].id == q);
    }
}

/// The shape says of an entry what the session does.
pub open spec fn member_told(j: MemberJson, m: MemberModel) -> bool {
    &&& j.process_id@ == m.process_id
    &&& j.source@ == m.source
    &&& j.started_unix_ms == m.started_unix_ms
    &&& j.ended_unix_ms == m.ended_unix_ms
    &&& j.connected == m.connected
    &&& j.last_frame_unix_ms == m.last_frame_unix_ms
    &&& m.feed == Feed::Memory ==> j.feed@ == "memory"@
    &&& m.feed == Feed::Cpu ==> j.feed@ == "cpu"@
}

/// A shown session names its program and says of each of its entries, in its own
/// place, what the entry says.
pub proof fn lemma_a_shown_session_tells_its_entries(j: SessionJson, s: SessionModel)
    requires
        api::presents(j, s),
    ensures
        j.id@ == s.id,
        j.app@ == s.app,
        j.pid == s.pid,
        j.connected <==> (s.cpu is Some && s.cpu.unwrap().connected) || (s.memory is Some
            && s.memory.unwrap().connected),
        j.cpu is Some <==> s.cpu is Some,
        j.cpu is Some ==> member_told(j.cpu.unwrap(), s.cpu.unwrap()),
        j.memory is Some <==> s.memory is Some,
        j.memory is Some ==> member_told(j.memory.unwrap(), s.memory.unwrap()),
        j.superseded@.len() == s.superseded.len(),
        forall|i: int|
            0 <= i < s.superseded.len() ==> member_told(
                #[trigger] j.superseded@[i],
                s.superseded[i],
            ),
{
}

} // verus!
