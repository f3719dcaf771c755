//! What a frame does to what the daemon keeps, by what the frame holds.
use vstd::prelude::*;

use crate::dist;
use crate::dist::Dist;
use crate::proto::{Event, Frame, Hello, Register};
use crate::registry;
use crate::ring;
use crate::ring::{RingModel, WindowModel};
use crate::store;
use crate::store::{AppliedModel, Counts, Ledger, PathModel, ProcessModel, UpdateModel};
use crate::totals;
use crate::totals::Tally;

verus! {

/// How many samples a histogram holds in a bucket.
pub open spec fn samples_at(m: Map<u16, u64>, i: u16) -> u64 {
    if m.contains_key(i) {
        m[i]
    } else {
        0
    }
}

/// A sum, held at the largest count.
pub open spec fn up_to_largest(n: int) -> u64 {
    if n > u64::MAX {
        u64::MAX
    } else {
        n as u64
    }
}

proof fn lemma_buckets_are_added(m: Map<u16, u64>, b: Seq<(u16, u32)>, i: u16)
    ensures
        samples_at(store::plus_buckets(m, b), i) == up_to_largest(
            samples_at(m, i) + dist::tally(b, i),
        ),
    decreases b.len(),
{
    if b.len() > 0 {
        lemma_buckets_are_added(m, b.drop_last(), i);
    }
}

proof fn lemma_tally_of_collapsed(s: Seq<(u16, u32)>, i: u16)
    ensures
        dist::tally(dist::collapsed(s), i) == dist::clamp32(dist::tally(s, i)),
{
    let r = dist::collapsed(s);
    dist::lemma_entries_collapse(s);
    if dist::names(r, i) {
        let k = choose|k: int| 0 <= k < r.len() && (#[trigger] r[k]).0 == i;
        dist::lemma_tally_of_ascending(r, k);
    } else {
        dist::lemma_tally_of_absent(r, i);
        assert(!dist::names(s, i));
        dist::lemma_tally_of_absent(s, i);
    }
}

/// How many of the values lie in a bucket's range.
pub open spec fn values_in(v: Seq<u64>, i: u16) -> nat
    decreases v.len(),
{
    if v.len() == 0 {
        0
    } else {
        values_in(v.drop_last(), i) + if i <= dist::MAX_BUCKET && dist::bucket_lo(i as int)
            <= v.last() <= dist::bucket_hi(i as int) {
            1nat
        } else {
            0
        }
    }
}

/// A raw sample is tallied in the bucket whose range it lies in, and in no other.
pub proof fn lemma_samples_are_tallied_where_they_lie(v: Seq<u64>, i: u16)
    ensures
        dist::tally(dist::sample_entries(v), i) == values_in(v, i),
    decreases v.len(),
{
    if v.len() > 0 {
        let front = v.drop_last();
        lemma_samples_are_tallied_where_they_lie(front, i);
        assert(dist::sample_entries(v).drop_last() =~= dist::sample_entries(front));
        dist::lemma_every_value_has_a_bucket(v.last());
        if i <= dist::MAX_BUCKET && dist::bucket_lo(i as int) <= v.last() <= dist::bucket_hi(
            i as int,
        ) {
            assert(dist::covers(i as int, v.last() as int));
            dist::lemma_bucket_unique(
                i as int,
                dist::bucket_index(v.last()) as int,
                v.last() as int,
            );
        }
    }
}

/// A calls event adds its samples to the lifetime histogram of its function,
/// each to its own bucket: whatever the bucket, the count afterwards is the count
/// before and the samples of the event in that bucket. No other function's
/// histogram changes.
pub proof fn lemma_a_histogram_gains_every_sample_in_its_bucket(
    l: Ledger,
    e: Event,
    t_ns: u64,
    i: u16,
    other: u32,
)
    requires
        e is Calls,
        l.functions.contains_key(e->Calls_func.0),
    ensures
        ({
            let f = e->Calls_func.0;
            let after = l.absorbing(e, t_ns);
            let samples = dist::tally(e->ns.entries(), i);
            &&& samples <= u32::MAX ==> samples_at(after.functions[f].ns_buckets, i)
                == up_to_largest(samples_at(l.functions[f].ns_buckets, i) + samples)
            &&& samples > u32::MAX ==> samples_at(after.functions[f].ns_buckets, i)
                == up_to_largest(samples_at(l.functions[f].ns_buckets, i) + u32::MAX)
            &&& other != f && l.functions.contains_key(other) ==> after.functions[other]
                == l.functions[other]
            &&& e->ns matches Dist::Raw { v } ==> samples == values_in(v@, i)
        }),
{
    let f = e->Calls_func.0;
    let entries = e->ns.entries();
    lemma_buckets_are_added(l.functions[f].ns_buckets, dist::collapsed(entries), i);
    lemma_tally_of_collapsed(entries, i);
    if let Dist::Raw { v } = e->ns {
        lemma_samples_are_tallied_where_they_lie(v@, i);
    }
}

/// What the values come to, first to last.
pub open spec fn added_up(v: Seq<u64>) -> nat
    decreases v.len(),
{
    if v.len() == 0 {
        0
    } else {
        v[0] as nat + added_up(v.skip(1))
    }
}

proof fn lemma_added_up(v: Seq<u64>)
    ensures
        dist::sum_of(v) == added_up(v),
    decreases v.len(),
{
    if v.len() > 1 {
        let (rest, front) = (v.skip(1), v.drop_last());
        lemma_added_up(rest);
        lemma_added_up(front);
        assert(rest.drop_last() =~= front.skip(1));
        lemma_added_up(rest.drop_last());
        assert(rest.last() == v.last());
        assert(dist::sum_of(rest) == dist::sum_of(rest.drop_last()) + v.last());
        assert(added_up(front) == v[0] + added_up(front.skip(1)));
    } else if v.len() == 1 {
        assert(added_up(v.skip(1)) == 0);
        assert(dist::sum_of(v.drop_last()) == 0);
    }
}

/// The time of raw samples is exactly what they add up to.
pub proof fn lemma_raw_time_is_exact(ns: Dist)
    requires
        ns is Raw,
    ensures
        store::elapsed(ns) == up_to_largest(added_up(ns->v@) as int),
{
    lemma_added_up(ns->v@);
}

/// An event changes what it names and nothing else. Calls and contexts add to
/// their own counters, and an activation of a context adds to the edge from the
/// function above it to its own. An edge counts from its caller to its callee,
/// unless there is a tree to read it off. A census stands where none was taken
/// later.
pub proof fn lemma_an_event_changes_what_it_names(l: Ledger, e: Event, t_ns: u64)
    ensures
        ({
            let after = l.absorbing(e, t_ns);
            match e {
                Event::Calls { func, count, ns } => {
                    let f = func.0;
                    &&& after.types == l.types && after.paths == l.paths && after.edges == l.edges
                    &&& after.functions.dom() == l.functions.dom()
                    &&& forall|g: u32|
                        g != f && #[trigger] l.functions.contains_key(g) ==> after.functions[g]
                            == l.functions[g]
                    &&& l.functions.contains_key(f) ==> {
                        let (was, is) = (l.functions[f], after.functions[f]);
                        &&& is.calls == up_to_largest(was.calls + count)
                        &&& is.ns_total == up_to_largest(was.ns_total + store::elapsed(ns))
                        &&& is.name == was.name && is.module == was.module && is.location
                            == was.location
                    }
                },
                Event::Edge { from, to, count } => {
                    let pair = (from.0, to.0);
                    let counts = l.functions.contains_key(from.0) && l.functions.contains_key(
                        to.0,
                    ) && !exists|p: u32| #[trigger] l.paths.contains_key(p);
                    &&& after.functions == l.functions && after.types == l.types && after.paths
                        == l.paths
                    &&& !counts ==> after.edges == l.edges
                    &&& counts ==> after.edges.contains_key(pair) && after.edges[pair]
                        == up_to_largest(
                        count + if l.edges.contains_key(pair) {
                            l.edges[pair] as int
                        } else {
                            0
                        },
                    )
                    &&& forall|q: (u32, u32)|
                        q != pair ==> (#[trigger] after.edges.contains_key(q)
                            <==> l.edges.contains_key(q)) && (l.edges.contains_key(q)
                            ==> after.edges[q] == l.edges[q])
                },
                Event::Stack { path, count, self_ns } => {
                    let p = path.0;
                    &&& after.functions == l.functions && after.types == l.types
                    &&& after.paths.dom() == l.paths.dom()
                    &&& forall|q: u32|
                        q != p && #[trigger] l.paths.contains_key(q) ==> after.paths[q]
                            == l.paths[q]
                    &&& !l.paths.contains_key(p) ==> after.edges == l.edges
                    &&& l.paths.contains_key(p) ==> {
                        let (was, is) = (l.paths[p], after.paths[p]);
                        &&& is.parent == was.parent && is.func == was.func && is.attributed
                        &&& is.calls == up_to_largest(was.calls + count)
                        &&& is.self_ns == up_to_largest(was.self_ns + self_ns)
                        &&& was.parent == 0 ==> after.edges == l.edges
                        &&& was.parent != 0 && l.paths.contains_key(was.parent) ==> {
                            let pair = (l.paths[was.parent].func, was.func);
                            &&& after.edges.contains_key(pair)
                            &&& after.edges[pair] == up_to_largest(
                                count + if l.edges.contains_key(pair) {
                                    l.edges[pair] as int
                                } else {
                                    0
                                },
                            )
                            &&& forall|q: (u32, u32)|
                                q != pair ==> (#[trigger] after.edges.contains_key(q)
                                    <==> l.edges.contains_key(q)) && (l.edges.contains_key(q)
                                    ==> after.edges[q] == l.edges[q])
                        }
                    }
                },
                Event::Census { ty, live, bytes, sizes } => {
                    let t = ty.0;
                    &&& after.functions == l.functions && after.paths == l.paths && after.edges
                        == l.edges
                    &&& after.types.dom() == l.types.dom()
                    &&& forall|u: u32|
                        u != t && #[trigger] l.types.contains_key(u) ==> after.types[u]
                            == l.types[u]
                    &&& l.types.contains_key(t) ==> {
                        let (was, is) = (l.types[t], after.types[t]);
                        &&& is.name == was.name && is.location == was.location
                        &&& was.latest is Some && was.latest.unwrap().at_t_ns > t_ns ==> is.latest
                            == was.latest
                        &&& was.latest is None || was.latest.unwrap().at_t_ns <= t_ns ==> {
                            &&& is.latest is Some
                            &&& is.latest.unwrap().live == live
                            &&& is.latest.unwrap().bytes == bytes
                            &&& is.latest.unwrap().at_t_ns == t_ns
                            &&& dist::folds(is.latest.unwrap().size_buckets, sizes.entries())
                        }
                    }
                },
            }
        }),
{
    let after = l.absorbing(e, t_ns);
    assert(after.functions.dom() =~= l.functions.dom());
    assert(after.paths.dom() =~= l.paths.dom());
    assert(after.types.dom() =~= l.types.dom());
    if let Event::Census { sizes, .. } = e {
        dist::lemma_entries_collapse(sizes.entries());
    }
    if let Event::Edge { .. } = e {
        if l.paths == Map::<u32, PathModel>::empty() {
            assert(forall|p: u32| !#[trigger] l.paths.contains_key(p));
        } else {
            if forall|p: u32| !#[trigger] l.paths.contains_key(p) {
                assert(l.paths =~= Map::<u32, PathModel>::empty());
            }
        }
    }
}

/// An event that is accepted lands in a window as what it names: calls under
/// their function, an edge from caller to callee, a context under its id with the
/// edge into it, a census under its type. Everything else in the window stays.
pub proof fn lemma_an_event_lands_as_what_it_names(
    l: Ledger,
    e: Event,
    t_ns: u64,
    w: WindowModel,
    q: Tally,
)
    requires
        l.outcome(e, t_ns) is Some,
    ensures
        ({
            let after = store::folding(w, l.outcome(e, t_ns).unwrap());
            let was = totals::in_window(w, q);
            let is = totals::in_window(after, q);
            match e {
                Event::Calls { func, count, ns } => {
                    &&& q == Tally::Calls(func.0) ==> is == up_to_largest(was + count)
                    &&& q == Tally::Ns(func.0) ==> is == up_to_largest(was + store::elapsed(ns))
                    &&& q != Tally::Calls(func.0) && q != Tally::Ns(func.0) ==> is == was
                    &&& after.census == w.census
                },
                Event::Edge { from, to, count } => {
                    &&& q == Tally::Edge(from.0, to.0) ==> is == up_to_largest(was + count)
                    &&& q != Tally::Edge(from.0, to.0) ==> is == was
                    &&& after.census == w.census
                },
                Event::Stack { path, count, self_ns } => {
                    let p = l.paths[path.0];
                    let into = if p.parent != 0 && l.paths.contains_key(p.parent) {
                        Some(Tally::Edge(l.paths[p.parent].func, p.func))
                    } else {
                        None
                    };
                    &&& q == Tally::Activations(path.0) ==> is == up_to_largest(was + count)
                    &&& q == Tally::SelfNs(path.0) ==> is == up_to_largest(was + self_ns)
                    &&& Some(q) == into ==> is == up_to_largest(was + count)
                    &&& q != Tally::Activations(path.0) && q != Tally::SelfNs(path.0) && Some(q)
                        != into ==> is == was
                    &&& after.census == w.census
                },
                Event::Census { ty, live, bytes, .. } => {
                    &&& is == was
                    &&& after.census.contains_key(ty.0)
                    &&& w.census.contains_key(ty.0) && w.census[ty.0].at_t_ns > t_ns
                        ==> after.census[ty.0] == w.census[ty.0]
                    &&& !(w.census.contains_key(ty.0) && w.census[ty.0].at_t_ns > t_ns)
                        ==> after.census[ty.0].live == live && after.census[ty.0].bytes == bytes
                        && after.census[ty.0].at_t_ns == t_ns
                    &&& forall|t: u32|
                        t != ty.0 && #[trigger] w.census.contains_key(t)
                            ==> after.census.contains_key(t) && after.census[t] == w.census[t]
                },
            }
        }),
{
}

/// An event is accepted where every id it names is registered; an edge is not
/// where there is a tree to read it off.
pub proof fn lemma_which_events_are_accepted(l: Ledger, e: Event, t_ns: u64)
    ensures
        l.outcome(e, t_ns) is Some <==> match e {
            Event::Calls { func, .. } => l.functions.contains_key(func.0),
            Event::Edge { from, to, .. } => l.functions.contains_key(from.0)
                && l.functions.contains_key(to.0) && forall|p: u32|
                !#[trigger] l.paths.contains_key(p),
            Event::Stack { path, .. } => l.paths.contains_key(path.0),
            Event::Census { ty, .. } => l.types.contains_key(ty.0),
        },
{
    if forall|p: u32| !#[trigger] l.paths.contains_key(p) {
        assert(l.paths =~= Map::<u32, PathModel>::empty());
    }
}

/// A registration enters what it says under its id, keeps whatever was counted
/// there, and changes nothing else. A context is entered where its function is
/// registered and it hangs off the root or off a registered context numbered
/// below it, unless something has been counted under its id as another.
pub proof fn lemma_a_registration_is_entered_under_its_id(l: Ledger, r: Register)
    ensures
        ({
            let after = l.registering(r);
            match r {
                Register::Function { id, name, module, location } => {
                    let f = after.functions[id.0];
                    &&& after.functions.contains_key(id.0)
                    &&& f.name == name@
                    &&& f.module is Some <==> module is Some
                    &&& module is Some ==> f.module.unwrap() == module.unwrap()@
                    &&& f.location == location
                    &&& l.functions.contains_key(id.0) ==> f.calls == l.functions[id.0].calls
                        && f.ns_total == l.functions[id.0].ns_total && f.ns_buckets
                        == l.functions[id.0].ns_buckets
                    &&& !l.functions.contains_key(id.0) ==> f.calls == 0 && f.ns_total == 0
                        && forall|i: u16| !#[trigger] f.ns_buckets.contains_key(i)
                    &&& forall|g: u32|
                        g != id.0 ==> (#[trigger] after.functions.contains_key(g)
                            <==> l.functions.contains_key(g)) && (l.functions.contains_key(g)
                            ==> after.functions[g] == l.functions[g])
                    &&& after.types == l.types && after.paths == l.paths && after.edges == l.edges
                },
                Register::Type { id, name, location } => {
                    let t = after.types[id.0];
                    &&& after.types.contains_key(id.0)
                    &&& t.name == name@
                    &&& t.location == location
                    &&& l.types.contains_key(id.0) ==> t.latest == l.types[id.0].latest
                    &&& !l.types.contains_key(id.0) ==> t.latest is None
                    &&& forall|u: u32|
                        u != id.0 ==> (#[trigger] after.types.contains_key(u)
                            <==> l.types.contains_key(u)) && (l.types.contains_key(u)
                            ==> after.types[u] == l.types[u])
                    &&& after.functions == l.functions && after.paths == l.paths && after.edges
                        == l.edges
                },
                Register::Path { id, parent, func } => {
                    let settled_otherwise = l.paths.contains_key(id.0) && l.paths[id.0].attributed
                        && (l.paths[id.0].parent != parent.0 || l.paths[id.0].func != func.0);
                    let entered = l.functions.contains_key(func.0) && parent.0 < id.0 && (parent.0
                        == 0 || l.paths.contains_key(parent.0)) && !settled_otherwise;
                    let p = after.paths[id.0];
                    &&& l.refuses(r) <==> !entered
                    &&& !entered ==> after == l
                    &&& entered ==> {
                        &&& after.paths.contains_key(id.0)
                        &&& p.parent == parent.0
                        &&& p.func == func.0
                        &&& l.paths.contains_key(id.0) ==> p.calls == l.paths[id.0].calls
                            && p.self_ns == l.paths[id.0].self_ns && p.attributed
                            == l.paths[id.0].attributed
                        &&& !l.paths.contains_key(id.0) ==> p.calls == 0 && p.self_ns == 0
                            && !p.attributed
                        &&& forall|q: u32|
                            q != id.0 ==> (#[trigger] after.paths.contains_key(q)
                                <==> l.paths.contains_key(q)) && (l.paths.contains_key(q)
                                ==> after.paths[q] == l.paths[q])
                        &&& after.functions == l.functions && after.types == l.types
                            && after.edges == l.edges
                    }
                },
            }
        }),
{
    if let Register::Path { .. } = r {
        if l.refuses(r) {
            assert(l.registering(r) =~= l);
        }
    }
}

/// What one registration and one event add to the counts: an id that is not
/// known, or a context that is refused, counts as unknown; every event counts as
/// one; nothing else moves.
pub proof fn lemma_what_is_dropped_is_counted(p: ProcessModel, r: Register, e: Event, t_ns: u64)
    ensures
        ({
            let after = p.registering(r);
            &&& after.counts.unknown_id == up_to_largest(
                p.counts.unknown_id + if p.ledger.refuses(r) {
                    1int
                } else {
                    0
                },
            )
            &&& after.counts == (Counts { unknown_id: after.counts.unknown_id, ..p.counts })
            &&& after.ledger == p.ledger.registering(r)
        }),
        ({
            let after = p.absorbing(e, t_ns);
            let unknown = match e {
                Event::Calls { func, .. } => !p.ledger.functions.contains_key(func.0),
                Event::Edge { from, to, .. } => !p.ledger.functions.contains_key(from.0)
                    || !p.ledger.functions.contains_key(to.0),
                Event::Stack { path, .. } => !p.ledger.paths.contains_key(path.0),
                Event::Census { ty, .. } => !p.ledger.types.contains_key(ty.0),
            };
            &&& after.counts.unknown_id == up_to_largest(
                p.counts.unknown_id + if unknown {
                    1int
                } else {
                    0
                },
            )
            &&& after.counts.events == up_to_largest(p.counts.events + 1)
            &&& after.counts == (Counts {
                unknown_id: after.counts.unknown_id,
                events: after.counts.events,
                ..p.counts
            })
        }),
{
}

proof fn lemma_registering_counts(p: ProcessModel, rs: Seq<Register>)
    ensures
        ({
            let after = p.registering_all(rs);
            after.counts == (Counts { unknown_id: after.counts.unknown_id, ..p.counts })
        }),
    decreases rs.len(),
{
    if rs.len() > 0 {
        lemma_registering_counts(p, rs.drop_last());
    }
}

proof fn lemma_absorbing_counts(p: ProcessModel, es: Seq<Event>, t_ns: u64)
    ensures
        ({
            let after = p.absorbing_all(es, t_ns);
            &&& after.counts.events == up_to_largest(p.counts.events + es.len())
            &&& after.counts == (Counts {
                unknown_id: after.counts.unknown_id,
                events: after.counts.events,
                ..p.counts
            })
        }),
    decreases es.len(),
{
    if es.len() > 0 {
        lemma_absorbing_counts(p, es.drop_last(), t_ns);
    }
}

/// A frame is counted once and each of its events once, the frames that its
/// number shows to be missing are counted, and the newest time heard of is kept.
pub proof fn lemma_a_frame_is_counted(p: ProcessModel, frame: Frame, now: u64)
    ensures
        ({
            let after = p.receiving(frame, now);
            &&& after.counts.frames == up_to_largest(p.counts.frames + 1)
            &&& after.counts.events == up_to_largest(p.counts.events + frame.events@.len())
            &&& after.counts.malformed_lines == p.counts.malformed_lines
            &&& p.last_seq is None ==> after.counts.missed_frames == p.counts.missed_frames
            &&& p.last_seq is Some ==> after.counts.missed_frames == up_to_largest(
                p.counts.missed_frames + if frame.seq > p.last_seq.unwrap() + 1 {
                    frame.seq - p.last_seq.unwrap() - 1
                } else {
                    0
                },
            )
            &&& after.last_seq == Some(frame.seq)
            &&& after.last_t_ns == if frame.t_ns > p.last_t_ns {
                frame.t_ns
            } else {
                p.last_t_ns
            }
            &&& after.last_frame_unix_ms == Some(now)
            &&& after.window_ms == p.window_ms
            &&& after.open_fine_index == Some(
                if p.open_fine_index is Some && p.open_fine_index.unwrap() >= frame.t_ns
                    / p.fine.resolution_ns {
                    p.open_fine_index.unwrap()
                } else {
                    frame.t_ns / p.fine.resolution_ns
                },
            )
        }),
{
    let t = frame.t_ns;
    let heard = p.hearing(frame.seq, t, now);
    store::lemma_registering_leaves_the_rest(heard, frame.registers@);
    lemma_registering_counts(heard, frame.registers@);
    let ready = heard.registering_all(frame.registers@).opening(t);
    store::lemma_absorbing_leaves_the_rest(ready, frame.events@, t);
    lemma_absorbing_counts(ready, frame.events@, t);
}

/// What a ring holds of a tally in the window of a given number.
pub open spec fn in_numbered(r: RingModel, index: u64, q: Tally) -> u64 {
    if exists|i: int| 0 <= i < r.windows.len() && (#[trigger] r.windows[i]).index == index {
        let i = choose|i: int| 0 <= i < r.windows.len() && (#[trigger] r.windows[i]).index == index;
        totals::in_window(r.windows[i], q)
    } else {
        0
    }
}

proof fn lemma_numbered(r: RingModel, index: u64, q: Tally)
    requires
        r.wf(),
    ensures
        r.holds(index) ==> in_numbered(r, index, q) == totals::in_window(
            r.windows[r.offset_of(index)],
            q,
        ),
        !r.holds(index) ==> in_numbered(r, index, q) == 0,
{
    if r.holds(index) {
        assert(r.windows[r.offset_of(index)].index == index);
    }
    if exists|i: int| 0 <= i < r.windows.len() && (#[trigger] r.windows[i]).index == index {
        let i = choose|i: int| 0 <= i < r.windows.len() && (#[trigger] r.windows[i]).index == index;
        assert(r.windows[i].index == r.windows[0].index + i);
    }
}

/// What lands in a ring is in the window that spans its instant: afterwards that
/// window holds what it held before and all that landed, and it is the window
/// numbered by how many whole windows have passed.
pub proof fn lemma_what_lands_is_in_the_window_of_its_instant(
    r: RingModel,
    t_ns: u64,
    applied: Seq<AppliedModel>,
    q: Tally,
)
    requires
        r.wf(),
        r.windows.len() > 0 ==> t_ns as int / r.resolution_ns as int >= r.windows[0].index,
        in_numbered(r, (t_ns / r.resolution_ns) as u64, q) + totals::gain(applied, q)
            <= u64::MAX,
    ensures
        ({
            let index = (t_ns / r.resolution_ns) as u64;
            let after = store::landing(r, t_ns, applied);
            &&& exists|i: int|
                0 <= i < after.windows.len() && (#[trigger] after.windows[i]).index == index
                    && after.windows[i].resolution_ns == r.resolution_ns
            &&& in_numbered(after, index, q) == in_numbered(r, index, q) + totals::gain(
                applied,
                q,
            )
            &&& after.resolution_ns == r.resolution_ns
            &&& after.capacity == r.capacity
            &&& after.windows.len() <= r.capacity
        }),
{
    let index = r.index_of(t_ns);
    ring::lemma_reaching_keeps_the_axis_contiguous(r, index);
    store::lemma_landing_keeps_the_axis_contiguous(r, t_ns, applied);
    let reached = r.reaching(index);
    let after = store::landing(r, t_ns, applied);
    lemma_numbered(r, index, q);
    let at = reached.offset_of(index);
    let w = reached.windows[at];
    assert(w.index == index);
    if r.holds(index) {
        ring::lemma_reaching_keeps_what_is_held(r, index, index);
    } else {
        lemma_reached_is_blank(r, index);
    }
    totals::lemma_a_window_gains_what_lands_in_it(w, applied, q);
    store::lemma_folding_stays_in_place(w, applied);
    assert(after.windows[at] == store::folding_all(w, applied));
    assert(after.windows[at].index == index);
    assert(after.windows[0].index == reached.windows[0].index);
    lemma_numbered(after, index, q);
}

proof fn lemma_reached_is_blank(r: RingModel, index: u64)
    requires
        r.wf(),
        !r.too_late(index),
        !r.holds(index),
    ensures
        r.reaching(index).holds(index),
        r.reaching(index).windows[r.reaching(index).offset_of(index)] == ring::blank(
            index,
            r.resolution_ns,
        ),
{
    ring::lemma_reaching_keeps_the_axis_contiguous(r, index);
    if let Some(newest) = r.newest() {
        assert(newest == r.windows[0].index + r.windows.len() - 1);
        if index > newest && index - newest < r.capacity {
            let all = r.windows + ring::idle(newest, index, r.resolution_ns);
            let kept = r.reaching(index).windows;
            assert(all.last() == ring::blank(index, r.resolution_ns));
            assert(kept.last() == all.last());
        }
    }
}

/// The number of samples is one for each raw value, and for buckets what each
/// entry says, added up.
pub proof fn lemma_every_sample_is_counted(v: Seq<u64>, s: Seq<(u16, u32)>, i: u16, n: u32)
    ensures
        dist::total(dist::sample_entries(v)) == v.len(),
        dist::total(Seq::empty()) == 0,
        dist::total(s.push((i, n))) == dist::total(s) + n,
{
    dist::lemma_total_of_samples(v);
    assert(s.push((i, n)).drop_last() =~= s);
}

/// The time of a histogram lies in the range that its samples can add up to,
/// unless that is past the largest count.
pub proof fn lemma_bucketed_time_lies_in_range(ns: Dist)
    requires
        ns is Buckets,
        forall|k: int| 0 <= k < ns->b@.len() ==> (#[trigger] ns->b@[k]).0 <= dist::MAX_BUCKET,
        crate::sending::range_of(dist::collapsed(ns->b@)).1 <= u64::MAX,
    ensures
        ({
            let (least, most) = crate::sending::range_of(dist::collapsed(ns->b@));
            least <= store::elapsed(ns) <= most
        }),
{
    let (b, r) = (ns->b@, dist::collapsed(ns->b@));
    dist::lemma_entries_collapse(b);
    assert forall|k: int| 0 <= k < r.len() implies (#[trigger] r[k]).0 <= dist::MAX_BUCKET by {
        assert(dist::names(r, r[k].0));
        assert(dist::names(b, r[k].0));
        let j = choose|j: int| 0 <= j < b.len() && (#[trigger] b[j]).0 == r[k].0;
        assert(b[j].0 <= dist::MAX_BUCKET);
    }
    crate::sending::lemma_an_estimate_lies_in_range(r);
}

/// A frame is late where the fine ring holds windows and all of them are of later
/// instants than the frame.
pub proof fn lemma_which_frames_are_late(p: ProcessModel, frame: Frame, now: u64)
    requires
        p.fine.wf(),
        p.counts.late_frames < u64::MAX,
    ensures
        ({
            let index = frame.t_ns as int / p.fine.resolution_ns as int;
            let late = p.fine.windows.len() > 0 && forall|i: int|
                0 <= i < p.fine.windows.len() ==> (#[trigger] p.fine.windows[i]).index > index;
            p.receiving(frame, now).counts.late_frames == p.counts.late_frames + if late {
                1int
            } else {
                0
            }
        }),
{
    store::lemma_every_late_frame_is_counted(p, frame, now);
    let index = p.fine.index_of(frame.t_ns);
    if p.fine.too_late(index) {
        assert forall|i: int| 0 <= i < p.fine.windows.len() implies (
        #[trigger] p.fine.windows[i]).index > index by {
            assert(p.fine.windows[i].index == p.fine.windows[0].index + i);
        }
    }
}

/// An id is the pid, the start and the source, with dashes between them.
pub proof fn lemma_an_id_is_pid_start_and_source(pid: u32, started: u64, source: Seq<char>)
    ensures
        store::process_id(pid, started, source) == crate::text::decimal(pid as nat) + seq!['-']
            + crate::text::decimal(started as nat) + seq!['-'] + source,
{
    assert(store::process_id(pid, started, source) =~= crate::text::decimal(pid as nat) + seq!['-']
        + crate::text::decimal(started as nat) + seq!['-'] + source);
}

/// A ring that reaches an instant holds the stretch that ends there, or at what
/// it already reached, as far back as it has room. Every window of that stretch
/// it held before is as it was, and those it did not hold are blank. It holds no
/// other.
pub proof fn lemma_a_ring_holds_the_latest_stretch(r: RingModel, index: u64, x: u64)
    requires
        r.wf(),
        r.windows.len() > 0,
        index >= r.windows[0].index,
    ensures
        ({
            let newest = r.windows[r.windows.len() - 1].index;
            let upto = if index > newest {
                index
            } else {
                newest
            };
            let after = r.reaching(index);
            let numbered = exists|i: int|
                0 <= i < after.windows.len() && (#[trigger] after.windows[i]).index == x;
            &&& numbered ==> x <= upto && x + r.capacity > upto
            &&& r.windows[0].index <= x <= newest && x + r.capacity > upto ==> numbered
                && after.find(x) == Some(r.windows[x - r.windows[0].index])
            &&& newest < x <= index && index - newest < r.capacity && x + r.capacity > upto
                ==> numbered && after.find(x) == Some(ring::blank(x, r.resolution_ns))
            &&& index - newest >= r.capacity ==> after.windows == seq![
                ring::blank(index, r.resolution_ns),
            ]
        }),
{
    let newest = r.newest().unwrap();
    assert(newest == r.windows[0].index + r.windows.len() - 1);
    let after = r.reaching(index);
    ring::lemma_reaching_keeps_the_axis_contiguous(r, index);
    assert forall|i: int| 0 <= i < after.windows.len() implies (#[trigger] after.windows[i]).index
        == after.windows[0].index + i by {}
    if index > newest && index - newest < r.capacity {
        let all = r.windows + ring::idle(newest, index, r.resolution_ns);
        let kept = after.windows;
        let skipped = all.len() - kept.len();
        assert forall|i: int| 0 <= i < kept.len() implies kept[i] == all[i + skipped] by {}
        assert(all.len() == index - r.windows[0].index + 1);
        assert(kept[0] == all[skipped]);
        assert(kept[0].index == r.windows[0].index + skipped) by {
            if skipped < r.windows.len() {
                assert(all[skipped] == r.windows[skipped]);
            }
        }
        let at = x - r.windows[0].index - skipped;
        if 0 <= at < kept.len() {
            assert(kept[at].index == x);
            assert(kept[at] == all[at + skipped]);
            if at + skipped < r.windows.len() {
                assert(all[at + skipped] == r.windows[at + skipped]);
            }
        }
    } else if index <= newest {
        let at = x - r.windows[0].index;
        if 0 <= at < r.windows.len() {
            assert(r.windows[at].index == x);
        }
    } else {
        assert(after.windows[0].index == index);
    }
}

/// Something happened in the window.
pub open spec fn eventful(w: WindowModel) -> bool {
    ||| exists|f: u32| #[trigger] w.calls.contains_key(f)
    ||| exists|q: (u32, u32)| #[trigger] w.edges.contains_key(q)
    ||| exists|p: u32| #[trigger] w.stacks.contains_key(p)
    ||| exists|t: u32| #[trigger] w.census.contains_key(t)
}

proof fn lemma_eventful(w: WindowModel)
    ensures
        w.nothing_happened() <==> !eventful(w),
{
    if !eventful(w) {
        assert(w =~= ring::blank(w.index, w.resolution_ns));
    }
}

/// A window is pushed when a frame of a later one arrives, exactly as it stands,
/// and only where something happened in it.
pub proof fn lemma_a_window_is_pushed_when_time_moves_on(p: ProcessModel, t_ns: u64)
    requires
        p.fine.wf(),
    ensures
        p.closing(t_ns) matches Some(w) ==> {
            &&& p.open_fine_index == Some(w.index)
            &&& t_ns as int / p.fine.resolution_ns as int > w.index
            &&& p.fine.windows.contains(w)
            &&& eventful(w)
        },
        p.closing(t_ns) is None ==> p.open_fine_index is None || t_ns as int
            / p.fine.resolution_ns as int <= p.open_fine_index.unwrap() || forall|i: int|
            0 <= i < p.fine.windows.len() && (#[trigger] p.fine.windows[i]).index
                == p.open_fine_index.unwrap() ==> !eventful(p.fine.windows[i]),
{
    if let Some(open) = p.open_fine_index {
        if p.fine.holds(open) {
            let w = p.fine.windows[p.fine.offset_of(open)];
            assert(w.index == open);
            lemma_eventful(w);
            assert(p.fine.windows.contains(w));
        }
        assert forall|i: int| 0 <= i < p.fine.windows.len() && (
        #[trigger] p.fine.windows[i]).index == open implies i == p.fine.offset_of(open) by {
            assert(p.fine.windows[i].index == p.fine.windows[0].index + i);
        }
    }
}

/// A connection that opens makes the process live and takes the greeting's word
/// for what it is called. One that closes leaves the rest live, and the last one
/// marks the process ended then.
pub proof fn lemma_connections_come_and_go(p: ProcessModel, hello: Hello, now: u64)
    ensures
        ({
            let live = p.greeting(hello);
            &&& live.app == hello.app@
            &&& live.source == hello.source@
            &&& live.window_ms == hello.window_ms
            &&& live.ended_unix_ms is None
            &&& live.live_connections >= 1
            &&& p.live_connections < u32::MAX ==> live.live_connections == p.live_connections + 1
            &&& live.id == p.id && live.pid == p.pid && live.started_unix_ms == p.started_unix_ms
            &&& live.ledger == p.ledger && live.fine == p.fine && live.coarse == p.coarse
            &&& live.counts == p.counts && live.last_seq == p.last_seq && live.last_t_ns
                == p.last_t_ns && live.last_frame_unix_ms == p.last_frame_unix_ms
                && live.open_fine_index == p.open_fine_index
        }),
        p.live_connections > 1 ==> p.parting(now) == (ProcessModel {
            live_connections: (p.live_connections - 1) as u32,
            ..p
        }) && p.farewell(now).len() == 0,
        p.live_connections <= 1 ==> p.parting(now) == (ProcessModel {
            live_connections: 0,
            ended_unix_ms: Some(now),
            open_fine_index: None,
            ..p
        }) && p.farewell(now).len() > 0 && p.farewell(now).last() == (
        UpdateModel::ProcessEnded { ended_unix_ms: now }),
{
}

/// The last thing a process did is pushed before it is said to have ended: the
/// open window, exactly as it stands, where something happened in it.
pub proof fn lemma_a_process_has_its_last_word(p: ProcessModel, now: u64)
    requires
        p.fine.wf(),
        p.live_connections <= 1,
    ensures
        p.farewell(now).len() <= 2,
        p.farewell(now).len() == 2 ==> (p.farewell(now)[0] matches UpdateModel::WindowClosed(w)
            && p.open_fine_index == Some(w.index) && p.fine.windows.contains(w) && eventful(w)),
        p.farewell(now).len() == 1 ==> p.open_fine_index is None || forall|i: int|
            0 <= i < p.fine.windows.len() && (#[trigger] p.fine.windows[i]).index
                == p.open_fine_index.unwrap() ==> !eventful(p.fine.windows[i]),
{
    if let Some(open) = p.open_fine_index {
        if p.fine.holds(open) {
            let w = p.fine.windows[p.fine.offset_of(open)];
            assert(w.index == open);
            lemma_eventful(w);
            assert(p.fine.windows.contains(w));
        }
        assert forall|i: int| 0 <= i < p.fine.windows.len() && (
        #[trigger] p.fine.windows[i]).index == open implies i == p.fine.offset_of(open) by {
            assert(p.fine.windows[i].index == p.fine.windows[0].index + i);
        }
    }
}

/// A process that has just been admitted is what its greeting says, with nothing
/// counted, a minute of tenths of a second and a quarter of an hour of seconds to
/// come.
pub proof fn lemma_a_new_process_is_what_it_says(id: Seq<char>, hello: Hello)
    ensures
        ({
            let p = ProcessModel::fresh(id, hello);
            &&& p.id == id
            &&& p.app == hello.app@
            &&& p.pid == hello.pid
            &&& p.source == hello.source@
            &&& p.started_unix_ms == hello.started_unix_ms
            &&& p.window_ms == hello.window_ms
            &&& p.ended_unix_ms is None
            &&& p.last_seq is None
            &&& p.last_frame_unix_ms is None
            &&& p.last_t_ns == 0
            &&& p.open_fine_index is None
            &&& p.live_connections == 0
            &&& p.counts.frames == 0 && p.counts.events == 0 && p.counts.unknown_id == 0
                && p.counts.malformed_lines == 0 && p.counts.missed_frames == 0
                && p.counts.late_frames == 0
            &&& totals::silent(p)
            &&& p.fine.resolution_ns == 100_000_000 && p.fine.capacity == 600
            &&& p.coarse.resolution_ns == 1_000_000_000 && p.coarse.capacity == 900
        }),
{
}

/// A greeting is entered under `{pid}-{started_unix_ms}-{source}`, and the
/// process of that id then says what the greeting does and is connected.
pub proof fn lemma_a_greeting_is_entered(
    before: Seq<ProcessModel>,
    after: Seq<ProcessModel>,
    hello: Hello,
)
    requires
        registry::admitted(before, after, hello),
    ensures
        exists|i: int|
            0 <= i < after.len() && (#[trigger] after[i]).id == store::process_id(
                hello.pid,
                hello.started_unix_ms,
                hello.source@,
            ) && after[i].app == hello.app@ && after[i].source == hello.source@
                && after[i].window_ms == hello.window_ms && after[i].live_connections > 0
                && after[i].ended_unix_ms is None,
{
    let id = registry::announced(hello);
    if registry::listed(before, id) {
        let i = choose|i: int|
            #[trigger] registry::goes_by(before, i, id) && after == before.update(
                i,
                before[i].greeting(hello),
            );
        assert(after[i].id == id);
    } else {
        let k = choose|k: int|
            0 <= k <= before.len() && after == #[trigger] before.insert(
                k,
                ProcessModel::fresh(id, hello).greeting(hello),
            );
        assert(after[k] == ProcessModel::fresh(id, hello).greeting(hello));
    }
}

/// A connection that closes changes the process it was of, and no other, and only
/// its watchers are told.
pub proof fn lemma_a_release_changes_one_process(
    before: Seq<ProcessModel>,
    after: Seq<ProcessModel>,
    id: Seq<char>,
    now: u64,
    told: Seq<UpdateModel>,
    i: int,
)
    requires
        registry::sound(before),
        registry::released(before, after, id, now, told),
        0 <= i < before.len(),
    ensures
        after.len() == before.len(),
        before[i].id != id ==> after[i] == before[i],
        before[i].id == id ==> after[i] == before[i].parting(now) && told == before[i].farewell(
            now,
        ),
        (forall|k: int| 0 <= k < before.len() ==> (#[trigger] before[k]).id != id) ==> told.len()
            == 0,
{
    if registry::listed(before, id) {
        let k = choose|k: int|
            #[trigger] registry::goes_by(before, k, id) && after == before.update(
                k,
                before[k].parting(now),
            ) && told == before[k].farewell(now);
        if before[i].id == id {
            assert(registry::goes_by(before, i, id));
            registry::lemma_an_id_names_one_process(before, i, k, id);
        }
    } else {
        assert(!registry::goes_by(before, i, id));
    }
}

} // verus!
