//! Lifetime totals against the windows they arrived in.
//!
//! A delta is added twice, to the lifetime total behind its id and to the window
//! of its instant in either ring. While neither ring has let anything go, the
//! two are one number reached two ways. A census is the exception: it is read,
//! never added.
use vstd::prelude::*;

use crate::proto::{Event, Frame, Register};
use crate::quantity;
use crate::ring;
use crate::ring::{CensusModel, RingModel, WindowModel};
use crate::store;
use crate::store::{AppliedModel, Ledger, ProcessModel};

verus! {

/// One count that a process keeps, by what it counts.
pub enum Tally {
    /// Calls of a function.
    Calls(u32),
    /// Nanoseconds spent in a function.
    Ns(u32),
    /// Calls from one function to another.
    Edge(u32, u32),
    /// Activations of a context.
    Activations(u32),
    /// Nanoseconds spent in a context itself.
    SelfNs(u32),
}

/// What one thing that came of an event adds to a tally.
pub open spec fn gained(a: AppliedModel, q: Tally) -> u64 {
    match q {
        Tally::Calls(f) => match a {
            AppliedModel::Calls { func, calls, .. } if func == f => calls,
            _ => 0,
        },
        Tally::Ns(f) => match a {
            AppliedModel::Calls { func, ns, .. } if func == f => ns,
            _ => 0,
        },
        Tally::Edge(x, y) => match a {
            AppliedModel::Edge { from, to, calls } if (from, to) == (x, y) => calls,
            AppliedModel::Stack { edge, calls, .. } if edge == Some((x, y)) => calls,
            _ => 0,
        },
        Tally::Activations(p) => match a {
            AppliedModel::Stack { path, calls, .. } if path == p => calls,
            _ => 0,
        },
        Tally::SelfNs(p) => match a {
            AppliedModel::Stack { path, self_ns, .. } if path == p => self_ns,
            _ => 0,
        },
    }
}

/// What all of them add.
pub open spec fn gain(applied: Seq<AppliedModel>, q: Tally) -> int
    decreases applied.len(),
{
    if applied.len() == 0 {
        0
    } else {
        gain(applied.drop_last(), q) + gained(applied.last(), q)
    }
}

/// What a window says of a tally.
pub open spec fn in_window(w: WindowModel, q: Tally) -> u64 {
    match q {
        Tally::Calls(f) => match ring::held(w.calls, f) {
            Some(d) => d.calls,
            None => 0,
        },
        Tally::Ns(f) => match ring::held(w.calls, f) {
            Some(d) => d.ns,
            None => 0,
        },
        Tally::Edge(x, y) => match ring::held(w.edges, (x, y)) {
            Some(c) => c,
            None => 0,
        },
        Tally::Activations(p) => match ring::held(w.stacks, p) {
            Some(d) => d.calls,
            None => 0,
        },
        Tally::SelfNs(p) => match ring::held(w.stacks, p) {
            Some(d) => d.self_ns,
            None => 0,
        },
    }
}

/// What the windows say of it together.
pub open spec fn in_windows(ws: Seq<WindowModel>, q: Tally) -> int
    decreases ws.len(),
{
    if ws.len() == 0 {
        0
    } else {
        in_windows(ws.drop_last(), q) + in_window(ws.last(), q)
    }
}

/// The lifetime total.
pub open spec fn in_total(l: Ledger, q: Tally) -> u64 {
    match q {
        Tally::Calls(f) => match ring::held(l.functions, f) {
            Some(s) => s.calls,
            None => 0,
        },
        Tally::Ns(f) => match ring::held(l.functions, f) {
            Some(s) => s.ns_total,
            None => 0,
        },
        Tally::Edge(x, y) => match ring::held(l.edges, (x, y)) {
            Some(c) => c,
            None => 0,
        },
        Tally::Activations(p) => match ring::held(l.paths, p) {
            Some(s) => s.calls,
            None => 0,
        },
        Tally::SelfNs(p) => match ring::held(l.paths, p) {
            Some(s) => s.self_ns,
            None => 0,
        },
    }
}

/// What comes of a frame's events, those the process accepts.
pub open spec fn came_of(p: ProcessModel, frame: Frame, now: u64) -> Seq<AppliedModel> {
    p.hearing(frame.seq, frame.t_ns, now).registering_all(frame.registers@).opening(
        frame.t_ns,
    ).outcomes(frame.events@, frame.t_ns)
}

/// A process once it has heard every frame, each at its own time.
pub open spec fn heard(p: ProcessModel, frames: Seq<(Frame, u64)>) -> ProcessModel
    decreases frames.len(),
{
    if frames.len() == 0 {
        p
    } else {
        heard(p, frames.drop_last()).receiving(frames.last().0, frames.last().1)
    }
}

/// What the accepted events of every frame add to a tally.
pub open spec fn accepted(p: ProcessModel, frames: Seq<(Frame, u64)>, q: Tally) -> int
    decreases frames.len(),
{
    if frames.len() == 0 {
        0
    } else {
        let before = frames.drop_last();
        accepted(p, before, q) + gain(
            came_of(heard(p, before), frames.last().0, frames.last().1),
            q,
        )
    }
}

/// An instant the ring has a place for without letting a window go.
pub open spec fn has_room(r: RingModel, t_ns: u64) -> bool {
    r.windows.len() > 0 ==> 0 <= r.index_of(t_ns) - r.windows[0].index < r.capacity
}

/// No frame that anything came of was late, and none pushed a window out of
/// either ring.
pub open spec fn nothing_lost(p: ProcessModel, frames: Seq<(Frame, u64)>) -> bool
    decreases frames.len(),
{
    if frames.len() == 0 {
        true
    } else {
        let before = heard(p, frames.drop_last());
        let (frame, now) = frames.last();
        &&& nothing_lost(p, frames.drop_last())
        &&& came_of(before, frame, now).len() > 0 ==> has_room(before.fine, frame.t_ns)
            && has_room(before.coarse, frame.t_ns)
    }
}

/// A process nothing has been heard of yet.
pub open spec fn silent(p: ProcessModel) -> bool {
    &&& p.ledger == Ledger::blank()
    &&& p.fine.windows.len() == 0
    &&& p.coarse.windows.len() == 0
}

proof fn lemma_a_registration_adds_nothing(l: Ledger, r: Register, q: Tally)
    ensures
        in_total(l.registering(r), q) == in_total(l, q),
{
}

proof fn lemma_registrations_add_nothing(p: ProcessModel, rs: Seq<Register>, q: Tally)
    ensures
        in_total(p.registering_all(rs).ledger, q) == in_total(p.ledger, q),
    decreases rs.len(),
{
    if rs.len() > 0 {
        lemma_registrations_add_nothing(p, rs.drop_last(), q);
        lemma_a_registration_adds_nothing(
            p.registering_all(rs.drop_last()).ledger,
            rs.last(),
            q,
        );
    }
}

proof fn lemma_an_event_adds_what_came_of_it(l: Ledger, e: Event, t_ns: u64, q: Tally)
    ensures
        in_total(l.absorbing(e, t_ns), q) == match l.outcome(e, t_ns) {
            Some(a) => quantity::capped(in_total(l, q), gained(a, q)),
            None => in_total(l, q),
        },
{
}

proof fn lemma_events_add_what_came_of_them(
    p: ProcessModel,
    es: Seq<Event>,
    t_ns: u64,
    q: Tally,
)
    requires
        in_total(p.absorbing_all(es, t_ns).ledger, q) < u64::MAX,
    ensures
        in_total(p.absorbing_all(es, t_ns).ledger, q) == in_total(p.ledger, q) + gain(
            p.outcomes(es, t_ns),
            q,
        ),
    decreases es.len(),
{
    if es.len() > 0 {
        let front = es.drop_last();
        let l = p.absorbing_all(front, t_ns).ledger;
        lemma_an_event_adds_what_came_of_it(l, es.last(), t_ns, q);
        lemma_events_add_what_came_of_them(p, front, t_ns, q);
        if let Some(a) = l.outcome(es.last(), t_ns) {
            assert(p.outcomes(es, t_ns).drop_last() =~= p.outcomes(front, t_ns));
        }
    }
}

proof fn lemma_gain_is_no_loss(applied: Seq<AppliedModel>, q: Tally)
    ensures
        gain(applied, q) >= 0,
    decreases applied.len(),
{
    if applied.len() > 0 {
        lemma_gain_is_no_loss(applied.drop_last(), q);
    }
}

pub(crate) proof fn lemma_a_window_gains_what_lands_in_it(w: WindowModel, applied: Seq<AppliedModel>, q: Tally)
    requires
        in_window(w, q) + gain(applied, q) <= u64::MAX,
    ensures
        in_window(store::folding_all(w, applied), q) == in_window(w, q) + gain(applied, q),
    decreases applied.len(),
{
    if applied.len() > 0 {
        let front = applied.drop_last();
        lemma_a_window_gains_what_lands_in_it(w, front, q);
        let here = store::folding_all(w, front);
        assert(in_window(store::folding(here, applied.last()), q) == quantity::capped(
            in_window(here, q),
            gained(applied.last(), q),
        ));
    }
}

proof fn lemma_windows_side_by_side(a: Seq<WindowModel>, b: Seq<WindowModel>, q: Tally)
    ensures
        in_windows(a + b, q) == in_windows(a, q) + in_windows(b, q),
    decreases b.len(),
{
    if b.len() == 0 {
        assert(a + b =~= a);
    } else {
        lemma_windows_side_by_side(a, b.drop_last(), q);
        assert((a + b).drop_last() =~= a + b.drop_last());
    }
}

proof fn lemma_blank_windows_hold_nothing(ws: Seq<WindowModel>, q: Tally)
    requires
        forall|i: int|
            0 <= i < ws.len() ==> #[trigger] ws[i] == ring::blank(
                ws[i].index,
                ws[i].resolution_ns,
            ),
    ensures
        in_windows(ws, q) == 0,
    decreases ws.len(),
{
    if ws.len() > 0 {
        let front = ws.drop_last();
        assert forall|i: int| 0 <= i < front.len() implies #[trigger] front[i] == ring::blank(
            front[i].index,
            front[i].resolution_ns,
        ) by {
            assert(front[i] == ws[i]);
        }
        lemma_blank_windows_hold_nothing(front, q);
        assert(ws.last() == ws[ws.len() - 1]);
    }
}

/// One window replaced changes the sum by what it changed.
proof fn lemma_one_window_changes(ws: Seq<WindowModel>, at: int, w: WindowModel, q: Tally)
    requires
        0 <= at < ws.len(),
    ensures
        in_windows(ws.update(at, w), q) == in_windows(ws, q) - in_window(ws[at], q) + in_window(
            w,
            q,
        ),
    decreases ws.len(),
{
    if at == ws.len() - 1 {
        assert(ws.update(at, w).drop_last() =~= ws.drop_last());
    } else {
        assert(ws.update(at, w).drop_last() =~= ws.drop_last().update(at, w));
        lemma_one_window_changes(ws.drop_last(), at, w, q);
    }
}

proof fn lemma_a_window_is_no_more_than_the_sum(ws: Seq<WindowModel>, at: int, q: Tally)
    requires
        0 <= at < ws.len(),
    ensures
        0 <= in_window(ws[at], q) <= in_windows(ws, q),
    decreases ws.len(),
{
    lemma_the_sum_is_no_debt(ws.drop_last(), q);
    if at < ws.len() - 1 {
        lemma_a_window_is_no_more_than_the_sum(ws.drop_last(), at, q);
    }
}

proof fn lemma_the_sum_is_no_debt(ws: Seq<WindowModel>, q: Tally)
    ensures
        in_windows(ws, q) >= 0,
    decreases ws.len(),
{
    if ws.len() > 0 {
        lemma_the_sum_is_no_debt(ws.drop_last(), q);
    }
}

/// Reaching for a window there is room for adds idle windows and lets none go.
proof fn lemma_reaching_adds_nothing(r: RingModel, index: u64, q: Tally)
    requires
        r.wf(),
        r.windows.len() > 0 ==> 0 <= index - r.windows[0].index < r.capacity,
    ensures
        in_windows(r.reaching(index).windows, q) == in_windows(r.windows, q),
{
    match r.newest() {
        None => {
            assert(r.windows =~= Seq::empty());
            lemma_blank_windows_hold_nothing(r.reaching(index).windows, q);
        },
        Some(newest) => {
            assert(newest == r.windows[0].index + r.windows.len() - 1);
            if index > newest {
                let between = ring::idle(newest, index, r.resolution_ns);
                assert(r.reaching(index).windows == r.windows + between);
                lemma_windows_side_by_side(r.windows, between, q);
                lemma_blank_windows_hold_nothing(between, q);
            }
        },
    }
}

proof fn lemma_a_ring_gains_what_lands_in_it(
    r: RingModel,
    t_ns: u64,
    applied: Seq<AppliedModel>,
    q: Tally,
)
    requires
        r.wf(),
        has_room(r, t_ns),
        in_windows(r.windows, q) + gain(applied, q) <= u64::MAX,
    ensures
        in_windows(store::landing(r, t_ns, applied).windows, q) == in_windows(r.windows, q) + gain(
            applied,
            q,
        ),
{
    let index = r.index_of(t_ns);
    let reached = r.reaching(index);
    ring::lemma_reaching_keeps_the_axis_contiguous(r, index);
    lemma_reaching_adds_nothing(r, index, q);
    let at = reached.offset_of(index);
    lemma_a_window_is_no_more_than_the_sum(reached.windows, at, q);
    lemma_a_window_gains_what_lands_in_it(reached.windows[at], applied, q);
    lemma_one_window_changes(
        reached.windows,
        at,
        store::folding_all(reached.windows[at], applied),
        q,
    );
}

/// Lifetime totals are the sum of the deltas that were accepted, and equally the
/// sum of the windows of either ring, for as long as no frame was late, no
/// window has left a ring and no total has reached the largest count.
pub proof fn lemma_totals_are_the_sum_of_the_windows(
    p: ProcessModel,
    frames: Seq<(Frame, u64)>,
    q: Tally,
)
    requires
        p.wf(),
        silent(p),
        nothing_lost(p, frames),
        in_total(heard(p, frames).ledger, q) < u64::MAX,
    ensures
        heard(p, frames).wf(),
        in_total(heard(p, frames).ledger, q) == accepted(p, frames, q),
        in_total(heard(p, frames).ledger, q) == in_windows(heard(p, frames).fine.windows, q),
        in_total(heard(p, frames).ledger, q) == in_windows(heard(p, frames).coarse.windows, q),
    decreases frames.len(),
{
    if frames.len() > 0 {
        let front = frames.drop_last();
        let before = heard(p, front);
        let (frame, now) = frames.last();
        let t = frame.t_ns;
        let named = before.hearing(frame.seq, t, now).registering_all(frame.registers@);
        let ready = named.opening(t);
        let applied = came_of(before, frame, now);
        store::lemma_receiving_is_made_of(before, frame, now);
        lemma_registrations_add_nothing(before.hearing(frame.seq, t, now), frame.registers@, q);
        lemma_events_add_what_came_of_them(ready, frame.events@, t, q);
        lemma_gain_is_no_loss(applied, q);
        lemma_totals_are_the_sum_of_the_windows(p, front, q);
        store::lemma_receiving_keeps_the_process_sound(before, frame, now);
        if applied.len() > 0 {
            lemma_a_ring_gains_what_lands_in_it(before.fine, t, applied, q);
            lemma_a_ring_gains_what_lands_in_it(before.coarse, t, applied, q);
        }
    }
}

/// The readings of a type among what came of some events, in their order.
pub open spec fn read(applied: Seq<AppliedModel>, of: u32) -> Seq<CensusModel>
    decreases applied.len(),
{
    if applied.len() == 0 {
        Seq::empty()
    } else {
        let before = read(applied.drop_last(), of);
        match applied.last() {
            AppliedModel::Census { ty, reading } if ty == of => before.push(reading),
            _ => before,
        }
    }
}

/// The readings of a type that were accepted of every frame, in their order.
pub open spec fn readings(p: ProcessModel, frames: Seq<(Frame, u64)>, of: u32) -> Seq<CensusModel>
    decreases frames.len(),
{
    if frames.len() == 0 {
        Seq::empty()
    } else {
        let before = frames.drop_last();
        readings(p, before, of) + read(
            came_of(heard(p, before), frames.last().0, frames.last().1),
            of,
        )
    }
}

/// What stands of a type's census.
pub open spec fn latest(l: Ledger, ty: u32) -> Option<CensusModel> {
    match ring::held(l.types, ty) {
        Some(t) => t.latest,
        None => None,
    }
}

/// The reading is one of those taken, and none was taken later.
pub open spec fn newest_of(taken: Seq<CensusModel>, m: Option<CensusModel>) -> bool {
    match m {
        Some(m) => taken.contains(m) && forall|i: int|
            0 <= i < taken.len() ==> (#[trigger] taken[i]).at_t_ns <= m.at_t_ns,
        None => taken.len() == 0,
    }
}

proof fn lemma_registrations_read_nothing(p: ProcessModel, rs: Seq<Register>, ty: u32)
    ensures
        latest(p.registering_all(rs).ledger, ty) == latest(p.ledger, ty),
    decreases rs.len(),
{
    if rs.len() > 0 {
        lemma_registrations_read_nothing(p, rs.drop_last(), ty);
    }
}

proof fn lemma_the_newest_reading_stands(
    p: ProcessModel,
    es: Seq<Event>,
    t_ns: u64,
    ty: u32,
    taken: Seq<CensusModel>,
)
    requires
        newest_of(taken, latest(p.ledger, ty)),
    ensures
        newest_of(
            taken + read(p.outcomes(es, t_ns), ty),
            latest(p.absorbing_all(es, t_ns).ledger, ty),
        ),
    decreases es.len(),
{
    if es.len() == 0 {
        assert(taken + read(p.outcomes(es, t_ns), ty) =~= taken);
    } else {
        let front = es.drop_last();
        lemma_the_newest_reading_stands(p, front, t_ns, ty, taken);
        let l = p.absorbing_all(front, t_ns).ledger;
        let so_far = taken + read(p.outcomes(front, t_ns), ty);
        let now = taken + read(p.outcomes(es, t_ns), ty);
        match l.outcome(es.last(), t_ns) {
            Some(a) => {
                assert(p.outcomes(es, t_ns).drop_last() =~= p.outcomes(front, t_ns));
                if let AppliedModel::Census { ty: of, reading } = a {
                    if of == ty {
                        assert(now =~= so_far.push(reading));
                        assert(now[so_far.len() as int] == reading);
                        if let Some(m) = latest(l, ty) {
                            let i = choose|i: int| 0 <= i < so_far.len() && so_far[i] == m;
                            assert(now[i] == m);
                        }
                        assert forall|i: int| 0 <= i < so_far.len() implies now[i]
                            == #[trigger] so_far[i] by {}
                    } else {
                        assert(now == so_far);
                    }
                } else {
                    assert(now == so_far);
                }
            },
            None => {
                assert(now == so_far);
            },
        }
    }
}

/// A census is read, never summed: what stands of a type is one of the readings
/// that were accepted, and none of them was taken later.
pub proof fn lemma_the_latest_census_is_one_that_was_read(
    p: ProcessModel,
    frames: Seq<(Frame, u64)>,
    ty: u32,
)
    requires
        silent(p),
    ensures
        newest_of(readings(p, frames, ty), latest(heard(p, frames).ledger, ty)),
    decreases frames.len(),
{
    if frames.len() > 0 {
        let front = frames.drop_last();
        let before = heard(p, front);
        let (frame, now) = frames.last();
        let t = frame.t_ns;
        let told = before.hearing(frame.seq, t, now);
        lemma_the_latest_census_is_one_that_was_read(p, front, ty);
        lemma_registrations_read_nothing(told, frame.registers@, ty);
        lemma_the_newest_reading_stands(
            told.registering_all(frame.registers@).opening(t),
            frame.events@,
            t,
            ty,
            readings(p, front, ty),
        );
    }
}

} // verus!
