//! What a bridge's frames say of the reports they were made from.
use vstd::prelude::*;

use crate::bridge;
use crate::bridge::{EntryModel, Moved, Named, Reading, ReportModel, StreamModel};
use crate::dist;
use crate::dist::Dist;
use crate::proto::{Event, Frame, Register};
use crate::text;

verus! {

/// No function is listed twice.
pub open spec fn distinct(data: Seq<EntryModel>) -> bool {
    forall|i: int, j: int|
        0 <= i < j < data.len() ==> (#[trigger] data[i]).id != (#[trigger] data[j]).id
}

/// The total of a row in nanoseconds, and nothing where it did not read as a
/// duration.
pub open spec fn total_of(totals: Seq<Option<u64>>, i: int) -> u64 {
    if totals[i] is Some {
        totals[i].unwrap()
    } else {
        0
    }
}

/// The distribution puts every call at the mean of the time that passed: one
/// bucket, in whose range the mean lies, weighing as much as there are calls.
/// Where no time passed it is empty.
pub open spec fn at_the_mean(ns: Dist, passed: int, count: int) -> bool {
    &&& ns is Buckets
    &&& passed <= 0 ==> ns->b@.len() == 0
    &&& passed > 0 ==> {
        &&& ns->b@.len() == 1
        &&& dist::covers(ns->b@[0].0 as int, passed / count)
        &&& count <= u32::MAX ==> ns->b@[0].1 == count
        &&& count > u32::MAX ==> ns->b@[0].1 == u32::MAX
    }
}

/// The event tells so many calls of the function, over the time that passed.
pub open spec fn tells_calls(e: Event, id: u32, count: int, passed: int) -> bool {
    e matches Event::Calls { func, count: n, ns } && func.0 == id && n == count && at_the_mean(
        ns,
        passed,
        count,
    )
}

/// The event is of the function.
pub open spec fn is_of(e: Event, id: u32) -> bool {
    e matches Event::Calls { func, .. } && func.0 == id
}

proof fn lemma_distinct_front(data: Seq<EntryModel>)
    requires
        data.len() > 0,
        distinct(data),
    ensures
        distinct(data.drop_last()),
        bridge::omits(data.drop_last(), data.last().id),
{
    let front = data.drop_last();
    assert forall|i: int, j: int| 0 <= i < j < front.len() implies (#[trigger] front[i]).id != (
    #[trigger] front[j]).id by {
        assert(data[i].id != data[j].id);
    }
    assert forall|i: int| 0 <= i < front.len() implies (#[trigger] front[i]).id
        != data.last().id by {
        assert(data[i].id != data[data.len() - 1].id);
    }
}

proof fn lemma_rows_are_read(
    start: Map<u32, Reading>,
    data: Seq<EntryModel>,
    totals: Seq<Option<u64>>,
    i: int,
)
    requires
        distinct(data),
        0 <= i < data.len(),
    ensures
        ({
            let after = bridge::folding(start, data, totals).readings;
            &&& after.contains_key(data[i].id)
            &&& after[data[i].id].calls == data[i].calls
            &&& after[data[i].id].total_ns == total_of(totals, i)
        }),
    decreases data.len(),
{
    lemma_distinct_front(data);
    if i < data.len() - 1 {
        lemma_rows_are_read(start, data.drop_last(), totals, i);
        assert(data.drop_last()[i] == data[i]);
        assert(data[i].id != data[data.len() - 1].id);
    }
}

/// After a report the last reading of each function it lists is what its row
/// says, calls and total alike.
pub proof fn lemma_a_reading_is_the_last_row(
    s: StreamModel,
    report: ReportModel,
    totals: Seq<Option<u64>>,
    i: int,
)
    requires
        distinct(report.data),
        0 <= i < report.data.len(),
    ensures
        ({
            let after = s.absorbing(report, totals).readings;
            &&& after.contains_key(report.data[i].id)
            &&& after[report.data[i].id].calls == report.data[i].calls
            &&& after[report.data[i].id].total_ns == total_of(totals, i)
        }),
{
    lemma_rows_are_read(s.readings, report.data, totals, i);
}

/// What is told of a function that has moved.
spec fn moved_by(m: Moved, start: Map<u32, Reading>, e: EntryModel, total: u64) -> bool {
    &&& m.id == e.id
    &&& start.contains_key(e.id)
    &&& e.calls > start[e.id].calls
    &&& m.count == e.calls - start[e.id].calls
    &&& m.ns == bridge::mean_durations(bridge::rise(start[e.id].total_ns, total), m.count)
}

/// It is told of one of the rows.
spec fn moved_by_a_row(
    m: Moved,
    start: Map<u32, Reading>,
    data: Seq<EntryModel>,
    totals: Seq<Option<u64>>,
) -> bool {
    exists|i: int|
        0 <= i < data.len() && moved_by(m, start, #[trigger] data[i], total_of(totals, i))
}

/// The function has been told of.
spec fn has_moved(ms: Seq<Moved>, id: u32) -> bool {
    exists|j: int| 0 <= j < ms.len() && (#[trigger] ms[j]).id == id
}

proof fn lemma_what_moved(start: Map<u32, Reading>, data: Seq<EntryModel>, totals: Seq<Option<u64>>)
    requires
        distinct(data),
        exists|id: u32| #[trigger] start.contains_key(id),
    ensures
        ({
            let f = bridge::folding(start, data, totals);
            &&& forall|j: int|
                0 <= j < f.moved.len() ==> moved_by_a_row(
                    #[trigger] f.moved[j],
                    start,
                    data,
                    totals,
                )
            &&& forall|i: int|
                0 <= i < data.len() && start.contains_key((#[trigger] data[i]).id) && data[i].calls
                    > start[data[i].id].calls ==> has_moved(f.moved, data[i].id)
            &&& forall|j: int, k: int|
                0 <= j < k < f.moved.len() ==> (#[trigger] f.moved[j]).id != (
                #[trigger] f.moved[k]).id
        }),
    decreases data.len(),
{
    assert(!(start =~= Map::empty()));
    if data.len() > 0 {
        let front = data.drop_last();
        let e = data.last();
        let last = data.len() - 1;
        lemma_distinct_front(data);
        lemma_what_moved(start, front, totals);
        bridge::lemma_a_missing_row_says_nothing(start, front, totals, e.id);
        let (before, f) = (
            bridge::folding(start, front, totals),
            bridge::folding(start, data, totals),
        );
        assert(data[last] == e);
        let m = f.moved.last();
        if f.moved.len() > before.moved.len() {
            assert(f.moved == before.moved.push(m));
            assert(moved_by(m, start, data[last], total_of(totals, last)));
        } else {
            assert(f.moved == before.moved);
        }
        assert forall|j: int| 0 <= j < f.moved.len() implies moved_by_a_row(
            #[trigger] f.moved[j],
            start,
            data,
            totals,
        ) by {
            if j < before.moved.len() {
                assert(f.moved[j] == before.moved[j]);
                assert(moved_by_a_row(before.moved[j], start, front, totals));
                let i = choose|i: int|
                    0 <= i < front.len() && moved_by(
                        before.moved[j],
                        start,
                        #[trigger] front[i],
                        total_of(totals, i),
                    );
                assert(moved_by(f.moved[j], start, data[i], total_of(totals, i)));
            } else {
                assert(moved_by(f.moved[j], start, data[last], total_of(totals, last)));
            }
        }
        assert forall|i: int|
            0 <= i < data.len() && start.contains_key((#[trigger] data[i]).id) && data[i].calls
                > start[data[i].id].calls implies has_moved(f.moved, data[i].id) by {
            if i < last {
                assert(front[i] == data[i]);
                assert(has_moved(before.moved, front[i].id));
                let j = choose|j: int|
                    0 <= j < before.moved.len() && (#[trigger] before.moved[j]).id == data[i].id;
                assert(f.moved[j].id == data[i].id);
            } else {
                assert(f.moved[f.moved.len() - 1].id == e.id);
            }
        }
        assert forall|j: int, k: int| 0 <= j < k < f.moved.len() implies (
        #[trigger] f.moved[j]).id != (#[trigger] f.moved[k]).id by {
            assert(f.moved[j] == before.moved[j]);
            if k < before.moved.len() {
                assert(f.moved[k] == before.moved[k]);
            }
        }
    }
}

proof fn lemma_mean(ns: Dist, before: u64, after: u64, count: u64)
    requires
        count > 0,
        ns matches Dist::Buckets { b } && b@ == bridge::mean_durations(
            bridge::rise(before, after),
            count,
        ),
    ensures
        at_the_mean(ns, after - before, count as int),
{
    let passed = bridge::rise(before, after);
    if passed > 0 {
        dist::lemma_every_value_has_a_bucket(passed / count);
    }
}

/// A frame tells what a report adds to the readings before it, and nothing else:
/// of each function listed whose calls have risen, as many calls as they rose by,
/// at the mean of the time its total rose by. A function whose calls have not
/// risen, or that is new, has no event; and none has two.
pub proof fn lemma_a_frame_tells_what_a_report_adds(
    s: StreamModel,
    report: ReportModel,
    totals: Seq<Option<u64>>,
    frame: Frame,
    i: int,
)
    requires
        distinct(report.data),
        s.implies_frame(report, totals, frame),
        exists|id: u32| #[trigger] s.readings.contains_key(id),
        0 <= i < report.data.len(),
    ensures
        ({
            let row = report.data[i];
            let risen = s.readings.contains_key(row.id) && row.calls > s.readings[row.id].calls;
            &&& risen ==> exists|k: int|
                0 <= k < frame.events@.len() && tells_calls(
                    #[trigger] frame.events@[k],
                    row.id,
                    row.calls - s.readings[row.id].calls,
                    total_of(totals, i) - s.readings[row.id].total_ns,
                )
            &&& !risen ==> forall|k: int|
                0 <= k < frame.events@.len() ==> !is_of(#[trigger] frame.events@[k], row.id)
            &&& forall|k: int, l: int|
                0 <= k < l < frame.events@.len() ==> !(is_of(#[trigger] frame.events@[k], row.id)
                    && is_of(#[trigger] frame.events@[l], row.id))
        }),
{
    let data = report.data;
    let row = data[i];
    let f = bridge::folding(s.readings, data, totals);
    lemma_what_moved(s.readings, data, totals);
    assert forall|k: int| 0 <= k < frame.events@.len() implies bridge::reports(
        #[trigger] frame.events@[k],
        f.moved[k],
    ) by {}
    if s.readings.contains_key(row.id) && row.calls > s.readings[row.id].calls {
        assert(has_moved(f.moved, data[i].id));
        let k = choose|k: int| 0 <= k < f.moved.len() && (#[trigger] f.moved[k]).id == data[i].id;
        assert(moved_by_a_row(f.moved[k], s.readings, data, totals));
        let r = choose|r: int|
            0 <= r < data.len() && moved_by(
                f.moved[k],
                s.readings,
                #[trigger] data[r],
                total_of(totals, r),
            );
        if r < i {
            assert(data[r].id != data[i].id);
        } else if i < r {
            assert(data[i].id != data[r].id);
        }
        let m = f.moved[k];
        assert(bridge::reports(frame.events@[k], m));
        let e = frame.events@[k];
        lemma_mean(e->ns, s.readings[row.id].total_ns, total_of(totals, i), m.count);
        assert(tells_calls(
            e,
            row.id,
            row.calls - s.readings[row.id].calls,
            total_of(totals, i) - s.readings[row.id].total_ns,
        ));
    } else {
        assert forall|k: int| 0 <= k < frame.events@.len() implies !is_of(
            #[trigger] frame.events@[k],
            row.id,
        ) by {
            assert(bridge::reports(frame.events@[k], f.moved[k]));
            assert(moved_by_a_row(f.moved[k], s.readings, data, totals));
            let r = choose|r: int|
                0 <= r < data.len() && moved_by(
                    f.moved[k],
                    s.readings,
                    #[trigger] data[r],
                    total_of(totals, r),
                );
            if r < i {
                assert(data[r].id != data[i].id);
            } else if i < r {
                assert(data[i].id != data[r].id);
            }
        }
    }
    assert forall|k: int, l: int| 0 <= k < l < frame.events@.len() implies !(is_of(
        #[trigger] frame.events@[k],
        row.id,
    ) && is_of(#[trigger] frame.events@[l], row.id)) by {
        assert(bridge::reports(frame.events@[k], f.moved[k]));
        assert(bridge::reports(frame.events@[l], f.moved[l]));
        assert(f.moved[k].id != f.moved[l].id);
    }
}

/// No report in between lists the function.
pub open spec fn all_omit(reports: Seq<(ReportModel, Seq<Option<u64>>)>, id: u32) -> bool {
    forall|n: int| 0 <= n < reports.len() ==> bridge::omits((#[trigger] reports[n]).0.data, id)
}

proof fn lemma_readings_wait(
    s: StreamModel,
    reports: Seq<(ReportModel, Seq<Option<u64>>)>,
    id: u32,
)
    requires
        s.readings.contains_key(id),
        all_omit(reports, id),
    ensures
        bridge::after_all(s, reports).readings.contains_key(id),
        bridge::after_all(s, reports).readings[id] == s.readings[id],
    decreases reports.len(),
{
    if reports.len() > 0 {
        let front = reports.drop_last();
        assert forall|n: int| 0 <= n < front.len() implies bridge::omits(
            (#[trigger] front[n]).0.data,
            id,
        ) by {
            assert(front[n] == reports[n]);
        }
        lemma_readings_wait(s, front, id);
        assert(reports.last() == reports[reports.len() - 1]);
        bridge::lemma_a_missing_row_says_nothing(
            bridge::after_all(s, front).readings,
            reports.last().0.data,
            reports.last().1,
            id,
        );
    }
}

/// A window is the difference of two reports: where a function is listed in one
/// report and next in another, however many it falls off of in between, the frame
/// of the second tells its calls as the difference of the two rows' calls, over
/// the difference of the two rows' totals.
pub proof fn lemma_a_window_is_the_difference_of_two_reports(
    s: StreamModel,
    first: (ReportModel, Seq<Option<u64>>),
    between: Seq<(ReportModel, Seq<Option<u64>>)>,
    second: (ReportModel, Seq<Option<u64>>),
    frame: Frame,
    i: int,
    j: int,
)
    requires
        distinct(first.0.data),
        distinct(second.0.data),
        0 <= i < first.0.data.len(),
        0 <= j < second.0.data.len(),
        first.0.data[i].id == second.0.data[j].id,
        all_omit(between, first.0.data[i].id),
        bridge::after_all(s.absorbing(first.0, first.1), between).implies_frame(
            second.0,
            second.1,
            frame,
        ),
    ensures
        ({
            let (was, is) = (first.0.data[i], second.0.data[j]);
            &&& is.calls > was.calls ==> exists|k: int|
                0 <= k < frame.events@.len() && tells_calls(
                    #[trigger] frame.events@[k],
                    is.id,
                    is.calls - was.calls,
                    total_of(second.1, j) - total_of(first.1, i),
                )
            &&& is.calls <= was.calls ==> forall|k: int|
                0 <= k < frame.events@.len() ==> !is_of(#[trigger] frame.events@[k], is.id)
        }),
{
    let id = first.0.data[i].id;
    let once = s.absorbing(first.0, first.1);
    let here = bridge::after_all(once, between);
    lemma_a_reading_is_the_last_row(s, first.0, first.1, i);
    lemma_readings_wait(once, between, id);
    lemma_a_frame_tells_what_a_report_adds(here, second.0, second.1, frame, j);
}

/// A frame is numbered one after the last, and closes when its report says; the
/// first of a run charges nothing.
pub proof fn lemma_frames_follow_each_other(
    s: StreamModel,
    report: ReportModel,
    totals: Seq<Option<u64>>,
    frame: Frame,
)
    requires
        s.implies_frame(report, totals, frame),
    ensures
        frame.seq == s.seq,
        frame.t_ns == report.total_elapsed_ns,
        s.seq < u64::MAX ==> s.absorbing(report, totals).seq == s.seq + 1,
        s.absorbing(report, totals).pid == s.pid,
        s.absorbing(report, totals).elapsed_ns == report.total_elapsed_ns,
        (forall|id: u32| !#[trigger] s.readings.contains_key(id)) ==> frame.events@.len() == 0,
{
    if forall|id: u32| !#[trigger] s.readings.contains_key(id) {
        assert(s.readings =~= Map::empty());
        bridge::lemma_a_first_report_charges_nothing(s.pid, report, totals);
    }
}

/// Two of the character in a row stand at the place.
pub open spec fn pair_at(s: Seq<char>, c: char, i: int) -> bool {
    0 <= i < s.len() - 1 && s[i] == c && s[i + 1] == c
}

/// A text is parted at the first two of the character in a row: the parts with
/// the two between them are the text, and no two in a row begin earlier. One
/// without two in a row is not parted.
pub proof fn lemma_a_text_is_parted_at_the_first_pair(s: Seq<char>, c: char)
    ensures
        match text::parted(s, c) {
            Some((a, b)) => s == a + seq![c, c] + b && forall|i: int|
                0 <= i < a.len() ==> !#[trigger] pair_at(s, c, i),
            None => forall|i: int| !#[trigger] pair_at(s, c, i),
        },
{
    lemma_first_pair(s, c);
    if let Some(i) = text::pair_place(s, c) {
        assert(s =~= s.take(i) + seq![c, c] + s.skip(i + 2));
    }
}

proof fn lemma_first_pair(s: Seq<char>, c: char)
    ensures
        match text::pair_place(s, c) {
            Some(i) => pair_at(s, c, i) && forall|k: int| 0 <= k < i ==> !#[trigger] pair_at(s, c, k),
            None => forall|k: int| !#[trigger] pair_at(s, c, k),
        },
    decreases s.len(),
{
    if s.len() >= 2 && !(s[0] == c && s[1] == c) {
        let rest = s.skip(1);
        lemma_first_pair(rest, c);
        assert forall|k: int| k >= 0 implies #[trigger] pair_at(rest, c, k) == pair_at(
            s,
            c,
            k + 1,
        ) by {}
        match text::pair_place(rest, c) {
            Some(i) => {
                assert(pair_at(rest, c, i));
                assert forall|k: int| 0 <= k < i + 1 implies !#[trigger] pair_at(s, c, k) by {
                    if k > 0 {
                        assert(!pair_at(rest, c, k - 1));
                    }
                }
            },
            None => {
                assert forall|k: int| !#[trigger] pair_at(s, c, k) by {
                    if k > 0 {
                        assert(!pair_at(rest, c, k - 1));
                    }
                }
            },
        }
    }
}

/// The registration names the function of a row: its crate for a module and the
/// path below it for a name, joined again they are the row's name; and where it
/// was declared.
pub open spec fn registers_row(r: Register, e: EntryModel) -> bool {
    r matches Register::Function { id, name, module, location } && {
        &&& id.0 == e.id
        &&& module is Some ==> e.name == module.unwrap()@ + seq![':', ':'] + name@ && forall|i: int|
            0 <= i < module.unwrap()@.len() ==> !#[trigger] pair_at(e.name, ':', i)
        &&& module is None ==> e.name == name@ && forall|i: int|
            !#[trigger] pair_at(e.name, ':', i)
        &&& location is Some <==> e.location is Some
        &&& location is Some ==> location.unwrap().file@ == e.location.unwrap().0
            && location.unwrap().line == e.location.unwrap().1 && location.unwrap().column == Some(
            e.location.unwrap().2,
        )
    }
}

proof fn lemma_a_row_is_registered(r: Register, e: EntryModel)
    requires
        bridge::names(r, bridge::naming(e)),
    ensures
        registers_row(r, e),
{
    lemma_a_text_is_parted_at_the_first_pair(e.name, ':');
}

/// It names the function of a row that is new.
spec fn named_by_a_row(n: Named, start: Map<u32, Reading>, data: Seq<EntryModel>) -> bool {
    exists|i: int|
        0 <= i < data.len() && !start.contains_key((#[trigger] data[i]).id) && n
            == bridge::naming(data[i])
}

proof fn lemma_who_is_named(start: Map<u32, Reading>, data: Seq<EntryModel>, totals: Seq<Option<u64>>)
    requires
        distinct(data),
    ensures
        ({
            let f = bridge::folding(start, data, totals);
            &&& forall|j: int|
                0 <= j < f.named.len() ==> named_by_a_row(#[trigger] f.named[j], start, data)
            &&& forall|i: int|
                0 <= i < data.len() && !start.contains_key((#[trigger] data[i]).id)
                    ==> f.named.contains(bridge::naming(data[i]))
        }),
    decreases data.len(),
{
    if data.len() > 0 {
        let front = data.drop_last();
        let e = data.last();
        let last = data.len() - 1;
        lemma_distinct_front(data);
        lemma_who_is_named(start, front, totals);
        bridge::lemma_a_missing_row_says_nothing(start, front, totals, e.id);
        let (before, f) = (
            bridge::folding(start, front, totals),
            bridge::folding(start, data, totals),
        );
        assert(data[last] == e);
        assert forall|j: int| 0 <= j < f.named.len() implies named_by_a_row(
            #[trigger] f.named[j],
            start,
            data,
        ) by {
            if j < before.named.len() {
                assert(f.named[j] == before.named[j]);
                assert(named_by_a_row(before.named[j], start, front));
                let i = choose|i: int|
                    0 <= i < front.len() && !start.contains_key((#[trigger] front[i]).id)
                        && before.named[j] == bridge::naming(front[i]);
                assert(f.named[j] == bridge::naming(data[i]));
            } else {
                assert(f.named[j] == bridge::naming(data[last]));
            }
        }
        assert forall|i: int| 0 <= i < data.len() && !start.contains_key(
            (#[trigger] data[i]).id,
        ) implies f.named.contains(bridge::naming(data[i])) by {
            if i < last {
                assert(front[i] == data[i]);
                assert(before.named.contains(bridge::naming(front[i])));
                let j = choose|j: int|
                    0 <= j < before.named.len() && before.named[j] == bridge::naming(front[i]);
                assert(f.named[j] == bridge::naming(data[i]));
            } else {
                assert(f.named[f.named.len() - 1] == bridge::naming(data[i]));
            }
        }
    }
}

/// The registration is of a row whose function is new.
pub open spec fn registers_a_new_row(
    r: Register,
    known: Map<u32, Reading>,
    data: Seq<EntryModel>,
) -> bool {
    exists|i: int|
        0 <= i < data.len() && !known.contains_key((#[trigger] data[i]).id) && registers_row(
            r,
            data[i],
        )
}

/// The row's function is registered.
pub open spec fn is_registered(rs: Seq<Register>, e: EntryModel) -> bool {
    exists|k: int| 0 <= k < rs.len() && registers_row(#[trigger] rs[k], e)
}

/// A frame registers each function that a report is the first to list, by what
/// its row says, and no other.
pub proof fn lemma_a_frame_registers_what_is_new(
    s: StreamModel,
    report: ReportModel,
    totals: Seq<Option<u64>>,
    frame: Frame,
)
    requires
        distinct(report.data),
        s.implies_frame(report, totals, frame),
    ensures
        forall|k: int|
            0 <= k < frame.registers@.len() ==> registers_a_new_row(
                #[trigger] frame.registers@[k],
                s.readings,
                report.data,
            ),
        forall|i: int|
            0 <= i < report.data.len() && !s.readings.contains_key((#[trigger] report.data[i]).id)
                ==> is_registered(frame.registers@, report.data[i]),
{
    let f = bridge::folding(s.readings, report.data, totals);
    lemma_who_is_named(s.readings, report.data, totals);
    assert forall|k: int| 0 <= k < frame.registers@.len() implies registers_a_new_row(
        #[trigger] frame.registers@[k],
        s.readings,
        report.data,
    ) by {
        assert(bridge::names(frame.registers@[k], f.named[k]));
        assert(named_by_a_row(f.named[k], s.readings, report.data));
        let i = choose|i: int|
            0 <= i < report.data.len() && !s.readings.contains_key((#[trigger] report.data[i]).id)
                && f.named[k] == bridge::naming(report.data[i]);
        lemma_a_row_is_registered(frame.registers@[k], report.data[i]);
    }
    assert forall|i: int|
        0 <= i < report.data.len() && !s.readings.contains_key(
            (#[trigger] report.data[i]).id,
        ) implies is_registered(frame.registers@, report.data[i]) by {
        assert(f.named.contains(bridge::naming(report.data[i])));
        let k = choose|k: int|
            0 <= k < f.named.len() && f.named[k] == bridge::naming(report.data[i]);
        assert(bridge::names(frame.registers@[k], f.named[k]));
        lemma_a_row_is_registered(frame.registers@[k], report.data[i]);
    }
}

/// Each row's total is read from that row.
pub proof fn lemma_a_total_is_read_from_its_row(report: ReportModel, i: int)
    requires
        0 <= i < report.data.len(),
    ensures
        bridge::printed_totals(report).len() == report.data.len(),
        bridge::printed_totals(report)[i] == bridge::printed_duration(report.data[i].total),
{
}

/// An application is called what stands before the first `::` of its entry
/// point.
pub proof fn lemma_an_application_is_named_by_its_crate(caller: Seq<char>)
    ensures
        ({
            let name = bridge::crate_of(caller);
            ||| name == caller && forall|i: int| !#[trigger] pair_at(caller, ':', i)
            ||| pair_at(caller, ':', name.len() as int) && name == caller.take(name.len() as int)
                && forall|i: int| 0 <= i < name.len() ==> !#[trigger] pair_at(caller, ':', i)
        }),
{
    lemma_first_pair(caller, ':');
}

/// A target started as long ago as it says has elapsed, to the millisecond.
pub proof fn lemma_a_start_is_what_has_elapsed_ago(now_ms: u64, elapsed_ns: u64)
    ensures
        now_ms >= elapsed_ns as int / 1_000_000 ==> bridge::started_at(now_ms, elapsed_ns)
            + elapsed_ns as int / 1_000_000 == now_ms,
        now_ms < elapsed_ns as int / 1_000_000 ==> bridge::started_at(now_ms, elapsed_ns) == 0,
{
}

} // verus!
