//! What the sessions say of the processes they were made from.
use vstd::prelude::*;

use crate::session;
use crate::session::{Feed, MemberModel, SeatModel, SessionModel};
use crate::sorting;
use crate::store::ProcessModel;
use crate::text;

verus! {

/// The entry is what a session says of the process.
pub open spec fn describes(m: MemberModel, p: ProcessModel) -> bool {
    &&& m.process_id == p.id
    &&& m.source == p.source
    &&& m.started_unix_ms == p.started_unix_ms
    &&& m.ended_unix_ms == p.ended_unix_ms
    &&& m.last_frame_unix_ms == p.last_frame_unix_ms
    &&& m.connected == (p.live_connections > 0)
    &&& m.feed == if p.source == "lightwatch-probe"@ {
        Feed::Memory
    } else {
        Feed::Cpu
    }
}

/// The session reports the entry, as one that speaks or as one superseded.
pub open spec fn reports(s: SessionModel, m: MemberModel) -> bool {
    s.cpu == Some(m) || s.memory == Some(m) || s.superseded.contains(m)
}

/// One entry is better placed to speak for its feed than another: it is
/// connected and the other is not, or neither has that over the other and it
/// started later.
pub open spec fn better(a: MemberModel, b: MemberModel) -> bool {
    (a.connected && !b.connected) || (a.connected == b.connected && a.started_unix_ms
        > b.started_unix_ms)
}

/// The seats in the order they are split in.
spec fn seated(all: Seq<ProcessModel>) -> Seq<SeatModel> {
    sorting::sorted(
        all.map_values(|p: ProcessModel| session::seat_of(p)),
        |a: SeatModel, b: SeatModel| session::seated_before(a, b),
    )
}

/// The session a run makes.
spec fn made(run: Seq<SeatModel>) -> SessionModel {
    session::session_of(run[0].app, run[0].pid, session::members_of(run))
}

proof fn lemma_the_same_items<T>(a: Seq<T>, b: Seq<T>)
    requires
        a.to_multiset() == b.to_multiset(),
    ensures
        forall|x: T| #[trigger] a.contains(x) == b.contains(x),
{
    a.to_multiset_ensures();
    b.to_multiset_ensures();
    assert forall|x: T| #[trigger] a.contains(x) == b.contains(x) by {
        assert(a.contains(x) <==> a.to_multiset().count(x) > 0);
        assert(b.contains(x) <==> b.to_multiset().count(x) > 0);
    }
}

proof fn lemma_seated(all: Seq<ProcessModel>)
    ensures
        sorting::in_order(
            seated(all),
            |a: SeatModel, b: SeatModel| session::seated_before(a, b),
        ),
        forall|i: int|
            0 <= i < seated(all).len() ==> exists|k: int|
                0 <= k < all.len() && #[trigger] seated(all)[i] == session::seat_of(
                    #[trigger] all[k],
                ),
        forall|k: int|
            0 <= k < all.len() ==> seated(all).contains(session::seat_of(#[trigger] all[k])),
{
    let leq = |a: SeatModel, b: SeatModel| session::seated_before(a, b);
    let plain = all.map_values(|p: ProcessModel| session::seat_of(p));
    assert forall|a: SeatModel, b: SeatModel| #[trigger] leq(a, b) || leq(b, a) by {
        text::lemma_precedes_total(a.app, b.app);
    }
    assert forall|a: SeatModel, b: SeatModel, c: SeatModel| #[trigger]
        leq(a, b) && #[trigger] leq(b, c) implies leq(a, c) by {
        if a.app != b.app && b.app != c.app {
            text::lemma_precedes_transitive(a.app, b.app, c.app);
            if a.app == c.app {
                text::lemma_precedes_irreflexive(a.app);
            }
        }
    }
    sorting::lemma_sorting_is_stable(plain, leq);
    assert(seated(all) == sorting::sorted(plain, leq));
    lemma_the_same_items(plain, seated(all));
    assert forall|i: int| 0 <= i < seated(all).len() implies exists|k: int|
        0 <= k < all.len() && #[trigger] seated(all)[i] == session::seat_of(#[trigger] all[k]) by {
        assert(seated(all).contains(seated(all)[i]));
        assert(plain.contains(seated(all)[i]));
        let k = choose|k: int| 0 <= k < plain.len() && plain[k] == seated(all)[i];
        assert(session::seat_of(all[k]) == seated(all)[i]);
    }
    assert forall|k: int| 0 <= k < all.len() implies seated(all).contains(
        session::seat_of(#[trigger] all[k]),
    ) by {
        assert(plain[k] == session::seat_of(all[k]));
        assert(plain.contains(plain[k]));
    }
}

/// Two seats of one program with a third between them are of the program that
/// one is.
proof fn lemma_between(a: SeatModel, b: SeatModel, c: SeatModel)
    requires
        session::seated_before(a, b),
        session::seated_before(b, c),
        a.app == c.app,
        a.pid == c.pid,
    ensures
        b.app == a.app,
        b.pid == a.pid,
        a.member.started_unix_ms <= b.member.started_unix_ms <= c.member.started_unix_ms,
{
    if a.app != b.app {
        text::lemma_precedes_transitive(a.app, b.app, c.app);
        text::lemma_precedes_irreflexive(a.app);
    }
}

/// The run is of one program and pid, in the order of starts, and no start is
/// more than ten seconds after the one before.
spec fn one_program(run: Seq<SeatModel>) -> bool {
    &&& run.len() > 0
    &&& forall|i: int, j: int|
        0 <= i < j < run.len() ==> {
            let (a, b) = (#[trigger] run[i], #[trigger] run[j]);
            a.app == b.app && a.pid == b.pid && a.member.started_unix_ms
                <= b.member.started_unix_ms
        }
    &&& forall|i: int, j: int|
        0 <= i < run.len() - 1 && j == i + 1 ==> (#[trigger] run[j]).member.started_unix_ms - (
        #[trigger] run[i]).member.started_unix_ms <= 10_000
}

/// Where the runs are of one program and pid, the second is of a later one.
spec fn apart(run: Seq<SeatModel>, next: Seq<SeatModel>) -> bool {
    forall|i: int, j: int|
        0 <= i < run.len() && 0 <= j < next.len() ==> {
            let (a, b) = (#[trigger] run[i], #[trigger] next[j]);
            a.app == b.app && a.pid == b.pid ==> b.member.started_unix_ms
                - a.member.started_unix_ms > 10_000
        }
}

spec fn drawn_from(run: Seq<SeatModel>, seats: Seq<SeatModel>) -> bool {
    forall|j: int| 0 <= j < run.len() ==> seats.contains(#[trigger] run[j])
}

/// What holds of the runs of seats in order.
spec fn well_split(seats: Seq<SeatModel>) -> bool {
    let rs = session::runs(seats);
    &&& forall|r: int|
        0 <= r < rs.len() ==> drawn_from(#[trigger] rs[r], seats) && one_program(rs[r])
    &&& forall|r: int, q: int|
        0 <= r < q < rs.len() ==> apart(#[trigger] rs[r], #[trigger] rs[q])
}

proof fn lemma_a_run_goes_on(run: Seq<SeatModel>, s: SeatModel)
    requires
        one_program(run),
        session::same_run(run.last(), s),
        session::seated_before(run.last(), s),
    ensures
        one_program(run.push(s)),
{
    let longer = run.push(s);
    let last = run.len() - 1;
    assert forall|i: int, j: int| 0 <= i < j < longer.len() implies {
        let (a, b) = (#[trigger] longer[i], #[trigger] longer[j]);
        a.app == b.app && a.pid == b.pid && a.member.started_unix_ms <= b.member.started_unix_ms
    } by {
        if j < run.len() {
            let (a, b) = (run[i], run[j]);
            assert(a.app == b.app);
        } else if i < last {
            let (a, b) = (run[i], run[last]);
            assert(a.app == b.app);
        }
    }
    assert forall|i: int, j: int| 0 <= i < longer.len() - 1 && j == i + 1 implies (
    #[trigger] longer[j]).member.started_unix_ms - (#[trigger] longer[i]).member.started_unix_ms
        <= 10_000 by {
        if j < run.len() {
            assert(run[j].member.started_unix_ms - run[i].member.started_unix_ms <= 10_000);
        }
    }
}

proof fn lemma_still_apart(run: Seq<SeatModel>, next: Seq<SeatModel>, s: SeatModel)
    requires
        apart(run, next),
        next.len() > 0,
        next.last().app == s.app,
        next.last().pid == s.pid,
        next.last().member.started_unix_ms <= s.member.started_unix_ms,
    ensures
        apart(run, next.push(s)),
{
    let longer = next.push(s);
    assert forall|i: int, j: int| 0 <= i < run.len() && 0 <= j < longer.len() implies {
        let (a, b) = (#[trigger] run[i], #[trigger] longer[j]);
        a.app == b.app && a.pid == b.pid ==> b.member.started_unix_ms - a.member.started_unix_ms
            > 10_000
    } by {
        if j < next.len() {
            assert(longer[j] == next[j]);
        } else {
            let (a, b) = (run[i], next[next.len() - 1]);
            assert(a.app == b.app && a.pid == b.pid ==> b.member.started_unix_ms
                - a.member.started_unix_ms > 10_000);
        }
    }
}

proof fn lemma_a_new_run_is_apart(
    front: Seq<SeatModel>,
    run: Seq<SeatModel>,
    s: SeatModel,
)
    requires
        front.len() > 0,
        drawn_from(run, front),
        sorting::in_order(front, |a: SeatModel, b: SeatModel| session::seated_before(a, b)),
        session::seated_before(front.last(), s),
        !session::same_run(front.last(), s),
    ensures
        apart(run, seq![s]),
{
    let leq = |a: SeatModel, b: SeatModel| session::seated_before(a, b);
    let prev = front.last();
    assert forall|i: int, j: int| 0 <= i < run.len() && 0 <= j < 1 implies {
        let (a, b) = (#[trigger] run[i], #[trigger] seq![s][j]);
        a.app == b.app && a.pid == b.pid ==> b.member.started_unix_ms - a.member.started_unix_ms
            > 10_000
    } by {
        let a = run[i];
        if a.app == s.app && a.pid == s.pid {
            assert(front.contains(run[i]));
            let k = choose|k: int| 0 <= k < front.len() && front[k] == a;
            if k < front.len() - 1 {
                assert(leq(front[k], front[front.len() - 1]));
                lemma_between(a, prev, s);
            }
        }
    }
}

proof fn lemma_well_split(seats: Seq<SeatModel>)
    requires
        sorting::in_order(seats, |a: SeatModel, b: SeatModel| session::seated_before(a, b)),
    ensures
        well_split(seats),
    decreases seats.len(),
{
    if seats.len() > 0 {
        let leq = |a: SeatModel, b: SeatModel| session::seated_before(a, b);
        let front = seats.drop_last();
        let s = seats.last();
        assert(sorting::in_order(front, leq)) by {
            assert forall|i: int, j: int| 0 <= i < j < front.len() implies leq(
                #[trigger] front[i],
                #[trigger] front[j],
            ) by {
                assert(leq(seats[i], seats[j]));
            }
        }
        lemma_well_split(front);
        session::lemma_runs_hold_every_entry(front);
        let (before, rs) = (session::runs(front), session::runs(seats));
        let joins = seats.len() > 1 && session::same_run(seats[seats.len() - 2], s);
        let n = before.len() as int;
        if front.len() > 0 {
            assert(front.last() == seats[seats.len() - 2]);
            assert(leq(seats[seats.len() - 2], seats[seats.len() - 1]));
        }
        assert forall|run: Seq<SeatModel>| #[trigger] drawn_from(run, front) implies drawn_from(
            run,
            seats,
        ) by {
            assert forall|j: int| 0 <= j < run.len() implies seats.contains(
                #[trigger] run[j],
            ) by {
                assert(front.contains(run[j]));
                let k = choose|k: int| 0 <= k < front.len() && front[k] == run[j];
                assert(seats[k] == run[j]);
            }
        }
        assert(seats[seats.len() - 1] == s);
        assert(seats.contains(s));
        if joins {
            let last = before[n - 1];
            assert(rs == before.update(n - 1, last.push(s)));
            lemma_a_run_goes_on(last, s);
            assert(drawn_from(last, seats));
            assert(drawn_from(last.push(s), seats)) by {
                assert forall|j: int| 0 <= j < last.push(s).len() implies seats.contains(
                    #[trigger] last.push(s)[j],
                ) by {
                    if j < last.len() {
                        assert(last.push(s)[j] == last[j]);
                    }
                }
            }
            assert forall|r: int, q: int| 0 <= r < q < rs.len() implies apart(
                #[trigger] rs[r],
                #[trigger] rs[q],
            ) by {
                assert(apart(before[r], before[q]));
                if q == n - 1 {
                    lemma_still_apart(before[r], last, s);
                }
            }
            assert forall|r: int| 0 <= r < rs.len() implies drawn_from(#[trigger] rs[r], seats)
                && one_program(rs[r]) by {
                if r < n - 1 {
                    assert(rs[r] == before[r]);
                }
            }
        } else {
            assert(rs == before.push(seq![s]));
            assert forall|r: int, q: int| 0 <= r < q < rs.len() implies apart(
                #[trigger] rs[r],
                #[trigger] rs[q],
            ) by {
                if q < n {
                    assert(apart(before[r], before[q]));
                } else {
                    assert(drawn_from(before[r], front));
                    assert(front.len() > 0);
                    lemma_a_new_run_is_apart(front, before[r], s);
                }
            }
            assert forall|r: int| 0 <= r < rs.len() implies drawn_from(#[trigger] rs[r], seats)
                && one_program(rs[r]) by {
                if r < n {
                    assert(rs[r] == before[r]);
                }
            }
        }
    }
}

proof fn lemma_sessions_are_runs(all: Seq<ProcessModel>)
    ensures
        forall|k: int|
            0 <= k < session::sessions_of(all).len() ==> exists|r: int|
                0 <= r < session::runs(seated(all)).len() && #[trigger] session::sessions_of(
                    all,
                )[k] == made(#[trigger] session::runs(seated(all))[r]),
        forall|r: int|
            0 <= r < session::runs(seated(all)).len() ==> session::sessions_of(all).contains(
                made(#[trigger] session::runs(seated(all))[r]),
            ),
{
    let rs = session::runs(seated(all));
    let plain = rs.map_values(
        |run: Seq<SeatModel>|
            session::session_of(run[0].app, run[0].pid, session::members_of(run)),
    );
    let leq = |a: SessionModel, b: SessionModel| session::newer_session(a, b);
    assert forall|a: SessionModel, b: SessionModel| #[trigger] leq(a, b) || leq(b, a) by {
        text::lemma_precedes_total(a.id, b.id);
    }
    assert forall|a: SessionModel, b: SessionModel, c: SessionModel| #[trigger]
        leq(a, b) && #[trigger] leq(b, c) implies leq(a, c) by {
        if a.started() == b.started() && b.started() == c.started() && a.id != b.id && b.id
            != c.id {
            text::lemma_precedes_transitive(a.id, b.id, c.id);
        }
    }
    sorting::lemma_sorting_is_stable(plain, leq);
    let ss = session::sessions_of(all);
    assert(ss == sorting::sorted(plain, leq));
    lemma_the_same_items(plain, ss);
    assert forall|k: int| 0 <= k < ss.len() implies exists|r: int|
        0 <= r < rs.len() && #[trigger] ss[k] == made(#[trigger] rs[r]) by {
        assert(ss.contains(ss[k]));
        assert(plain.contains(ss[k]));
        let r = choose|r: int| 0 <= r < plain.len() && plain[r] == ss[k];
        assert(made(rs[r]) == ss[k]);
    }
    assert forall|r: int| 0 <= r < rs.len() implies ss.contains(made(#[trigger] rs[r])) by {
        assert(plain[r] == made(rs[r]));
        assert(plain.contains(plain[r]));
    }
}

/// A session reports exactly the entries of its run.
proof fn lemma_a_session_reports_its_entries(run: Seq<SeatModel>, m: MemberModel)
    requires
        run.len() > 0,
    ensures
        reports(made(run), m) <==> exists|j: int|
            0 <= j < run.len() && (#[trigger] run[j]).member == m,
{
    broadcast use vstd::multiset::group_multiset_axioms;

    let members = session::members_of(run);
    let s = made(run);
    session::lemma_a_session_reports_its_run(run[0].app, run[0].pid, members);
    members.to_multiset_ensures();
    s.superseded.to_multiset_ensures();
    assert(session::entries_of(s).count(m) > 0 <==> reports(s, m));
    assert(members.contains(m) <==> members.to_multiset().count(m) > 0);
    if members.contains(m) {
        let j = choose|j: int| 0 <= j < members.len() && members[j] == m;
        assert(run[j].member == m);
    }
    if exists|j: int| 0 <= j < run.len() && (#[trigger] run[j]).member == m {
        let j = choose|j: int| 0 <= j < run.len() && (#[trigger] run[j]).member == m;
        assert(members[j] == m);
    }
}

proof fn lemma_run_of(all: Seq<ProcessModel>, k: int) -> (r: int)
    requires
        0 <= k < session::sessions_of(all).len(),
    ensures
        0 <= r < session::runs(seated(all)).len(),
        session::sessions_of(all)[k] == made(session::runs(seated(all))[r]),
        session::runs(seated(all))[r].len() > 0,
        well_split(seated(all)),
{
    lemma_sessions_are_runs(all);
    lemma_seated(all);
    lemma_well_split(seated(all));
    session::lemma_runs_hold_every_entry(seated(all));
    let ss = session::sessions_of(all);
    assert(ss[k] == ss[k]);
    choose|r: int|
        0 <= r < session::runs(seated(all)).len() && ss[k] == made(
            #[trigger] session::runs(seated(all))[r],
        )
}

/// A session is one program on one pid: every entry it reports describes a
/// process of the registry with the session's own app and pid.
pub proof fn lemma_a_session_is_one_program(all: Seq<ProcessModel>, k: int, m: MemberModel)
    requires
        0 <= k < session::sessions_of(all).len(),
        reports(session::sessions_of(all)[k], m),
    ensures
        exists|i: int|
            0 <= i < all.len() && describes(m, #[trigger] all[i]) && all[i].app
                == session::sessions_of(all)[k].app && all[i].pid == session::sessions_of(
                all,
            )[k].pid,
{
    let s = session::sessions_of(all)[k];
    let r = lemma_run_of(all, k);
    let run = session::runs(seated(all))[r];
    lemma_a_session_reports_its_entries(run, m);
    let j = choose|j: int| 0 <= j < run.len() && (#[trigger] run[j]).member == m;
    lemma_seated(all);
    let seat = run[j];
    assert(drawn_from(run, seated(all)));
    assert(seated(all).contains(run[j]));
    let at = choose|at: int| 0 <= at < seated(all).len() && seated(all)[at] == seat;
    assert(seated(all)[at] == seat);
    let i = choose|i: int|
        0 <= i < all.len() && seated(all)[at] == session::seat_of(#[trigger] all[i]);
    assert(describes(m, all[i]));
    assert(one_program(run));
    if j > 0 {
        let (a, b) = (run[0], run[j]);
        assert(a.app == b.app);
    }
    assert(all[i].app == s.app && all[i].pid == s.pid);
}

proof fn lemma_seat_in_a_run(all: Seq<ProcessModel>, i: int) -> (at: (int, int))
    requires
        0 <= i < all.len(),
    ensures
        ({
            let rs = session::runs(seated(all));
            &&& 0 <= at.0 < rs.len()
            &&& 0 <= at.1 < rs[at.0].len()
            &&& rs[at.0][at.1] == session::seat_of(all[i])
            &&& one_program(rs[at.0])
        }),
{
    let seats = seated(all);
    lemma_seated(all);
    lemma_well_split(seats);
    session::lemma_runs_hold_every_entry(seats);
    assert(seats.contains(session::seat_of(all[i])));
    let at = lemma_found_in_a_run(session::runs(seats), session::seat_of(all[i]));
    assert(one_program(session::runs(seats)[at.0]));
    at
}

proof fn lemma_a_run_is_listed(all: Seq<ProcessModel>, r: int) -> (k: int)
    requires
        0 <= r < session::runs(seated(all)).len(),
    ensures
        0 <= k < session::sessions_of(all).len(),
        session::sessions_of(all)[k] == made(session::runs(seated(all))[r]),
{
    lemma_sessions_are_runs(all);
    let ss = session::sessions_of(all);
    let run = session::runs(seated(all))[r];
    assert(ss.contains(made(run)));
    choose|k: int| 0 <= k < ss.len() && ss[k] == made(run)
}

/// Every process is reported in a session of its own app and pid.
pub proof fn lemma_every_process_is_reported(all: Seq<ProcessModel>, i: int)
    requires
        0 <= i < all.len(),
    ensures
        exists|k: int, m: MemberModel|
            0 <= k < session::sessions_of(all).len() && #[trigger] reports(
                session::sessions_of(all)[k],
                m,
            ) && describes(m, all[i]) && session::sessions_of(all)[k].app == all[i].app
                && session::sessions_of(all)[k].pid == all[i].pid,
{
    let (r, j) = lemma_seat_in_a_run(all, i);
    let run = session::runs(seated(all))[r];
    let k = lemma_a_run_is_listed(all, r);
    let m = run[j].member;
    lemma_a_session_reports_its_entries(run, m);
    if j > 0 {
        let (a, b) = (run[0], run[j]);
        assert(a.app == b.app);
    }
    assert(describes(m, all[i]));
    assert(reports(session::sessions_of(all)[k], m));
}

proof fn lemma_found_in_a_run(rs: Seq<Seq<SeatModel>>, seat: SeatModel) -> (at: (int, int))
    requires
        rs.flatten().contains(seat),
    ensures
        0 <= at.0 < rs.len(),
        0 <= at.1 < rs[at.0].len(),
        rs[at.0][at.1] == seat,
    decreases rs.len(),
{
    if rs.len() == 0 {
        assert(rs.flatten() =~= Seq::empty());
        (0, 0)
    } else {
        let rest = rs.drop_first();
        assert(rs.flatten() =~= rs[0] + rest.flatten());
        let i = choose|i: int| 0 <= i < rs.flatten().len() && rs.flatten()[i] == seat;
        if i < rs[0].len() {
            (0, i)
        } else {
            assert(rest.flatten()[i - rs[0].len()] == seat);
            let at = lemma_found_in_a_run(rest, seat);
            (at.0 + 1, at.1)
        }
    }
}

/// Entries of one program and pid that started within ten seconds of each other
/// are in one session.
pub proof fn lemma_near_starts_are_one_session(
    all: Seq<ProcessModel>,
    k: int,
    l: int,
    m: MemberModel,
    n: MemberModel,
)
    requires
        0 <= k < session::sessions_of(all).len(),
        0 <= l < session::sessions_of(all).len(),
        reports(session::sessions_of(all)[k], m),
        reports(session::sessions_of(all)[l], n),
        session::sessions_of(all)[k].app == session::sessions_of(all)[l].app,
        session::sessions_of(all)[k].pid == session::sessions_of(all)[l].pid,
        -10_000 <= m.started_unix_ms - n.started_unix_ms <= 10_000,
    ensures
        session::sessions_of(all)[k] == session::sessions_of(all)[l],
{
    let (r, q) = (lemma_run_of(all, k), lemma_run_of(all, l));
    let rs = session::runs(seated(all));
    lemma_a_session_reports_its_entries(rs[r], m);
    lemma_a_session_reports_its_entries(rs[q], n);
    let i = choose|i: int| 0 <= i < rs[r].len() && (#[trigger] rs[r][i]).member == m;
    let j = choose|j: int| 0 <= j < rs[q].len() && (#[trigger] rs[q][j]).member == n;
    let (x, y) = (rs[r], rs[q]);
    let (a, b) = (x[i], y[j]);
    assert(one_program(x) && one_program(y));
    if i > 0 {
        assert(x[0].app == x[i].app);
    }
    if j > 0 {
        assert(y[0].app == y[j].app);
    }
    assert(a.app == b.app && a.pid == b.pid);
    if r < q {
        assert(apart(rs[r], rs[q]));
        assert(x[i].app == y[j].app);
    } else if q < r {
        assert(apart(rs[q], rs[r]));
        assert(y[j].app == x[i].app);
    }
}

/// A session has no gap of more than ten seconds in it: wherever one of its
/// entries started by some instant and another after it, two of them on either
/// side started within ten seconds of each other.
pub proof fn lemma_a_session_has_no_gap(
    all: Seq<ProcessModel>,
    k: int,
    m: MemberModel,
    n: MemberModel,
    instant: u64,
)
    requires
        0 <= k < session::sessions_of(all).len(),
        reports(session::sessions_of(all)[k], m),
        reports(session::sessions_of(all)[k], n),
        m.started_unix_ms <= instant < n.started_unix_ms,
    ensures
        exists|a: MemberModel, b: MemberModel| #[trigger]
            reports(session::sessions_of(all)[k], a) && #[trigger] reports(
                session::sessions_of(all)[k],
                b,
            ) && a.started_unix_ms <= instant < b.started_unix_ms && b.started_unix_ms
                - a.started_unix_ms <= 10_000,
{
    let r = lemma_run_of(all, k);
    let rs = session::runs(seated(all));
    let run = rs[r];
    lemma_a_session_reports_its_entries(run, m);
    lemma_a_session_reports_its_entries(run, n);
    let i = choose|i: int| 0 <= i < run.len() && (#[trigger] run[i]).member == m;
    let j = choose|j: int| 0 <= j < run.len() && (#[trigger] run[j]).member == n;
    assert(one_program(run));
    if j < i {
        let (a, b) = (run[j], run[i]);
        assert(a.member.started_unix_ms <= b.member.started_unix_ms);
    }
    let c = lemma_crossing(run, i, j, instant);
    let (a, b) = (run[c].member, run[c + 1].member);
    assert(run[c + 1].member.started_unix_ms - run[c].member.started_unix_ms <= 10_000);
    lemma_a_session_reports_its_entries(run, a);
    lemma_a_session_reports_its_entries(run, b);
    assert(reports(session::sessions_of(all)[k], a));
    assert(reports(session::sessions_of(all)[k], b));
}

proof fn lemma_crossing(run: Seq<SeatModel>, i: int, j: int, instant: u64) -> (c: int)
    requires
        0 <= i < j < run.len(),
        run[i].member.started_unix_ms <= instant < run[j].member.started_unix_ms,
    ensures
        i <= c < j,
        run[c].member.started_unix_ms <= instant < run[c + 1].member.started_unix_ms,
    decreases j - i,
{
    if i + 1 == j {
        i
    } else if run[i + 1].member.started_unix_ms <= instant {
        lemma_crossing(run, i + 1, j, instant)
    } else {
        i
    }
}

/// The entry that speaks for a feed is of that feed, and no other entry of the
/// feed in the session is better placed; a feed that has entries has one that
/// speaks.
pub proof fn lemma_the_best_entry_speaks(all: Seq<ProcessModel>, k: int, m: MemberModel)
    requires
        0 <= k < session::sessions_of(all).len(),
        reports(session::sessions_of(all)[k], m),
    ensures
        ({
            let s = session::sessions_of(all)[k];
            let spoken = match m.feed {
                Feed::Cpu => s.cpu,
                Feed::Memory => s.memory,
            };
            &&& spoken matches Some(held) && !better(m, held) && held.feed == m.feed
            &&& s.cpu matches Some(held) ==> held.feed == Feed::Cpu
            &&& s.memory matches Some(held) ==> held.feed == Feed::Memory
        }),
{
    let r = lemma_run_of(all, k);
    let run = session::runs(seated(all))[r];
    let members = session::members_of(run);
    lemma_a_session_reports_its_entries(run, m);
    let j = choose|j: int| 0 <= j < run.len() && (#[trigger] run[j]).member == m;
    assert(members[j] == m);
    session::lemma_the_speaker_outranks_its_feed(members, Feed::Cpu);
    session::lemma_the_speaker_outranks_its_feed(members, Feed::Memory);
}

/// A session goes by its app, with what a path segment could not hold replaced,
/// its pid and the earliest start in it.
pub proof fn lemma_a_session_is_named_for_its_earliest_start(all: Seq<ProcessModel>, k: int)
    requires
        0 <= k < session::sessions_of(all).len(),
    ensures
        ({
            let s = session::sessions_of(all)[k];
            exists|first: MemberModel| #[trigger]
                reports(s, first) && (forall|m: MemberModel| #[trigger]
                    reports(s, m) ==> first.started_unix_ms <= m.started_unix_ms) && s.id
                    == session::plainly(s.app) + seq!['-'] + text::decimal(s.pid as nat) + seq![
                    '-',
                ] + text::decimal(first.started_unix_ms as nat)
        }),
{
    let s = session::sessions_of(all)[k];
    let r = lemma_run_of(all, k);
    let rs = session::runs(seated(all));
    let run = rs[r];
    let members = session::members_of(run);
    let first = run[0].member;
    assert(one_program(run));
    lemma_a_session_reports_its_entries(run, first);
    assert(reports(s, first));
    assert forall|m: MemberModel| #[trigger] reports(s, m) implies first.started_unix_ms
        <= m.started_unix_ms by {
        lemma_a_session_reports_its_entries(run, m);
        let j = choose|j: int| 0 <= j < run.len() && (#[trigger] run[j]).member == m;
        if j > 0 {
            let (a, b) = (run[0], run[j]);
            assert(a.member.started_unix_ms <= b.member.started_unix_ms);
        }
    }
    assert forall|j: int| 0 <= j < members.len() implies members[0].started_unix_ms <= (
    #[trigger] members[j]).started_unix_ms by {
        if j > 0 {
            let (a, b) = (run[0], run[j]);
            assert(a.member.started_unix_ms <= b.member.started_unix_ms);
        }
    }
    lemma_anchor_is_earliest(members);
    assert(s.id =~= session::plainly(s.app) + seq!['-'] + text::decimal(s.pid as nat) + seq![
        '-',
    ] + text::decimal(first.started_unix_ms as nat));
}

proof fn lemma_anchor_is_earliest(run: Seq<MemberModel>)
    requires
        run.len() > 0,
        forall|j: int|
            0 <= j < run.len() ==> run[0].started_unix_ms <= (#[trigger] run[j]).started_unix_ms,
    ensures
        session::anchor(run) == run[0].started_unix_ms,
    decreases run.len(),
{
    if run.len() > 1 {
        let front = run.drop_last();
        assert forall|j: int| 0 <= j < front.len() implies front[0].started_unix_ms <= (
        #[trigger] front[j]).started_unix_ms by {
            assert(front[j] == run[j]);
        }
        lemma_anchor_is_earliest(front);
        assert(run.last() == run[run.len() - 1]);
    }
}

/// Letters, digits, dashes and underscores stand in a session's name as they
/// are, and an underscore stands for anything else.
pub proof fn lemma_a_name_is_kept_where_it_can_be(app: Seq<char>, i: int)
    requires
        0 <= i < app.len(),
    ensures
        session::plainly(app).len() == app.len(),
        session::plainly(app)[i] == if ('a' <= app[i] <= 'z') || ('A' <= app[i] <= 'Z') || ('0'
            <= app[i] <= '9') || app[i] == '-' || app[i] == '_' {
            app[i]
        } else {
            '_'
        },
{
}

/// When a session started: the earlier start of those that speak for it.
pub open spec fn start_of(s: SessionModel) -> u64 {
    match (s.cpu, s.memory) {
        (Some(a), Some(b)) => if b.started_unix_ms < a.started_unix_ms {
            b.started_unix_ms
        } else {
            a.started_unix_ms
        },
        (Some(a), None) => a.started_unix_ms,
        (None, Some(b)) => b.started_unix_ms,
        (None, None) => 0,
    }
}

/// Sessions are listed newest first, and in each those superseded are too.
pub proof fn lemma_newest_first(all: Seq<ProcessModel>, k: int, l: int)
    requires
        0 <= k < l < session::sessions_of(all).len(),
    ensures
        start_of(session::sessions_of(all)[k]) >= start_of(session::sessions_of(all)[l]),
        start_of(session::sessions_of(all)[k]) == start_of(session::sessions_of(all)[l])
            ==> session::sessions_of(all)[k].id == session::sessions_of(all)[l].id
            || text::precedes(session::sessions_of(all)[k].id, session::sessions_of(all)[l].id),
{
    session::lemma_the_newest_session_is_listed_first(all);
    let ss = session::sessions_of(all);
    assert((|a: SessionModel, b: SessionModel| session::newer_session(a, b))(ss[k], ss[l]));
}

/// Those superseded are listed newest first.
pub proof fn lemma_superseded_newest_first(all: Seq<ProcessModel>, k: int, i: int, j: int)
    requires
        0 <= k < session::sessions_of(all).len(),
        0 <= i < j < session::sessions_of(all)[k].superseded.len(),
    ensures
        session::sessions_of(all)[k].superseded[i].started_unix_ms >= session::sessions_of(
            all,
        )[k].superseded[j].started_unix_ms,
{
    let r = lemma_run_of(all, k);
    let members = session::members_of(session::runs(seated(all))[r]);
    let leq = |a: MemberModel, b: MemberModel| session::newer(a, b);
    assert(sorting::places_all(leq));
    sorting::lemma_sorting_is_stable(session::losers(members), leq);
    let list = session::sessions_of(all)[k].superseded;
    assert(leq(list[i], list[j]));
}

/// A session is found under its own id, and nothing is where none goes by it.
pub proof fn lemma_a_session_is_found_by_its_id(sessions: Seq<SessionModel>, id: Seq<char>)
    ensures
        match session::found(sessions, id) {
            Some(s) => s.id == id && sessions.contains(s),
            None => forall|k: int| 0 <= k < sessions.len() ==> (#[trigger] sessions[k]).id != id,
        },
    decreases sessions.len(),
{
    if sessions.len() > 0 && sessions[0].id != id {
        let rest = sessions.skip(1);
        lemma_a_session_is_found_by_its_id(rest, id);
        match session::found(rest, id) {
            Some(s) => {
                let k = choose|k: int| 0 <= k < rest.len() && rest[k] == s;
                assert(sessions[k + 1] == s);
            },
            None => {
                assert forall|k: int| 0 <= k < sessions.len() implies (
                #[trigger] sessions[k]).id != id by {
                    if k > 0 {
                        assert(rest[k - 1] == sessions[k]);
                    }
                }
            },
        }
    }
}

/// A session is connected where one of those that speak for it is, and its feeds
/// are those, timing first.
pub proof fn lemma_a_session_is_as_live_as_its_feeds(s: SessionModel)
    ensures
        s.is_connected() <==> exists|i: int|
            0 <= i < s.members().len() && (#[trigger] s.members()[i]).connected,
        s.members().contains(s.cpu.unwrap()) || s.cpu is None,
        s.members().contains(s.memory.unwrap()) || s.memory is None,
        s.members().len() == (if s.cpu is Some {
            1int
        } else {
            0
        }) + (if s.memory is Some {
            1int
        } else {
            0
        }),
        s.cpu is Some ==> s.members()[0] == s.cpu.unwrap(),
{
    let ms = s.members();
    if s.cpu is Some {
        assert(ms[0] == s.cpu.unwrap());
        if s.memory is Some {
            assert(ms[1] == s.memory.unwrap());
        }
    } else if s.memory is Some {
        assert(ms[0] == s.memory.unwrap());
    }
}

} // verus!
