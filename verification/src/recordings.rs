//! What reading a probe's own state gives back of what was measured: a duration
//! for every call, and for every function the self time of the chains that end
//! in it.
use vstd::prelude::*;

use crate::accum;
use crate::accum::{AccumModel, SamplesModel};
use crate::calls;
use crate::calls::Closed;
use crate::dist;
use crate::dist::{MAX_BUCKET, MAX_RAW_SAMPLES};
use crate::ordered;
use crate::symbols;
use crate::symbols::SymbolsModel;
use crate::testing;
use crate::testing::StackTrace;

verus! {

/// One past the largest bucket index there can be.
const INDICES: u32 = 65_536;

/// The least value of a bucket.
pub open spec fn low(i: u16) -> u64 {
    dist::bucket_span(i).0
}

/// What the buckets below `n` stand for, each sample by the least of its bucket.
spec fn spread(m: Map<u16, u32>, n: int) -> Seq<u64>
    decreases n,
{
    if n <= 0 {
        Seq::empty()
    } else {
        let i = (n - 1) as u16;
        spread(m, n - 1) + testing::copies(low(i), accum::counted(m, i) as nat)
    }
}

/// The elements of a set below `n`, smallest first.
spec fn listing(dom: Set<u16>, n: int) -> Seq<u16>
    decreases n,
{
    if n <= 0 {
        Seq::empty()
    } else if dom.contains((n - 1) as u16) {
        listing(dom, n - 1).push((n - 1) as u16)
    } else {
        listing(dom, n - 1)
    }
}

proof fn lemma_listing(dom: Set<u16>, n: int)
    requires
        0 <= n <= INDICES,
    ensures
        forall|i: int, j: int|
            0 <= i < j < listing(dom, n).len() ==> listing(dom, n)[i] < listing(dom, n)[j],
        forall|k: u16| #[trigger] listing(dom, n).contains(k) <==> dom.contains(k) && k < n,
    decreases n,
{
    if n > 0 {
        lemma_listing(dom, n - 1);
        let before = listing(dom, n - 1);
        let now = listing(dom, n);
        let last = (n - 1) as u16;
        if dom.contains(last) {
            assert forall|i: int| 0 <= i < before.len() implies before[i] < n - 1 by {
                assert(before.contains(before[i]));
            }
            assert forall|k: u16| now.contains(k) <==> dom.contains(k) && k < n by {
                if dom.contains(k) && k < n {
                    if k == last {
                        assert(now[before.len() as int] == k);
                    } else {
                        let i = choose|i: int| 0 <= i < before.len() && before[i] == k;
                        assert(before.contains(k));
                        assert(now[i] == k);
                    }
                }
                if now.contains(k) && k != last {
                    let i = choose|i: int| 0 <= i < now.len() && now[i] == k;
                    assert(before[i] == k);
                    assert(before.contains(k));
                }
            }
        }
    }
}

proof fn lemma_durations_of_keys(m: Map<u16, u32>, keys: Seq<u16>, n: int)
    requires
        0 <= n <= INDICES,
        forall|i: int, j: int| 0 <= i < j < keys.len() ==> keys[i] < keys[j],
        forall|k: u16| keys.contains(k) <==> m.contains_key(k) && k < n,
    ensures
        testing::durations(keys.map_values(|i: u16| (i, m[i]))) == spread(m, n),
    decreases n,
{
    let entries = keys.map_values(|i: u16| (i, m[i]));
    if keys.len() > 0 {
        assert(keys.contains(keys.last()));
    }
    if n > 0 {
        let last = (n - 1) as u16;
        if m.contains_key(last) {
            assert(keys.contains(last));
            let at = choose|at: int| 0 <= at < keys.len() && keys[at] == last;
            assert(at == keys.len() - 1) by {
                if at < keys.len() - 1 {
                    assert(keys[at] < keys[keys.len() - 1]);
                }
            }
            let front = keys.drop_last();
            assert forall|k: u16| front.contains(k) <==> m.contains_key(k) && k < n - 1 by {
                if front.contains(k) {
                    let i = choose|i: int| 0 <= i < front.len() && front[i] == k;
                    assert(keys[i] == k);
                    assert(keys.contains(k));
                    assert(keys[i] < keys[at]);
                }
                if m.contains_key(k) && k < n - 1 {
                    assert(keys.contains(k));
                    let i = choose|i: int| 0 <= i < keys.len() && keys[i] == k;
                    assert(front[i] == k);
                }
            }
            lemma_durations_of_keys(m, front, n - 1);
            assert(entries.drop_last() =~= front.map_values(|i: u16| (i, m[i])));
        } else {
            assert forall|k: u16| keys.contains(k) <==> m.contains_key(k) && k < n - 1 by {
                if m.contains_key(k) {
                    assert(k != last);
                }
            }
            lemma_durations_of_keys(m, keys, n - 1);
            assert(spread(m, n) =~= spread(m, n - 1));
        }
    }
}

/// A histogram is read back bucket by bucket.
proof fn lemma_recorded_is_spread(m: Map<u16, u32>)
    ensures
        testing::recorded(SamplesModel::Buckets(m)) == spread(m, INDICES as int),
{
    let keys = listing(m.dom(), INDICES as int);
    lemma_listing(m.dom(), INDICES as int);
    ordered::lemma_rising_u16_is(keys, m.dom());
    lemma_durations_of_keys(m, keys, INDICES as int);
}

proof fn lemma_one_more_copy(value: u64, n: nat)
    ensures
        testing::copies(value, n + 1) == testing::copies(value, n).push(value),
{
    assert(testing::copies(value, n + 1) =~= testing::copies(value, n).push(value));
}

/// One more sample in a bucket is one more value read back.
proof fn lemma_spread_with_one_more(m: Map<u16, u32>, i: u16, n: int)
    requires
        0 <= n <= INDICES,
        accum::counted(m, i) < u32::MAX,
    ensures
        i >= n ==> spread(accum::plus(m, i, 1), n) == spread(m, n),
        i < n ==> spread(accum::plus(m, i, 1), n).to_multiset() == spread(
            m,
            n,
        ).to_multiset().insert(low(i)),
    decreases n,
{
    if n > 0 {
        let more = accum::plus(m, i, 1);
        let last = (n - 1) as u16;
        lemma_spread_with_one_more(m, i, n - 1);
        let (a, b) = (spread(m, n - 1), spread(more, n - 1));
        let c = testing::copies(low(last), accum::counted(m, last) as nat);
        let d = testing::copies(low(last), accum::counted(more, last) as nat);
        if i == last {
            lemma_one_more_copy(low(last), accum::counted(m, last) as nat);
            assert(b + d =~= (a + c).push(low(i)));
            (a + c).to_multiset_ensures();
        } else {
            assert(c == d);
            if i < n {
                vstd::seq_lib::lemma_multiset_commutative(a, c);
                vstd::seq_lib::lemma_multiset_commutative(b, d);
                assert((b + d).to_multiset() =~= (a + c).to_multiset().insert(low(i)));
            }
        }
    }
}

/// No bucket holds more samples than it can count.
pub open spec fn countable(v: Seq<u64>) -> bool {
    forall|i: u16| #[trigger] dist::tally(dist::sample_entries(v), i) <= u32::MAX
}

/// What is left of durations once they are in buckets: the least of its bucket
/// for each.
pub open spec fn lows(v: Seq<u64>) -> Seq<u64> {
    v.map_values(|d: u64| low(dist::bucket_index(d)))
}

proof fn lemma_bucketed_durations(v: Seq<u64>)
    requires
        countable(v),
    ensures
        spread(accum::bucketing(v), INDICES as int).to_multiset() == lows(v).to_multiset(),
        forall|i: u16| #[trigger] accum::bucketing(v).contains_key(i) ==> i <= MAX_BUCKET,
    decreases v.len(),
{
    if v.len() == 0 {
        lemma_nothing_is_spread(INDICES as int);
        assert(lows(v) =~= Seq::empty());
    } else {
        let front = v.drop_last();
        let i = dist::bucket_index(v.last());
        assert(dist::sample_entries(v).drop_last() =~= dist::sample_entries(front));
        assert forall|k: u16| #[trigger] dist::tally(dist::sample_entries(front), k)
            <= u32::MAX by {
            assert(dist::tally(dist::sample_entries(v), k) <= u32::MAX);
        }
        lemma_bucketed_durations(front);
        accum::lemma_bucketing_keeps_every_sample(front, i);
        assert(dist::tally(dist::sample_entries(v), i) <= u32::MAX);
        dist::lemma_every_value_has_a_bucket(v.last());
        lemma_spread_with_one_more(accum::bucketing(front), i, INDICES as int);
        assert(lows(v) =~= lows(front).push(low(i)));
        lows(front).to_multiset_ensures();
    }
}

proof fn lemma_nothing_is_spread(n: int)
    requires
        0 <= n <= INDICES,
    ensures
        spread(Map::empty(), n) == Seq::<u64>::empty(),
    decreases n,
{
    if n > 0 {
        lemma_nothing_is_spread(n - 1);
        assert(spread(Map::empty(), n) =~= Seq::<u64>::empty());
    }
}

/// Nothing later is smaller.
pub open spec fn ascends(v: Seq<u64>) -> bool {
    forall|i: int, j: int| 0 <= i < j < v.len() ==> #[trigger] v[i] <= #[trigger] v[j]
}

proof fn lemma_spread_ascends(m: Map<u16, u32>, n: int)
    requires
        0 <= n <= INDICES,
        forall|i: u16| #[trigger] m.contains_key(i) ==> i <= MAX_BUCKET,
    ensures
        ascends(spread(m, n)),
        forall|k: int|
            0 <= k < spread(m, n).len() ==> #[trigger] spread(m, n)[k] <= low(
                if n - 1 <= MAX_BUCKET {
                    (n - 1) as u16
                } else {
                    MAX_BUCKET
                },
            ),
    decreases n,
{
    if n > 0 {
        lemma_spread_ascends(m, n - 1);
        let last = (n - 1) as u16;
        if last <= MAX_BUCKET {
            dist::lemma_bucket_fits(last as int);
            if last > 0 {
                dist::lemma_bucket_fits(last - 1);
                dist::lemma_buckets_ordered(last - 1, last as int);
            }
        } else {
            assert(spread(m, n) =~= spread(m, n - 1));
        }
    }
}

/// The samples once every duration has been added, in turn.
pub open spec fn taking(v: Seq<u64>) -> SamplesModel
    decreases v.len(),
{
    if v.len() == 0 {
        SamplesModel::Raw(Seq::empty())
    } else {
        taking(v.drop_last()).adding(v.last())
    }
}

proof fn lemma_taking(v: Seq<u64>)
    ensures
        taking(v) == if v.len() <= MAX_RAW_SAMPLES {
            SamplesModel::Raw(v)
        } else {
            SamplesModel::Buckets(accum::bucketing(v))
        },
    decreases v.len(),
{
    if v.len() > 0 {
        lemma_taking(v.drop_last());
        assert(v.drop_last().push(v.last()) =~= v);
    } else {
        assert(v =~= Seq::empty());
    }
}

/// Every duration is read back. While there are few they come back as they were
/// measured, in their order. Past the cap each comes back as the least value of
/// its bucket, and the list ascends.
pub proof fn lemma_every_duration_is_read_back(v: Seq<u64>)
    requires
        countable(v),
    ensures
        testing::recorded(taking(v)).len() == v.len(),
        v.len() <= MAX_RAW_SAMPLES ==> testing::recorded(taking(v)) == v,
        v.len() > MAX_RAW_SAMPLES ==> {
            &&& testing::recorded(taking(v)).to_multiset() == lows(v).to_multiset()
            &&& ascends(testing::recorded(taking(v)))
        },
{
    lemma_taking(v);
    if v.len() > MAX_RAW_SAMPLES {
        let m = accum::bucketing(v);
        lemma_recorded_is_spread(m);
        lemma_bucketed_durations(v);
        lemma_spread_ascends(m, INDICES as int);
        spread(m, INDICES as int).to_multiset_ensures();
        lows(v).to_multiset_ensures();
    }
}

/// Putting two histograms together is bucketing all the samples at once.
proof fn lemma_buckets_of_two(v: Seq<u64>, w: Seq<u64>)
    ensures
        accum::merging(accum::bucketing(v), accum::bucketing(w)) == accum::bucketing(v + w),
    decreases w.len(),
{
    let a = accum::bucketing(v);
    if w.len() == 0 {
        assert(v + w =~= v);
        assert forall|i: u16| #[trigger] a.contains_key(i) implies accum::capped32(
            accum::counted(a, i),
            accum::counted(Map::empty(), i),
        ) == a[i] by {}
        assert(accum::merging(a, Map::empty()) =~= a);
    } else {
        let front = w.drop_last();
        let b = accum::bucketing(front);
        let i = dist::bucket_index(w.last());
        lemma_buckets_of_two(v, front);
        assert((v + w).drop_last() =~= v + front);
        assert((v + w).last() == w.last());
        assert(accum::merging(a, accum::plus(b, i, 1)) =~= accum::plus(
            accum::merging(a, b),
            i,
            1,
        ));
    }
}

/// Samples taken apart and put together are the samples taken one after the
/// other, whether or not either lot or both together went past the cap.
pub proof fn lemma_merging_is_taking_in_turn(v: Seq<u64>, w: Seq<u64>)
    ensures
        taking(v).absorbing(taking(w)) == taking(v + w),
{
    lemma_taking(v);
    lemma_taking(w);
    lemma_taking(v + w);
    assert(taking(v).buckets() == accum::bucketing(v));
    assert(taking(w).buckets() == accum::bucketing(w));
    lemma_buckets_of_two(v, w);
}

/// Of two lots of durations put together every one is read back. While both
/// together are few they come back as they were measured, one lot after the
/// other. Past the cap each comes back as the least value of its bucket, and the
/// list ascends.
pub proof fn lemma_merged_durations_are_read_back(v: Seq<u64>, w: Seq<u64>)
    requires
        countable(v + w),
    ensures
        ({
            let read = testing::recorded(taking(v).absorbing(taking(w)));
            &&& read.len() == v.len() + w.len()
            &&& v.len() + w.len() <= MAX_RAW_SAMPLES ==> read == v + w
            &&& v.len() + w.len() > MAX_RAW_SAMPLES ==> read.to_multiset() == lows(
                v + w,
            ).to_multiset() && ascends(read)
        }),
{
    lemma_merging_is_taking_in_turn(v, w);
    lemma_every_duration_is_read_back(v + w);
}

/// No bucket of the samples holds more than it can count.
pub open spec fn holds_all(s: SamplesModel) -> bool {
    forall|i: u16| #[trigger] s.within(i) <= u32::MAX
}

proof fn lemma_amount_in_buckets(s: SamplesModel)
    requires
        holds_all(s),
    ensures
        spread(s.buckets(), INDICES as int).len() == testing::recorded(s).len(),
{
    match s {
        SamplesModel::Raw(v) => {
            assert forall|i: u16| #[trigger] dist::tally(dist::sample_entries(v), i)
                <= u32::MAX by {
                assert(s.within(i) <= u32::MAX);
            }
            lemma_bucketed_durations(v);
            spread(accum::bucketing(v), INDICES as int).to_multiset_ensures();
            lows(v).to_multiset_ensures();
        },
        SamplesModel::Buckets(m) => {
            lemma_recorded_is_spread(m);
        },
    }
}

proof fn lemma_amount_of_two(a: Map<u16, u32>, b: Map<u16, u32>, n: int)
    requires
        0 <= n <= INDICES,
        forall|i: u16| #[trigger] accum::counted(a, i) + accum::counted(b, i) <= u32::MAX,
    ensures
        spread(accum::merging(a, b), n).len() == spread(a, n).len() + spread(b, n).len(),
    decreases n,
{
    if n > 0 {
        lemma_amount_of_two(a, b, n - 1);
        let i = (n - 1) as u16;
        assert(accum::counted(a, i) + accum::counted(b, i) <= u32::MAX);
        assert(accum::counted(accum::merging(a, b), i) == accum::counted(a, i) + accum::counted(
            b,
            i,
        ));
    }
}

/// Two lots of samples can be put together without a bucket overflowing.
pub open spec fn both_fit(a: SamplesModel, b: SamplesModel) -> bool {
    forall|i: u16| #[trigger] a.within(i) + b.within(i) <= u32::MAX
}

proof fn lemma_counted_within(s: SamplesModel, i: u16)
    requires
        s.within(i) <= u32::MAX,
    ensures
        accum::counted(s.buckets(), i) == s.within(i),
{
    if let SamplesModel::Raw(v) = s {
        accum::lemma_bucketing_keeps_every_sample(v, i);
    }
}

/// Two lots of samples put together are read back as many as both were.
pub proof fn lemma_samples_add_up(a: SamplesModel, b: SamplesModel)
    requires
        both_fit(a, b),
    ensures
        testing::recorded(a.absorbing(b)).len() == testing::recorded(a).len()
            + testing::recorded(b).len(),
{
    assert forall|i: u16| #[trigger] a.within(i) <= u32::MAX by {
        assert(a.within(i) + b.within(i) <= u32::MAX);
    }
    assert forall|i: u16| #[trigger] b.within(i) <= u32::MAX by {
        assert(a.within(i) + b.within(i) <= u32::MAX);
    }
    if a.absorbing(b) is Buckets {
        assert forall|i: u16| #[trigger] accum::counted(a.buckets(), i) + accum::counted(
            b.buckets(),
            i,
        ) <= u32::MAX by {
            lemma_counted_within(a, i);
            lemma_counted_within(b, i);
            assert(a.within(i) + b.within(i) <= u32::MAX);
        }
        lemma_amount_in_buckets(a);
        lemma_amount_in_buckets(b);
        lemma_amount_of_two(a.buckets(), b.buckets(), INDICES as int);
        lemma_recorded_is_spread(accum::merging(a.buckets(), b.buckets()));
    }
}

/// One more sample is one more read back.
proof fn lemma_one_more_is_read_back(s: SamplesModel, value: u64)
    requires
        both_fit(s, SamplesModel::Raw(seq![value])),
    ensures
        testing::recorded(s.adding(value)).len() == testing::recorded(s).len() + 1,
{
    let one = seq![value];
    let i = dist::bucket_index(value);
    let single = SamplesModel::Raw(one);
    assert(dist::sample_entries(one).drop_last() =~= Seq::empty());
    assert(dist::sample_entries(one).last() == (i, 1u32));
    assert(dist::tally(dist::sample_entries(one), i) == 1) by {
        assert(dist::tally(dist::sample_entries(one).drop_last(), i) == 0);
    }
    assert(s.within(i) + single.within(i) <= u32::MAX);
    assert forall|k: u16| #[trigger] s.within(k) <= u32::MAX by {
        assert(s.within(k) + single.within(k) <= u32::MAX);
    }
    match s {
        SamplesModel::Raw(v) => {
            if v.len() >= MAX_RAW_SAMPLES {
                let w = v.push(value);
                assert(w.drop_last() =~= v);
                lemma_amount_in_buckets(s);
                lemma_counted_within(s, i);
                lemma_spread_with_one_more(accum::bucketing(v), i, INDICES as int);
                spread(accum::bucketing(v), INDICES as int).to_multiset_ensures();
                spread(accum::bucketing(w), INDICES as int).to_multiset_ensures();
                lemma_recorded_is_spread(accum::bucketing(w));
            }
        },
        SamplesModel::Buckets(m) => {
            lemma_spread_with_one_more(m, i, INDICES as int);
            spread(m, INDICES as int).to_multiset_ensures();
            spread(accum::plus(m, i, 1), INDICES as int).to_multiset_ensures();
            lemma_recorded_is_spread(m);
            lemma_recorded_is_spread(accum::plus(m, i, 1));
        },
    }
}

/// A duration is held for every call counted.
pub open spec fn in_step(a: AccumModel) -> bool {
    forall|f: u32|
        testing::recorded((#[trigger] accum::calls_of(a.calls, f)).ns).len() == accum::calls_of(
            a.calls,
            f,
        ).count
}

/// Where nothing has been measured there is neither a call nor a duration.
pub proof fn lemma_nothing_measured_is_in_step()
    ensures
        in_step(AccumModel::blank()),
{
}

/// A call that closes is counted once and leaves one duration. A recursive level
/// leaves neither.
pub proof fn lemma_a_closed_call_leaves_one_duration(a: AccumModel, c: Closed)
    requires
        in_step(a),
        c.outermost ==> {
            let held = accum::calls_of(a.calls, c.func);
            held.count < u64::MAX && both_fit(held.ns, SamplesModel::Raw(seq![c.elapsed]))
        },
    ensures
        in_step(calls::recording(a, c)),
        accum::calls_of(calls::recording(a, c).calls, c.func).count == accum::calls_of(
            a.calls,
            c.func,
        ).count + if c.outermost {
            1int
        } else {
            0
        },
{
    let held = accum::calls_of(a.calls, c.func);
    let after = calls::recording(a, c);
    if c.outermost {
        lemma_one_more_is_read_back(held.ns, c.elapsed);
    }
    assert forall|f: u32|
        testing::recorded((#[trigger] accum::calls_of(after.calls, f)).ns).len()
            == accum::calls_of(after.calls, f).count by {
        let before = accum::calls_of(a.calls, f);
        if c.outermost && f == c.func {
            assert(accum::calls_of(after.calls, f).ns == held.ns.adding(c.elapsed));
        } else {
            assert(accum::calls_of(after.calls, f) == before);
        }
    }
}

/// Two accumulators can be merged without a count overflowing.
pub open spec fn mergeable(a: AccumModel, b: AccumModel) -> bool {
    forall|f: u32|
        {
            let (x, y) = (#[trigger] accum::calls_of(a.calls, f), accum::calls_of(b.calls, f));
            x.count + y.count <= u64::MAX && both_fit(x.ns, y.ns)
        }
}

/// Merging what two threads measured loses no call and no duration.
pub proof fn lemma_merging_stays_in_step(a: AccumModel, b: AccumModel)
    requires
        in_step(a),
        in_step(b),
        mergeable(a, b),
    ensures
        in_step(a.absorbing(b)),
{
    let both = a.absorbing(b);
    assert forall|f: u32|
        testing::recorded((#[trigger] accum::calls_of(both.calls, f)).ns).len() == accum::calls_of(
            both.calls,
            f,
        ).count by {
        let (x, y) = (accum::calls_of(a.calls, f), accum::calls_of(b.calls, f));
        if b.calls.contains_key(f) {
            lemma_samples_add_up(x.ns, y.ns);
        } else {
            assert(accum::calls_of(both.calls, f) == x);
        }
    }
}

/// What every thread measured, merged, holds a duration for every call.
pub proof fn lemma_draining_stays_in_step(threads: Seq<AccumModel>)
    requires
        forall|n: int|
            0 <= n < threads.len() ==> in_step(#[trigger] threads[n]) && mergeable(
                accum::drained(threads.take(n)),
                threads[n],
            ),
    ensures
        in_step(accum::drained(threads)),
    decreases threads.len(),
{
    if threads.len() > 0 {
        let front = threads.drop_last();
        let last = threads.len() - 1;
        assert forall|n: int| 0 <= n < front.len() implies in_step(#[trigger] front[n])
            && mergeable(accum::drained(front.take(n)), front[n]) by {
            assert(front[n] == threads[n]);
            assert(front.take(n) =~= threads.take(n));
        }
        lemma_draining_stays_in_step(front);
        assert(in_step(threads[last]));
        assert(threads.take(last) =~= front);
        lemma_merging_stays_in_step(accum::drained(front), threads[last]);
    }
}

/// The calls of a function that an accumulator holds are those that took `v`.
pub open spec fn measured(a: AccumModel, f: u32, v: Seq<u64>) -> bool {
    let held = accum::calls_of(a.calls, f);
    held.ns == taking(v) && held.count == v.len()
}

/// Where nothing has been measured, no call of any function has.
pub proof fn lemma_nothing_measured(f: u32)
    ensures
        measured(AccumModel::blank(), f, Seq::empty()),
{
}

/// A call that closes puts its duration after those of its function, and leaves
/// every other function's as they were. A recursive level changes none.
pub proof fn lemma_a_closed_call_is_measured(a: AccumModel, c: Closed, f: u32, v: Seq<u64>)
    requires
        measured(a, f, v),
        v.len() < u64::MAX,
    ensures
        measured(
            calls::recording(a, c),
            f,
            if c.outermost && c.func == f {
                v.push(c.elapsed)
            } else {
                v
            },
        ),
{
    let after = calls::recording(a, c);
    if c.outermost && c.func == f {
        assert(v.push(c.elapsed).drop_last() =~= v);
        assert(accum::calls_of(after.calls, f).ns == taking(v).adding(c.elapsed));
    } else {
        assert(accum::calls_of(after.calls, f) == accum::calls_of(a.calls, f));
    }
}

/// Merging what two threads measured puts the durations of the one after those
/// of the other.
pub proof fn lemma_merged_calls_are_measured(
    a: AccumModel,
    b: AccumModel,
    f: u32,
    v: Seq<u64>,
    w: Seq<u64>,
)
    requires
        measured(a, f, v),
        measured(b, f, w),
        v.len() + w.len() <= u64::MAX,
    ensures
        measured(a.absorbing(b), f, v + w),
{
    let both = a.absorbing(b);
    lemma_merging_is_taking_in_turn(v, w);
    if !b.calls.contains_key(f) {
        assert(w =~= Seq::empty());
        assert(v + w =~= v);
        assert(accum::calls_of(both.calls, f) == accum::calls_of(a.calls, f));
    }
}

/// Draining puts the durations of every thread one after the other, first thread
/// to last.
pub proof fn lemma_drained_calls_are_measured(
    threads: Seq<AccumModel>,
    f: u32,
    vs: Seq<Seq<u64>>,
)
    requires
        threads.len() == vs.len(),
        forall|n: int| 0 <= n < threads.len() ==> measured(#[trigger] threads[n], f, vs[n]),
        vs.flatten().len() <= u64::MAX,
    ensures
        measured(accum::drained(threads), f, vs.flatten()),
    decreases threads.len(),
{
    if threads.len() == 0 {
        assert(vs.flatten() =~= Seq::empty());
    } else {
        let (front, last) = (threads.drop_last(), threads.len() - 1);
        let before = vs.drop_last();
        vs.lemma_flatten_and_flatten_alt_are_equivalent();
        before.lemma_flatten_and_flatten_alt_are_equivalent();
        assert(vs.flatten() == before.flatten() + vs.last());
        assert forall|n: int| 0 <= n < front.len() implies measured(
            #[trigger] front[n],
            f,
            before[n],
        ) by {
            assert(front[n] == threads[n]);
        }
        lemma_drained_calls_are_measured(front, f, before);
        assert(measured(threads[last], f, vs[last]));
        lemma_merged_calls_are_measured(
            accum::drained(front),
            threads[last],
            f,
            before.flatten(),
            vs.last(),
        );
    }
}

/// What asking for a function's durations by name gives.
pub open spec fn durations_by_name(a: AccumModel, s: SymbolsModel, name: Seq<char>) -> Seq<u64> {
    match symbols::function_place(s.functions, name, 0) {
        Some(i) => testing::recorded(accum::calls_of(a.calls, (i + 1) as u32).ns),
        None => Seq::empty(),
    }
}

/// What asking for a function's calls by name gives.
pub open spec fn calls_by_name(a: AccumModel, s: SymbolsModel, name: Seq<char>) -> u64 {
    match symbols::function_place(s.functions, name, 0) {
        Some(i) => accum::calls_of(a.calls, (i + 1) as u32).count,
        None => 0,
    }
}

/// A function has as many recorded durations as it has calls, by whatever name
/// it is asked for.
pub proof fn lemma_durations_are_as_many_as_calls(a: AccumModel, s: SymbolsModel, name: Seq<char>)
    requires
        in_step(a),
    ensures
        durations_by_name(a, s, name).len() == calls_by_name(a, s, name),
{
}

/// Asking for a function's durations by name gives one for every call, however
/// many threads they were measured on. Few come back as they were measured. Past
/// the cap each comes back as the least value of its bucket, and the list
/// ascends. A name that nothing goes by has none.
pub proof fn lemma_durations_by_name(
    a: AccumModel,
    s: SymbolsModel,
    name: Seq<char>,
    v: Seq<u64>,
)
    requires
        match symbols::function_place(s.functions, name, 0) {
            Some(i) => measured(a, (i + 1) as u32, v),
            None => v.len() == 0,
        },
        countable(v),
    ensures
        durations_by_name(a, s, name).len() == v.len(),
        calls_by_name(a, s, name) == v.len(),
        v.len() <= MAX_RAW_SAMPLES ==> durations_by_name(a, s, name) == v,
        v.len() > MAX_RAW_SAMPLES ==> {
            &&& durations_by_name(a, s, name).to_multiset() == lows(v).to_multiset()
            &&& ascends(durations_by_name(a, s, name))
        },
{
    lemma_every_duration_is_read_back(v);
    if symbols::function_place(s.functions, name, 0) is None {
        assert(v =~= Seq::empty());
    }
}

/// Every function goes by a name of its own.
pub open spec fn distinct_names(s: SymbolsModel) -> bool {
    forall|i: int, j: int|
        0 <= i < j < s.functions.len() ==> (#[trigger] s.functions[i]).name != (
        #[trigger] s.functions[j]).name
}

/// The self time of the listed chains that end in a name.
pub open spec fn ending_in(list: Seq<StackTrace>, name: Seq<char>) -> nat
    decreases list.len(),
{
    if list.len() == 0 {
        0
    } else {
        let before = ending_in(list.drop_last(), name);
        let t = list.last();
        if t.chain.len() > 0 && t.chain.last() == name {
            before + t.self_ns as nat
        } else {
            before
        }
    }
}

/// The self time of all of them.
pub open spec fn in_chains(list: Seq<StackTrace>) -> nat
    decreases list.len(),
{
    if list.len() == 0 {
        0
    } else {
        in_chains(list.drop_last()) + list.last().self_ns as nat
    }
}

/// The self time of the first `k` functions.
pub open spec fn in_functions(a: AccumModel, s: SymbolsModel, k: nat) -> nat
    decreases k,
{
    if k == 0 {
        0
    } else {
        in_functions(a, s, (k - 1) as nat) + testing::self_among(
            a,
            s,
            k as u32,
            s.table.nodes.len(),
        )
    }
}

/// What asking for a function's self time by name gives, before it is held to
/// the largest count.
pub open spec fn self_by_name(a: AccumModel, s: SymbolsModel, name: Seq<char>) -> nat {
    match symbols::function_place(s.functions, name, 0) {
        Some(i) => testing::self_among(a, s, (i + 1) as u32, s.table.nodes.len()),
        None => 0,
    }
}

proof fn lemma_one_chain_more(list: Seq<StackTrace>, at: int, t: StackTrace, name: Seq<char>)
    requires
        0 <= at <= list.len(),
    ensures
        in_chains(list.insert(at, t)) == in_chains(list) + t.self_ns,
        ending_in(list.insert(at, t), name) == ending_in(list, name) + if t.chain.len() > 0
            && t.chain.last() == name {
            t.self_ns as nat
        } else {
            0
        },
    decreases list.len(),
{
    let after = list.insert(at, t);
    if at == list.len() {
        assert(after.drop_last() =~= list);
    } else {
        assert(after.drop_last() =~= list.drop_last().insert(at, t));
        assert(after.last() == list.last());
        lemma_one_chain_more(list.drop_last(), at, t, name);
    }
}

/// A context's chain ends in its own function, and no other context has it.
proof fn lemma_a_chain_is_one_context(s: SymbolsModel, a: u32, b: u32)
    requires
        s.wf(),
        distinct_names(s),
        1 <= a <= s.table.nodes.len(),
        b <= s.table.nodes.len(),
    ensures
        testing::chain(s, a).len() > 0,
        testing::chain(s, a).last() == testing::name_of(s, s.table.nodes[a - 1].1),
        testing::chain(s, a) == testing::chain(s, b) ==> a == b,
    decreases a,
{
    let (parent, func) = s.table.nodes[a - 1];
    assert(parent <= a - 1);
    assert(testing::chain(s, a) == testing::chain(s, parent).push(testing::name_of(s, func)));
    if testing::chain(s, a) == testing::chain(s, b) {
        if b == 0 {
            assert(testing::chain(s, b).len() == 0);
        } else {
            let (above, other) = s.table.nodes[b - 1];
            assert(above <= b - 1);
            let (x, y) = (testing::chain(s, parent), testing::chain(s, above));
            assert(testing::chain(s, b) == y.push(testing::name_of(s, other)));
            assert(testing::chain(s, a).drop_last() =~= x);
            assert(testing::chain(s, b).drop_last() =~= y);
            assert(testing::chain(s, b).last() == testing::name_of(s, other));
            assert(1 <= s.table.nodes[a - 1].1 <= s.functions.len());
            assert(1 <= s.table.nodes[b - 1].1 <= s.functions.len());
            if func < other {
                assert(s.functions[func - 1].name != s.functions[other - 1].name);
            } else if other < func {
                assert(s.functions[other - 1].name != s.functions[func - 1].name);
            }
            assert(func == other);
            if parent > 0 {
                lemma_a_chain_is_one_context(s, parent, above);
            } else if above > 0 {
                assert(s.table.nodes[above - 1].0 <= above - 1);
                assert(y.len() > 0);
            }
            assert(parent == above);
            if a < b {
                assert(s.table.nodes[a - 1] != s.table.nodes[b - 1]);
            } else if b < a {
                assert(s.table.nodes[b - 1] != s.table.nodes[a - 1]);
            }
        }
    }
}

proof fn lemma_listed_chains_are_contexts(a: AccumModel, s: SymbolsModel, n: nat, j: int)
    requires
        n <= s.table.nodes.len() <= u32::MAX,
        0 <= j < testing::stacks_among(a, s, n).len(),
    ensures
        exists|id: u32|
            1 <= id <= n && testing::stacks_among(a, s, n)[j].chain == #[trigger] testing::chain(
                s,
                id,
            ),
    decreases n,
{
    if n > 0 {
        let before = testing::stacks_among(a, s, (n - 1) as nat);
        let list = testing::stacks_among(a, s, n);
        let id = n as u32;
        if a.stacks.contains_key(id) {
            let at = testing::chain_place(before, testing::chain(s, id), 0);
            testing::lemma_chain_place(before, testing::chain(s, id), 0);
            if list.len() == before.len() {
                if j == at {
                    assert(list[j].chain == testing::chain(s, id));
                } else {
                    assert(list[j] == before[j]);
                    lemma_listed_chains_are_contexts(a, s, (n - 1) as nat, j);
                }
            } else if j == at {
                assert(list[j].chain == testing::chain(s, id));
            } else {
                let k = if j < at {
                    j
                } else {
                    j - 1
                };
                assert(list[j] == before[k]);
                lemma_listed_chains_are_contexts(a, s, (n - 1) as nat, k);
            }
        } else {
            lemma_listed_chains_are_contexts(a, s, (n - 1) as nat, j);
        }
    }
}

/// Self time of everything among the first `n` contexts.
spec fn self_in_all(a: AccumModel, n: nat) -> nat
    decreases n,
{
    if n == 0 {
        0
    } else {
        self_in_all(a, (n - 1) as nat) + if a.stacks.contains_key(n as u32) {
            a.stacks[n as u32].self_ns as nat
        } else {
            0
        }
    }
}

proof fn lemma_chains_among(a: AccumModel, s: SymbolsModel, func: u32, n: nat)
    requires
        s.wf(),
        distinct_names(s),
        1 <= func <= s.functions.len(),
        n <= s.table.nodes.len(),
    ensures
        ending_in(testing::stacks_among(a, s, n), testing::name_of(s, func))
            == testing::self_among(a, s, func, n),
        in_chains(testing::stacks_among(a, s, n)) == self_in_all(a, n),
    decreases n,
{
    if n > 0 {
        lemma_chains_among(a, s, func, (n - 1) as nat);
        let before = testing::stacks_among(a, s, (n - 1) as nat);
        let id = n as u32;
        if a.stacks.contains_key(id) {
            let t = StackTrace {
                chain: testing::chain(s, id),
                calls: a.stacks[id].count,
                self_ns: a.stacks[id].self_ns,
            };
            let at = testing::chain_place(before, t.chain, 0);
            testing::lemma_chain_place(before, t.chain, 0);
            lemma_a_chain_is_one_context(s, id, 0);
            if at < before.len() && before[at].chain == t.chain {
                lemma_listed_chains_are_contexts(a, s, (n - 1) as nat, at);
                let other = choose|other: u32|
                    1 <= other <= n - 1 && before[at].chain == #[trigger] testing::chain(s, other);
                lemma_a_chain_is_one_context(s, id, other);
            }
            lemma_one_chain_more(before, at, t, testing::name_of(s, func));
            let own = s.table.nodes[n - 1].1;
            assert(1 <= own <= s.functions.len());
            if own < func {
                assert(s.functions[own - 1].name != s.functions[func - 1].name);
            } else if func < own {
                assert(s.functions[func - 1].name != s.functions[own - 1].name);
            }
        }
    }
}

proof fn lemma_no_chain_ends_so(a: AccumModel, s: SymbolsModel, name: Seq<char>, n: nat)
    requires
        s.wf(),
        distinct_names(s),
        forall|i: int| 0 <= i < s.functions.len() ==> (#[trigger] s.functions[i]).name != name,
        n <= s.table.nodes.len(),
    ensures
        ending_in(testing::stacks_among(a, s, n), name) == 0,
    decreases n,
{
    if n > 0 {
        lemma_no_chain_ends_so(a, s, name, (n - 1) as nat);
        let before = testing::stacks_among(a, s, (n - 1) as nat);
        let id = n as u32;
        if a.stacks.contains_key(id) {
            let t = StackTrace {
                chain: testing::chain(s, id),
                calls: a.stacks[id].count,
                self_ns: a.stacks[id].self_ns,
            };
            let at = testing::chain_place(before, t.chain, 0);
            testing::lemma_chain_place(before, t.chain, 0);
            lemma_a_chain_is_one_context(s, id, 0);
            if at < before.len() && before[at].chain == t.chain {
                lemma_listed_chains_are_contexts(a, s, (n - 1) as nat, at);
                let other = choose|other: u32|
                    1 <= other <= n - 1 && before[at].chain == #[trigger] testing::chain(s, other);
                lemma_a_chain_is_one_context(s, id, other);
            }
            lemma_one_chain_more(before, at, t, name);
            let own = s.table.nodes[n - 1].1;
            assert(1 <= own <= s.functions.len());
            assert(s.functions[own - 1].name != name);
        }
    }
}

proof fn lemma_a_name_has_a_place(functions: Seq<symbols::SiteModel>, name: Seq<char>, from: int, i: int)
    requires
        0 <= from <= i < functions.len(),
        functions[i].name == name,
    ensures
        symbols::function_place(functions, name, from) is Some,
    decreases functions.len() - from,
{
    if !symbols::Site::goes_by(functions[from], name) {
        lemma_a_name_has_a_place(functions, name, from + 1, i);
    }
}

proof fn lemma_place_is_inside(functions: Seq<symbols::SiteModel>, name: Seq<char>, from: int)
    requires
        0 <= from,
    ensures
        symbols::function_place(functions, name, from) matches Some(i) ==> from <= i
            < functions.len(),
    decreases functions.len() - from,
{
    if from < functions.len() && !symbols::Site::goes_by(functions[from], name) {
        lemma_place_is_inside(functions, name, from + 1);
    }
}

/// The self time of a name is the sum over the chains that end in it, and of a
/// name nothing goes by it is nothing, as no chain ends in it either.
pub proof fn lemma_self_time_is_the_sum_over_chains(
    a: AccumModel,
    s: SymbolsModel,
    name: Seq<char>,
)
    requires
        s.wf(),
        distinct_names(s),
        symbols::function_place(s.functions, name, 0) matches Some(i) ==> s.functions[i].name
            == name,
    ensures
        self_by_name(a, s, name) == ending_in(
            testing::stacks_among(a, s, s.table.nodes.len()),
            name,
        ),
{
    let n = s.table.nodes.len();
    lemma_place_is_inside(s.functions, name, 0);
    match symbols::function_place(s.functions, name, 0) {
        Some(i) => {
            assert(s.functions[i].id == i + 1);
            lemma_chains_among(a, s, (i + 1) as u32, n);
        },
        None => {
            assert forall|i: int| 0 <= i < s.functions.len() implies (
            #[trigger] s.functions[i]).name != name by {
                if s.functions[i].name == name {
                    lemma_a_name_has_a_place(s.functions, name, 0, i);
                }
            }
            lemma_no_chain_ends_so(a, s, name, n);
        },
    }
}

/// The self time of the first `k` functions over the first `n` contexts.
spec fn in_functions_among(a: AccumModel, s: SymbolsModel, k: nat, n: nat) -> nat
    decreases k,
{
    if k == 0 {
        0
    } else {
        in_functions_among(a, s, (k - 1) as nat, n) + testing::self_among(a, s, k as u32, n)
    }
}

proof fn lemma_functions_among(a: AccumModel, s: SymbolsModel, k: nat, n: nat)
    requires
        k <= s.functions.len() <= u32::MAX,
        0 < n <= s.table.nodes.len(),
        1 <= s.table.nodes[n - 1].1,
    ensures
        in_functions_among(a, s, k, n) == in_functions_among(a, s, k, (n - 1) as nat)
            + if s.table.nodes[n - 1].1 <= k && a.stacks.contains_key(n as u32) {
            a.stacks[n as u32].self_ns as nat
        } else {
            0
        },
    decreases k,
{
    if k > 0 {
        lemma_functions_among(a, s, (k - 1) as nat, n);
    }
}

proof fn lemma_nothing_among_none(a: AccumModel, s: SymbolsModel, k: nat)
    ensures
        in_functions_among(a, s, k, 0) == 0,
    decreases k,
{
    if k > 0 {
        lemma_nothing_among_none(a, s, (k - 1) as nat);
    }
}

proof fn lemma_all_functions_among(a: AccumModel, s: SymbolsModel, n: nat)
    requires
        s.wf(),
        n <= s.table.nodes.len(),
    ensures
        in_functions_among(a, s, s.functions.len(), n) == self_in_all(a, n),
    decreases n,
{
    if n == 0 {
        lemma_nothing_among_none(a, s, s.functions.len());
    } else {
        lemma_all_functions_among(a, s, (n - 1) as nat);
        assert(1 <= s.table.nodes[n - 1].1 <= s.functions.len());
        lemma_functions_count(s);
        lemma_functions_among(a, s, s.functions.len(), n);
    }
}

proof fn lemma_functions_count(s: SymbolsModel)
    requires
        s.wf(),
    ensures
        s.functions.len() <= u32::MAX,
{
    if s.functions.len() > 0 {
        assert(s.functions[s.functions.len() - 1].id == s.functions.len());
    }
}

proof fn lemma_in_functions(a: AccumModel, s: SymbolsModel, k: nat)
    ensures
        in_functions(a, s, k) == in_functions_among(a, s, k, s.table.nodes.len()),
    decreases k,
{
    if k > 0 {
        lemma_in_functions(a, s, (k - 1) as nat);
    }
}

/// Summed over every function, self time is the sum over every chain: no
/// nanosecond is left out and none counted twice.
pub proof fn lemma_self_time_over_functions_is_that_over_chains(a: AccumModel, s: SymbolsModel)
    requires
        s.wf(),
        distinct_names(s),
    ensures
        in_functions(a, s, s.functions.len()) == in_chains(
            testing::stacks_among(a, s, s.table.nodes.len()),
        ),
{
    let n = s.table.nodes.len();
    lemma_in_functions(a, s, s.functions.len());
    lemma_all_functions_among(a, s, n);
    if s.functions.len() > 0 {
        lemma_functions_count(s);
        lemma_chains_among(a, s, 1, n);
    } else {
        if n > 0 {
            assert(1 <= s.table.nodes[0].1 <= s.functions.len());
        }
    }
}

} // verus!
