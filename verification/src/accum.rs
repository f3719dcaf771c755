//! What one thread has measured and not yet handed over.
use std::collections::BTreeMap;

use vstd::prelude::*;

use crate::dist;
use crate::dist::{Dist, MAX_RAW_SAMPLES};
use crate::ordered;
use crate::quantity;
use crate::ring;

verus! {

broadcast use crate::ordered::group_sorted_maps;

/// The sum of two bucket counts, held at the largest where it would not fit.
pub open spec fn capped32(a: u32, b: u32) -> u32 {
    if a + b > u32::MAX {
        u32::MAX
    } else {
        (a + b) as u32
    }
}

/// Samples a histogram holds in bucket `i`.
pub open spec fn counted(m: Map<u16, u32>, i: u16) -> u32 {
    match ring::held(m, i) {
        Some(n) => n,
        None => 0,
    }
}

/// A histogram with `n` more samples in bucket `i`.
pub open spec fn plus(m: Map<u16, u32>, i: u16, n: u32) -> Map<u16, u32> {
    m.insert(i, capped32(counted(m, i), n))
}

/// The histogram of raw samples.
pub open spec fn bucketing(v: Seq<u64>) -> Map<u16, u32>
    decreases v.len(),
{
    if v.len() == 0 {
        Map::empty()
    } else {
        plus(bucketing(v.drop_last()), dist::bucket_index(v.last()), 1)
    }
}

/// Two histograms added up, bucket by bucket.
pub open spec fn merging(a: Map<u16, u32>, b: Map<u16, u32>) -> Map<u16, u32> {
    Map::new(
        |i: u16| a.contains_key(i) || b.contains_key(i),
        |i: u16| capped32(counted(a, i), counted(b, i)),
    )
}

/// Durations for one function in one window.
///
/// Raw while the window is small enough for the daemon to bucket them itself,
/// which keeps real nanosecond values on the wire. Past the protocol's cap it
/// folds to buckets and stays there, so one busy window cannot grow without
/// bound.
#[derive(Debug)]
pub enum Samples {
    Raw(Vec<u64>),
    Buckets(BTreeMap<u16, u32>),
}

/// What [`Samples`] hold.
#[verifier::ext_equal]
pub enum SamplesModel {
    Raw(Seq<u64>),
    Buckets(Map<u16, u32>),
}

impl View for Samples {
    type V = SamplesModel;

    open spec fn view(&self) -> SamplesModel {
        match *self {
            Samples::Raw(v) => SamplesModel::Raw(v@),
            Samples::Buckets(m) => SamplesModel::Buckets(m@),
        }
    }
}

impl SamplesModel {
    /// The samples as a histogram.
    pub open spec fn buckets(self) -> Map<u16, u32> {
        match self {
            SamplesModel::Raw(v) => bucketing(v),
            SamplesModel::Buckets(m) => m,
        }
    }

    /// One more sample.
    pub open spec fn adding(self, value: u64) -> SamplesModel {
        match self {
            SamplesModel::Raw(v) => if v.len() < MAX_RAW_SAMPLES {
                SamplesModel::Raw(v.push(value))
            } else {
                SamplesModel::Buckets(bucketing(v.push(value)))
            },
            SamplesModel::Buckets(m) => SamplesModel::Buckets(
                plus(m, dist::bucket_index(value), 1),
            ),
        }
    }

    /// The samples of both: raw while they fit the cap together, a histogram
    /// past it.
    pub open spec fn absorbing(self, other: SamplesModel) -> SamplesModel {
        match (self, other) {
            (SamplesModel::Raw(v), SamplesModel::Raw(w)) if v.len() + w.len() <= MAX_RAW_SAMPLES =>
            SamplesModel::Raw(v + w),
            _ => SamplesModel::Buckets(merging(self.buckets(), other.buckets())),
        }
    }

    /// Samples in bucket `i`.
    pub open spec fn within(self, i: u16) -> nat {
        match self {
            SamplesModel::Raw(v) => dist::tally(dist::sample_entries(v), i),
            SamplesModel::Buckets(m) => counted(m, i) as nat,
        }
    }

    /// The entries the samples go on the wire as.
    pub open spec fn entries(self) -> Seq<(u16, u32)> {
        match self {
            SamplesModel::Raw(v) => dist::sample_entries(v),
            SamplesModel::Buckets(m) => ordered::rising_u16(m.dom()).map_values(
                |i: u16| (i, m[i]),
            ),
        }
    }
}

/// Bucketing puts every sample where it belongs, once.
pub proof fn lemma_bucketing_keeps_every_sample(v: Seq<u64>, i: u16)
    ensures
        counted(bucketing(v), i) == dist::clamp32(dist::tally(dist::sample_entries(v), i)),
    decreases v.len(),
{
    if v.len() > 0 {
        lemma_bucketing_keeps_every_sample(v.drop_last(), i);
        assert(dist::sample_entries(v).drop_last() =~= dist::sample_entries(v.drop_last()));
    }
}

/// Adding a sample adds one to its bucket and to no other, whether or not it is
/// the sample that folds the rest to buckets.
pub proof fn lemma_adding_loses_no_sample(s: SamplesModel, value: u64, i: u16)
    requires
        s.within(i) < u32::MAX,
        s matches SamplesModel::Raw(v) ==> v.len() <= MAX_RAW_SAMPLES,
    ensures
        s.adding(value).within(i) == s.within(i) + if dist::bucket_index(value) == i {
            1nat
        } else {
            0
        },
{
    if let SamplesModel::Raw(v) = s {
        let w = v.push(value);
        assert(w.drop_last() =~= v);
        assert(dist::sample_entries(w).drop_last() =~= dist::sample_entries(v));
        lemma_bucketing_keeps_every_sample(w, i);
    }
}

proof fn lemma_tally_of_two(a: Seq<(u16, u32)>, b: Seq<(u16, u32)>, i: u16)
    ensures
        dist::tally(a + b, i) == dist::tally(a, i) + dist::tally(b, i),
    decreases b.len(),
{
    if b.len() > 0 {
        lemma_tally_of_two(a, b.drop_last(), i);
        assert((a + b).drop_last() =~= a + b.drop_last());
        assert((a + b).last() == b.last());
    } else {
        assert(a + b =~= a);
    }
}

/// Putting two lots of samples together loses none and makes up none.
pub proof fn lemma_absorbing_loses_no_sample(s: SamplesModel, other: SamplesModel, i: u16)
    requires
        s.within(i) + other.within(i) <= u32::MAX,
    ensures
        s.absorbing(other).within(i) == s.within(i) + other.within(i),
{
    if let SamplesModel::Raw(v) = s {
        lemma_bucketing_keeps_every_sample(v, i);
    }
    if let SamplesModel::Raw(w) = other {
        lemma_bucketing_keeps_every_sample(w, i);
    }
    if let (SamplesModel::Raw(v), SamplesModel::Raw(w)) = (s, other) {
        assert(dist::sample_entries(v + w) =~= dist::sample_entries(v) + dist::sample_entries(w));
        lemma_tally_of_two(dist::sample_entries(v), dist::sample_entries(w), i);
    }
}

/// Adds to one bucket of a histogram.
fn add_to_bucket(m: &mut BTreeMap<u16, u32>, index: u16, count: u32)
    ensures
        final(m)@ == plus(old(m)@, index, count),
{
    let held: u32 = match m.get(&index) {
        Some(n) => *n,
        None => 0,
    };
    m.insert(index, held.saturating_add(count));
}

fn bucket_all(v: &Vec<u64>) -> (r: BTreeMap<u16, u32>)
    ensures
        r@ == bucketing(v@),
{
    let mut buckets: BTreeMap<u16, u32> = BTreeMap::new();
    for n in 0..v.len()
        invariant
            buckets@ == bucketing(v@.take(n as int)),
    {
        proof {
            assert(v@.take(n + 1).drop_last() =~= v@.take(n as int));
        }
        add_to_bucket(&mut buckets, dist::bucket_of(v[n]), 1);
    }
    proof {
        assert(v@.take(v@.len() as int) =~= v@);
    }
    buckets
}

impl Default for Samples {
    fn default() -> (r: Self)
        ensures
            r@ == SamplesModel::Raw(Seq::empty()),
    {
        Samples::Raw(Vec::new())
    }
}

impl Samples {
    pub fn add(&mut self, value: u64)
        ensures
            final(self)@ == old(self)@.adding(value),
    {
        let mut held = Samples::Raw(Vec::new());
        std::mem::swap(&mut held, self);
        match held {
            Samples::Raw(values) => {
                let mut values = values;
                let fits = values.len() < MAX_RAW_SAMPLES;
                values.push(value);
                if fits {
                    *self = Samples::Raw(values);
                } else {
                    *self = Samples::Buckets(bucket_all(&values));
                }
            },
            Samples::Buckets(buckets) => {
                let mut buckets = buckets;
                add_to_bucket(&mut buckets, dist::bucket_of(value), 1);
                *self = Samples::Buckets(buckets);
            },
        }
    }

    pub fn into_buckets(self) -> (r: BTreeMap<u16, u32>)
        ensures
            r@ == self@.buckets(),
    {
        match self {
            Samples::Raw(values) => bucket_all(&values),
            Samples::Buckets(buckets) => buckets,
        }
    }

    pub fn absorb(&mut self, other: Samples)
        ensures
            final(self)@ == old(self)@.absorbing(other@),
    {
        let mut held = Samples::Raw(Vec::new());
        std::mem::swap(&mut held, self);
        if let (Samples::Raw(mine), Samples::Raw(theirs)) = (&held, &other) {
            if mine.len() <= MAX_RAW_SAMPLES && theirs.len() <= MAX_RAW_SAMPLES - mine.len() {
                let mut both: Vec<u64> = Vec::new();
                for n in 0..mine.len()
                    invariant
                        both@ =~= mine@.take(n as int),
                {
                    both.push(mine[n]);
                }
                for n in 0..theirs.len()
                    invariant
                        both@ =~= mine@ + theirs@.take(n as int),
                {
                    both.push(theirs[n]);
                }
                *self = Samples::Raw(both);
                proof {
                    assert(both@ =~= mine@ + theirs@);
                }
                return;
            }
        }
        let ghost (a, b) = (held@.buckets(), other@.buckets());
        let mut buckets = held.into_buckets();
        let more = other.into_buckets();
        let keys = ordered::keys_u16(&more);
        for n in 0..keys.len()
            invariant
                more@ == b,
                ordered::lists_u16(keys@, b.dom()),
                forall|i: u16|
                    #![trigger buckets@.contains_key(i)]
                    buckets@.contains_key(i) == (a.contains_key(i) || keys@.take(
                        n as int,
                    ).contains(i)),
                forall|i: u16| #[trigger]
                    counted(buckets@, i) == if keys@.take(n as int).contains(i) {
                        capped32(counted(a, i), counted(b, i))
                    } else {
                        counted(a, i)
                    },
        {
            let key: u16 = keys[n];
            let ghost before = buckets@;
            proof {
                assert(keys@.contains(keys@[n as int]));
                assert(keys@.take(n + 1) =~= keys@.take(n as int).push(key));
                assert(!keys@.take(n as int).contains(key)) by {
                    if keys@.take(n as int).contains(key) {
                        let k = choose|k: int|
                            0 <= k < n && keys@.take(n as int)[k] == key;
                        assert(keys@[k] < keys@[n as int]);
                    }
                }
                assert(counted(before, key) == counted(a, key));
            }
            if let Some(count) = more.get(&key) {
                add_to_bucket(&mut buckets, key, *count);
            }
            proof {
                assert forall|i: u16| keys@.take(n + 1).contains(i) == (keys@.take(
                    n as int,
                ).contains(i) || i == key) by {
                    if keys@.take(n as int).contains(i) {
                        let k = choose|k: int| 0 <= k < n && keys@.take(n as int)[k] == i;
                        assert(keys@.take(n + 1)[k] == i);
                    }
                    assert(keys@.take(n + 1)[n as int] == key);
                }
                assert forall|i: u16| #[trigger] counted(buckets@, i) == if keys@.take(
                    n + 1,
                ).contains(i) {
                    capped32(counted(a, i), counted(b, i))
                } else {
                    counted(a, i)
                } by {
                    assert(counted(before, i) == if keys@.take(n as int).contains(i) {
                        capped32(counted(a, i), counted(b, i))
                    } else {
                        counted(a, i)
                    });
                }
            }
        }
        proof {
            assert(keys@.take(keys@.len() as int) =~= keys@);
            assert forall|i: u16| #[trigger] buckets@.contains_key(i) implies buckets@[i]
                == merging(a, b)[i] by {
                assert(counted(buckets@, i) == buckets@[i]);
                if !keys@.contains(i) {
                    assert(!b.contains_key(i));
                }
            }
            assert(buckets@ =~= merging(a, b));
        }
        *self = Samples::Buckets(buckets);
    }

    /// The samples as they go on the wire, buckets in index order so the shape
    /// is stable.
    pub fn into_dist(self) -> (r: Dist)
        ensures
            r.entries() == self@.entries(),
            r is Raw <==> self@ is Raw,
            self@ matches SamplesModel::Raw(v) ==> r matches Dist::Raw { v: w } && w@ == v,
    {
        match self {
            Samples::Raw(values) => Dist::Raw { v: values },
            Samples::Buckets(buckets) => {
                let keys = ordered::keys_u16(&buckets);
                let ghost whole = SamplesModel::Buckets(buckets@).entries();
                let mut b: Vec<(u16, u32)> = Vec::new();
                for n in 0..keys.len()
                    invariant
                        ordered::lists_u16(keys@, buckets@.dom()),
                        whole == keys@.map_values(|i: u16| (i, buckets@[i])),
                        b@ =~= whole.take(n as int),
                {
                    proof {
                        assert(keys@.contains(keys@[n as int]));
                    }
                    if let Some(count) = buckets.get(&keys[n]) {
                        b.push((keys[n], *count));
                    }
                }
                proof {
                    assert(b@ =~= whole);
                }
                Dist::Buckets { b }
            },
        }
    }
}

/// What goes on the wire is what was sampled, bucket by bucket.
pub proof fn lemma_the_wire_carries_every_sample(s: SamplesModel, keys: Seq<u16>, i: u16)
    requires
        s matches SamplesModel::Buckets(m) ==> ordered::lists_u16(keys, m.dom()) && keys
            == ordered::rising_u16(m.dom()),
    ensures
        dist::tally(s.entries(), i) == s.within(i),
        s is Buckets ==> forall|a: int, b: int|
            0 <= a < b < s.entries().len() ==> (#[trigger] s.entries()[a]).0 < (
            #[trigger] s.entries()[b]).0,
{
    if let SamplesModel::Buckets(m) = s {
        let e = s.entries();
        if m.contains_key(i) {
            assert(keys.contains(i));
            let k = choose|k: int| 0 <= k < keys.len() && keys[k] == i;
            assert(e[k] == (i, m[i]));
            dist::lemma_tally_of_ascending(e, k);
        } else {
            assert forall|k: int| 0 <= k < e.len() implies (#[trigger] e[k]).0 != i by {
                assert(keys.contains(keys[k]));
            }
            dist::lemma_tally_of_absent(e, i);
        }
    }
}

/// One calling context's share of a window.
#[derive(Debug, Clone, Copy, PartialEq, Eq, Structural)]
pub struct StackStat {
    pub count: u64,
    pub self_ns: u64,
}

/// One function's share of a window.
#[derive(Debug)]
pub struct CallStat {
    pub count: u64,
    pub ns: Samples,
}

/// What a [`CallStat`] holds.
#[verifier::ext_equal]
pub struct CallStatModel {
    pub count: u64,
    pub ns: SamplesModel,
}

impl View for CallStat {
    type V = CallStatModel;

    open spec fn view(&self) -> CallStatModel {
        CallStatModel { count: self.count, ns: self.ns@ }
    }
}

/// Everything measured in a window.
#[derive(Debug)]
pub struct Accum {
    pub edges: BTreeMap<(u32, u32), u64>,
    pub calls: BTreeMap<u32, CallStat>,
    pub stacks: BTreeMap<u32, StackStat>,
}

/// What an [`Accum`] holds.
#[verifier::ext_equal]
pub struct AccumModel {
    pub edges: Map<(u32, u32), u64>,
    pub calls: Map<u32, CallStatModel>,
    pub stacks: Map<u32, StackStat>,
}

impl View for Accum {
    type V = AccumModel;

    open spec fn view(&self) -> AccumModel {
        AccumModel {
            edges: self.edges@,
            calls: self.calls@.map_values(|s: CallStat| s@),
            stacks: self.stacks@,
        }
    }
}

/// The calls a function has, where it has any.
pub open spec fn calls_of(m: Map<u32, CallStatModel>, f: u32) -> CallStatModel {
    match ring::held(m, f) {
        Some(s) => s,
        None => CallStatModel { count: 0, ns: SamplesModel::Raw(Seq::empty()) },
    }
}

/// The share a context has, where it has any.
pub open spec fn share_of(m: Map<u32, StackStat>, path: u32) -> StackStat {
    match ring::held(m, path) {
        Some(s) => s,
        None => StackStat { count: 0, self_ns: 0 },
    }
}

/// The count an edge has, where it has any.
pub open spec fn count_of(m: Map<(u32, u32), u64>, pair: (u32, u32)) -> u64 {
    match ring::held(m, pair) {
        Some(n) => n,
        None => 0,
    }
}

/// The sum of two shares.
pub open spec fn shares(a: StackStat, b: StackStat) -> StackStat {
    StackStat {
        count: quantity::capped(a.count, b.count),
        self_ns: quantity::capped(a.self_ns, b.self_ns),
    }
}

impl AccumModel {
    /// Nothing measured.
    pub open spec fn blank() -> AccumModel {
        AccumModel { edges: Map::empty(), calls: Map::empty(), stacks: Map::empty() }
    }

    /// One more call along an edge.
    pub open spec fn plus_edge(self, pair: (u32, u32)) -> AccumModel {
        AccumModel {
            edges: self.edges.insert(pair, quantity::capped(count_of(self.edges, pair), 1)),
            ..self
        }
    }

    /// A context's share, with more time and perhaps one more activation.
    pub open spec fn plus_share(self, path: u32, more: StackStat) -> AccumModel {
        AccumModel {
            stacks: self.stacks.insert(path, shares(share_of(self.stacks, path), more)),
            ..self
        }
    }

    /// One more call of a function.
    pub open spec fn plus_call(self, func: u32, elapsed: u64) -> AccumModel {
        let s = calls_of(self.calls, func);
        AccumModel {
            calls: self.calls.insert(
                func,
                CallStatModel {
                    count: quantity::capped(s.count, 1),
                    ns: s.ns.adding(elapsed),
                },
            ),
            ..self
        }
    }

    /// Everything both have measured.
    pub open spec fn absorbing(self, other: AccumModel) -> AccumModel {
        AccumModel {
            edges: Map::new(
                |p: (u32, u32)| self.edges.contains_key(p) || other.edges.contains_key(p),
                |p: (u32, u32)|
                    quantity::capped(count_of(self.edges, p), count_of(other.edges, p)),
            ),
            calls: Map::new(
                |f: u32| self.calls.contains_key(f) || other.calls.contains_key(f),
                |f: u32|
                    if other.calls.contains_key(f) {
                        CallStatModel {
                            count: quantity::capped(
                                calls_of(self.calls, f).count,
                                other.calls[f].count,
                            ),
                            ns: calls_of(self.calls, f).ns.absorbing(other.calls[f].ns),
                        }
                    } else {
                        self.calls[f]
                    },
            ),
            stacks: Map::new(
                |p: u32| self.stacks.contains_key(p) || other.stacks.contains_key(p),
                |p: u32| shares(share_of(self.stacks, p), share_of(other.stacks, p)),
            ),
        }
    }
}

/// One more key has been dealt with.
pub proof fn lemma_one_more<K>(keys: Seq<K>, n: int)
    requires
        0 <= n < keys.len(),
        forall|i: int, j: int| 0 <= i < j < keys.len() ==> #[trigger] keys[i] != #[trigger] keys[j],
    ensures
        !keys.take(n).contains(keys[n]),
        forall|k: K| #[trigger]
            keys.take(n + 1).contains(k) <==> (keys.take(n).contains(k) || k == keys[n]),
{
    assert forall|k: K| #[trigger] keys.take(n + 1).contains(k) <==> (keys.take(n).contains(k) || k
        == keys[n]) by {
        if keys.take(n).contains(k) {
            let i = choose|i: int| 0 <= i < n && keys.take(n)[i] == k;
            assert(keys.take(n + 1)[i] == k);
        }
        assert(keys.take(n + 1)[n] == keys[n]);
        if keys.take(n + 1).contains(k) && k != keys[n] {
            let more = keys.take(n + 1);
            let i = choose|i: int| 0 <= i < more.len() && more[i] == k;
            assert(keys.take(n)[i] == k);
        }
    }
    if keys.take(n).contains(keys[n]) {
        let i = choose|i: int| 0 <= i < n && keys.take(n)[i] == keys[n];
        assert(keys[i] != keys[n]);
    }
}

impl Default for Accum {
    fn default() -> (r: Self)
        ensures
            r@ == AccumModel::blank(),
    {
        let r = Accum { edges: BTreeMap::new(), calls: BTreeMap::new(), stacks: BTreeMap::new() };
        proof {
            assert(r@ =~= AccumModel::blank());
        }
        r
    }
}

impl Accum {
    /// Counts one call along an edge.
    pub fn add_edge(&mut self, pair: (u32, u32))
        ensures
            final(self)@ == old(self)@.plus_edge(pair),
    {
        let ghost before = self@;
        let count: u64 = match self.edges.get(&pair) {
            Some(n) => *n,
            None => 0,
        };
        self.edges.insert(pair, count.saturating_add(1));
        proof {
            assert(self@ =~= before.plus_edge(pair));
        }
    }

    /// Adds to a context's share.
    pub fn add_share(&mut self, path: u32, more: StackStat)
        ensures
            final(self)@ == old(self)@.plus_share(path, more),
    {
        let ghost before = self@;
        let held = match self.stacks.get(&path) {
            Some(s) => *s,
            None => StackStat { count: 0, self_ns: 0 },
        };
        self.stacks.insert(
            path,
            StackStat {
                count: held.count.saturating_add(more.count),
                self_ns: held.self_ns.saturating_add(more.self_ns),
            },
        );
        proof {
            assert(self@ =~= before.plus_share(path, more));
        }
    }

    /// Counts one call of a function.
    pub fn add_call(&mut self, func: u32, elapsed: u64)
        ensures
            final(self)@ == old(self)@.plus_call(func, elapsed),
    {
        let ghost before = self@;
        let mut stat = match self.calls.remove(&func) {
            Some(s) => s,
            None => CallStat { count: 0, ns: Samples::default() },
        };
        stat.count = stat.count.saturating_add(1);
        stat.ns.add(elapsed);
        self.calls.insert(func, stat);
        proof {
            assert(self@.calls =~= before.plus_call(func, elapsed).calls);
            assert(self@ =~= before.plus_call(func, elapsed));
        }
    }

    fn absorb_edges(&mut self, other: &BTreeMap<(u32, u32), u64>)
        ensures
            final(self)@ == (AccumModel {
                edges: old(self)@.absorbing(
                    AccumModel { edges: other@, ..AccumModel::blank() },
                ).edges,
                ..old(self)@
            }),
    {
        let ghost before = self@;
        let ghost (a, b) = (self.edges@, other@);
        let ghost goal = before.absorbing(AccumModel { edges: b, ..AccumModel::blank() }).edges;
        let keys = ordered::keys_pairs(other);
        for n in 0..keys.len()
            invariant
                b == other@,
                ordered::lists_pairs(keys@, b.dom()),
                self@.calls == before.calls,
                self@.stacks == before.stacks,
                forall|p: (u32, u32)|
                    #![trigger self.edges@.contains_key(p)]
                    self.edges@.contains_key(p) == (a.contains_key(p) || keys@.take(
                        n as int,
                    ).contains(p)),
                forall|p: (u32, u32)| #[trigger]
                    count_of(self.edges@, p) == if keys@.take(n as int).contains(p) {
                        quantity::capped(count_of(a, p), count_of(b, p))
                    } else {
                        count_of(a, p)
                    },
        {
            let key = keys[n];
            let ghost here = self.edges@;
            proof {
                assert(keys@.contains(keys@[n as int]));
                assert forall|i: int, j: int| 0 <= i < j < keys@.len() implies #[trigger] keys@[i]
                    != #[trigger] keys@[j] by {
                    assert(ordered::pair_less(keys@[i], keys@[j]));
                }
                lemma_one_more(keys@, n as int);
                assert(count_of(here, key) == count_of(a, key));
            }
            let held: u64 = match self.edges.get(&key) {
                Some(c) => *c,
                None => 0,
            };
            if let Some(count) = other.get(&key) {
                self.edges.insert(key, held.saturating_add(*count));
            }
            proof {
                assert forall|p: (u32, u32)| #[trigger] count_of(self.edges@, p) == if keys@.take(
                    n + 1,
                ).contains(p) {
                    quantity::capped(count_of(a, p), count_of(b, p))
                } else {
                    count_of(a, p)
                } by {
                    assert(count_of(here, p) == if keys@.take(n as int).contains(p) {
                        quantity::capped(count_of(a, p), count_of(b, p))
                    } else {
                        count_of(a, p)
                    });
                }
            }
        }
        proof {
            assert(keys@.take(keys@.len() as int) =~= keys@);
            assert forall|p: (u32, u32)| #[trigger] self.edges@.contains_key(p) implies
                self.edges@[p] == goal[p] by {
                assert(count_of(self.edges@, p) == self.edges@[p]);
                if !keys@.contains(p) {
                    assert(!b.contains_key(p));
                }
            }
            assert(self.edges@ =~= goal);
        }
    }

    fn absorb_stacks(&mut self, other: &BTreeMap<u32, StackStat>)
        ensures
            final(self)@ == (AccumModel {
                stacks: old(self)@.absorbing(
                    AccumModel { stacks: other@, ..AccumModel::blank() },
                ).stacks,
                ..old(self)@
            }),
    {
        let ghost before = self@;
        let ghost (a, b) = (self.stacks@, other@);
        let ghost goal = before.absorbing(AccumModel { stacks: b, ..AccumModel::blank() }).stacks;
        let keys = ordered::keys_u32(other);
        for n in 0..keys.len()
            invariant
                b == other@,
                ordered::lists_u32(keys@, b.dom()),
                self@.calls == before.calls,
                self@.edges == before.edges,
                forall|p: u32|
                    #![trigger self.stacks@.contains_key(p)]
                    self.stacks@.contains_key(p) == (a.contains_key(p) || keys@.take(
                        n as int,
                    ).contains(p)),
                forall|p: u32| #[trigger]
                    share_of(self.stacks@, p) == if keys@.take(n as int).contains(p) {
                        shares(share_of(a, p), share_of(b, p))
                    } else {
                        share_of(a, p)
                    },
        {
            let key: u32 = keys[n];
            let ghost here = self.stacks@;
            let ghost model = self@;
            proof {
                assert(keys@.contains(keys@[n as int]));
                lemma_one_more(keys@, n as int);
                assert(share_of(here, key) == share_of(a, key));
            }
            if let Some(more) = other.get(&key) {
                self.add_share(key, *more);
            }
            proof {
                assert forall|p: u32| #[trigger] share_of(self.stacks@, p) == if keys@.take(
                    n + 1,
                ).contains(p) {
                    shares(share_of(a, p), share_of(b, p))
                } else {
                    share_of(a, p)
                } by {
                    assert(share_of(here, p) == if keys@.take(n as int).contains(p) {
                        shares(share_of(a, p), share_of(b, p))
                    } else {
                        share_of(a, p)
                    });
                    assert(self@.stacks == model.plus_share(key, b[key]).stacks);
                }
                assert(self@.stacks == model.plus_share(key, b[key]).stacks);
            }
        }
        proof {
            assert(keys@.take(keys@.len() as int) =~= keys@);
            assert forall|p: u32| #[trigger] self.stacks@.contains_key(p) implies self.stacks@[p]
                == goal[p] by {
                assert(share_of(self.stacks@, p) == self.stacks@[p]);
                if !keys@.contains(p) {
                    assert(!b.contains_key(p));
                }
            }
            assert(self.stacks@ =~= goal);
        }
    }

    fn absorb_calls(&mut self, other: BTreeMap<u32, CallStat>)
        ensures
            final(self)@ == (AccumModel {
                calls: old(self)@.absorbing(
                    AccumModel {
                        calls: other@.map_values(|s: CallStat| s@),
                        ..AccumModel::blank()
                    },
                ).calls,
                ..old(self)@
            }),
    {
        let ghost before = self@;
        let ghost (a, b) = (self@.calls, other@.map_values(|s: CallStat| s@));
        let ghost goal = before.absorbing(AccumModel { calls: b, ..AccumModel::blank() }).calls;
        let mut rest = other;
        let keys = ordered::keys_u32(&rest);
        proof {
            assert(b.dom() =~= other@.dom());
        }
        for n in 0..keys.len()
            invariant
                ordered::lists_u32(keys@, b.dom()),
                goal == before.absorbing(AccumModel { calls: b, ..AccumModel::blank() }).calls,
                a == before.calls,
                self@.stacks == before.stacks,
                self@.edges == before.edges,
                forall|f: u32|
                    #![trigger rest@.contains_key(f)]
                    rest@.contains_key(f) == (b.contains_key(f) && !keys@.take(n as int).contains(
                        f,
                    )),
                forall|f: u32| #[trigger] rest@.contains_key(f) ==> rest@[f]@ == b[f],
                forall|f: u32|
                    #![trigger self@.calls.contains_key(f)]
                    self@.calls.contains_key(f) == (a.contains_key(f) || keys@.take(
                        n as int,
                    ).contains(f)),
                forall|f: u32| #[trigger]
                    self@.calls.contains_key(f) ==> self@.calls[f] == if keys@.take(
                        n as int,
                    ).contains(f) {
                        goal[f]
                    } else {
                        a[f]
                    },
        {
            let key: u32 = keys[n];
            let ghost here = self@;
            proof {
                assert(keys@.contains(keys@[n as int]));
                lemma_one_more(keys@, n as int);
                assert(rest@.contains_key(key));
            }
            let theirs = rest.remove(&key);
            let mut mine = match self.calls.remove(&key) {
                Some(s) => s,
                None => CallStat { count: 0, ns: Samples::default() },
            };
            proof {
                assert(here.calls.contains_key(key) == a.contains_key(key));
                assert(mine@ == calls_of(a, key));
            }
            if let Some(stat) = theirs {
                proof {
                    assert(stat@ == b[key]);
                }
                mine.count = mine.count.saturating_add(stat.count);
                mine.ns.absorb(stat.ns);
            }
            proof {
                assert(mine@ =~= goal[key]);
            }
            self.calls.insert(key, mine);
            proof {
                assert(self@.calls =~= here.calls.insert(key, goal[key]));
            }
        }
        proof {
            assert(keys@.take(keys@.len() as int) =~= keys@);
            assert forall|f: u32| #[trigger] self@.calls.contains_key(f) implies self@.calls[f]
                == goal[f] by {
                if !keys@.contains(f) {
                    assert(!b.contains_key(f));
                }
            }
            assert(self@.calls =~= goal);
            assert(self@ =~= (AccumModel { calls: goal, ..before }));
        }
    }

    /// Takes in what another thread has measured.
    pub fn absorb(&mut self, other: Accum)
        ensures
            final(self)@ == old(self)@.absorbing(other@),
    {
        let ghost before = self@;
        self.absorb_edges(&other.edges);
        self.absorb_stacks(&other.stacks);
        self.absorb_calls(other.calls);
        proof {
            assert(self@ =~= before.absorbing(other@));
        }
    }
}

/// What every thread has measured, first to last.
pub open spec fn drained(threads: Seq<AccumModel>) -> AccumModel
    decreases threads.len(),
{
    if threads.len() == 0 {
        AccumModel::blank()
    } else {
        drained(threads.drop_last()).absorbing(threads.last())
    }
}

/// Swaps out what every thread has measured, and merges it. The threads are
/// left with nothing, so no measurement is reported twice.
pub fn drain(threads: &mut Vec<Accum>) -> (r: Accum)
    ensures
        r@ == drained(old(threads)@.map_values(|a: Accum| a@)),
        final(threads)@.len() == old(threads)@.len(),
        forall|i: int|
            0 <= i < final(threads)@.len() ==> (#[trigger] final(threads)@[i])@
                == AccumModel::blank(),
{
    let ghost all = threads@.map_values(|a: Accum| a@);
    let mut total = Accum::default();
    proof {
        assert(all.take(0) =~= Seq::<AccumModel>::empty());
    }
    let count: usize = threads.len();
    for n in 0..count
        invariant
            count == threads@.len() == old(threads)@.len() == all.len(),
            all == old(threads)@.map_values(|a: Accum| a@),
            total@ == drained(all.take(n as int)),
            forall|i: int| 0 <= i < n ==> (#[trigger] threads@[i])@ == AccumModel::blank(),
            forall|i: int|
                n <= i < threads@.len() ==> #[trigger] threads@[i] == old(threads)@[i],
    {
        let mut taken = Accum::default();
        std::mem::swap(&mut taken, &mut threads[n]);
        total.absorb(taken);
        proof {
            assert(all.take(n + 1).drop_last() =~= all.take(n as int));
            assert(all.take(n + 1).last() == all[n as int]);
        }
    }
    proof {
        assert(all.take(all.len() as int) =~= all);
    }
    total
}

} // verus!
