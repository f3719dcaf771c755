//! Log-linear bucketing, shared by every emitter and the daemon.
//!
//! Buckets are exact for values under 32 and carry 16 sub-buckets per octave
//! above it, so a bucketed value is never more than 6.25% from the truth. A
//! client in another language reproduces this from `bucket_of` alone, or skips
//! it entirely and sends [`Dist::Raw`].
use std::collections::BTreeMap;

use vstd::prelude::*;

use crate::ordered;
use crate::quantity;

verus! {

broadcast use crate::ordered::group_sorted_maps;

/// Values below this are stored exactly, one bucket each.
pub const LINEAR_LIMIT: u64 = 32;

/// Sub-buckets per octave above [`LINEAR_LIMIT`]. 16 gives <= 6.25% error.
pub const SUB_BUCKETS: u64 = 16;

const SUB_BITS: u64 = 4;

/// Largest index [`bucket_of`] can return, for sizing a dense array.
pub const MAX_BUCKET: u16 = 975;

/// Raw samples above this in one window must be bucketed by the client.
pub const MAX_RAW_SAMPLES: usize = 1024;

/// Width of bucket `i`: one value below the linear limit, and a power of two
/// that doubles every sixteen buckets above it.
pub open spec fn bucket_width(i: int) -> int {
    if i < LINEAR_LIMIT {
        1
    } else {
        vstd::arithmetic::power2::pow2(((i - LINEAR_LIMIT) / SUB_BUCKETS as int + 1) as nat) as int
    }
}

/// Smallest value in bucket `i`.
pub open spec fn bucket_lo(i: int) -> int {
    if i < LINEAR_LIMIT {
        i
    } else {
        (SUB_BUCKETS + (i - LINEAR_LIMIT) % SUB_BUCKETS as int) * bucket_width(i)
    }
}

/// Largest value in bucket `i`.
pub open spec fn bucket_hi(i: int) -> int {
    bucket_lo(i) + bucket_width(i) - 1
}

/// Bucket `i` exists and covers `v`.
pub open spec fn covers(i: int, v: int) -> bool {
    0 <= i <= MAX_BUCKET && bucket_lo(i) <= v <= bucket_hi(i)
}

/// The index of the bucket that covers `v`.
pub open spec fn bucket_index(v: u64) -> u16 {
    choose|i: u16| covers(i as int, v as int)
}

/// Buckets leave no gap and no overlap: each one begins right after the one
/// before it ends.
pub proof fn lemma_buckets_contiguous(i: int)
    requires
        0 <= i,
    ensures
        bucket_lo(i) <= bucket_hi(i),
        bucket_lo(i + 1) == bucket_hi(i) + 1,
{
    if i >= LINEAR_LIMIT {
        let j = i - LINEAR_LIMIT;
        let (octave, sub) = (j / 16, j % 16);
        let w = bucket_width(i);
        vstd::arithmetic::power2::lemma_pow2_pos((octave + 1) as nat);
        assert(bucket_lo(i) == (16 + sub) * w);
        if sub < 15 {
            vstd::arithmetic::div_mod::lemma_fundamental_div_mod_converse(
                j + 1,
                16,
                octave,
                sub + 1,
            );
            assert(i + 1 - LINEAR_LIMIT == j + 1);
            assert(bucket_width(i + 1) == w);
            assert(bucket_lo(i + 1) == (16 + (sub + 1)) * w);
            assert((16 + (sub + 1)) * w == (16 + sub) * w + w) by (nonlinear_arith);
        } else {
            vstd::arithmetic::div_mod::lemma_fundamental_div_mod_converse(j + 1, 16, octave + 1, 0);
            vstd::arithmetic::power2::lemma_pow2_unfold((octave + 2) as nat);
            assert(i + 1 - LINEAR_LIMIT == j + 1);
            assert(bucket_width(i + 1) == 2 * w);
            assert(bucket_lo(i + 1) == (16 + 0) * (2 * w));
            assert((16 + 15) * w + w == (16 + 0) * (2 * w)) by (nonlinear_arith);
            assert(sub == 15);
        }
    } else if i == LINEAR_LIMIT - 1 {
        vstd::arithmetic::power2::lemma2_to64();
        assert(bucket_width(32) == 2);
    }
}

/// A bucket's values all lie below those of any later bucket.
pub proof fn lemma_buckets_ordered(i: int, j: int)
    requires
        0 <= i < j,
    ensures
        bucket_hi(i) < bucket_lo(j),
    decreases j - i,
{
    lemma_buckets_contiguous(i);
    if i + 1 < j {
        lemma_buckets_contiguous(i + 1);
        lemma_buckets_ordered(i + 1, j);
    }
}

/// The buckets span every 64-bit value, from the first bucket's zero to the
/// last bucket's maximum.
pub proof fn lemma_buckets_span_every_value()
    ensures
        bucket_lo(0) == 0,
        bucket_hi(MAX_BUCKET as int) == u64::MAX,
{
    vstd::arithmetic::power2::lemma2_to64();
    vstd::arithmetic::power2::lemma2_to64_rest();
}

/// A value is covered by exactly one bucket.
pub proof fn lemma_bucket_unique(i: int, j: int, v: int)
    requires
        covers(i, v),
        covers(j, v),
    ensures
        i == j,
{
    if i < j {
        lemma_buckets_ordered(i, j);
    } else if j < i {
        lemma_buckets_ordered(j, i);
    }
}

/// Above the linear limit a bucket is at most a sixteenth as wide as its
/// smallest value, so no value in it strays more than 6.25% from another.
pub proof fn lemma_bucketing_error_bound(i: int)
    requires
        LINEAR_LIMIT <= i,
    ensures
        bucket_width(i) * 16 <= bucket_lo(i),
{
    let sub = (i - LINEAR_LIMIT) % 16;
    let w = bucket_width(i);
    vstd::arithmetic::power2::lemma_pow2_pos(((i - LINEAR_LIMIT) / 16 + 1) as nat);
    assert(w * 16 <= (16 + sub) * w) by (nonlinear_arith)
        requires
            0 <= sub,
            0 < w,
    ;
}

/// A larger value never lands in an earlier bucket.
pub proof fn lemma_bucket_index_monotone(i: int, j: int, u: int, v: int)
    requires
        covers(i, u),
        covers(j, v),
        u <= v,
    ensures
        i <= j,
{
    if j < i {
        lemma_buckets_ordered(j, i);
    }
}

/// The bucket holding `v`.
pub fn bucket_of(v: u64) -> (r: u16)
    ensures
        r <= MAX_BUCKET,
        bucket_lo(r as int) <= v <= bucket_hi(r as int),
        r == bucket_index(v),
{
    if v < LINEAR_LIMIT {
        proof {
            let r = v as u16;
            assert(covers(r as int, v as int));
            lemma_bucket_unique(r as int, bucket_index(v) as int, v as int);
        }
        return v as u16;
    }
    let ghost z = vstd::std_specs::bits::u64_leading_zeros(v) as int;
    proof {
        vstd::std_specs::bits::axiom_u64_leading_zeros(v);
        let top = (64 - z) as u64;
        assert(v >> top == 0);
        assert(top < 6 ==> v < 32) by (bit_vector)
            requires
                top <= 64,
                v >> top == 0,
        ;
    }
    let octave: u64 = 63 - v.leading_zeros() as u64;
    let ghost w = vstd::arithmetic::power2::pow2((octave - SUB_BITS) as nat) as int;
    proof {
        let s = (octave - SUB_BITS) as u64;
        let above = (octave + 1) as u64;
        assert(v >> above == 0);
        assert(16 <= (v >> s) < 32) by (bit_vector)
            requires
                5 <= octave < 64,
                v >> above == 0,
                (v >> octave) & 1 != 0,
                above == octave + 1,
                s == octave - 4,
        ;
        vstd::bits::lemma_u64_shr_is_div(v, s);
        vstd::arithmetic::power2::lemma_pow2_pos(s as nat);
        vstd::arithmetic::div_mod::lemma_fundamental_div_mod(v as int, w);
        vstd::arithmetic::div_mod::lemma_mod_bound(v as int, w);
    }
    let sub: u64 = (v >> (octave - SUB_BITS)) - SUB_BUCKETS;
    let r: u64 = LINEAR_LIMIT + (octave - 5) * SUB_BUCKETS + sub;
    proof {
        let j = r - LINEAR_LIMIT;
        vstd::arithmetic::div_mod::lemma_fundamental_div_mod_converse(
            j,
            16,
            octave - 5,
            sub as int,
        );
        assert(bucket_width(r as int) == w);
        assert(v == w * (16 + sub) + v as int % w);
        assert(w * (16 + sub) == (16 + sub) * w) by (nonlinear_arith);
        assert(covers((r as u16) as int, v as int));
        lemma_bucket_unique(r as int, bucket_index(v) as int, v as int);
    }
    r as u16
}

/// The range of values behind an index. One past [`MAX_BUCKET`] names no
/// bucket, and its range is what the same shifts give modulo the word size.
pub open spec fn bucket_span(index: u16) -> (u64, u64) {
    if index <= MAX_BUCKET {
        (bucket_lo(index as int) as u64, bucket_hi(index as int) as u64)
    } else {
        let j = (index - LINEAR_LIMIT) as u64;
        let s = (1 + j / 16) as u64 % 64;
        let lo = ((16 + j % 16) as u64) << s;
        (lo, (lo + ((1u64 << s) - 1)) as u64)
    }
}

/// Inclusive value range a bucket covers.
///
/// An index past [`MAX_BUCKET`] names no bucket. Only a client that made the
/// index up can send one, and its range comes out of the same shifts taken
/// modulo the word size.
pub fn bucket_range(index: u16) -> (r: (u64, u64))
    ensures
        r == bucket_span(index),
        r.0 <= r.1,
        index <= MAX_BUCKET ==> r.0 == bucket_lo(index as int) && r.1 == bucket_hi(index as int),
{
    proof {
        if index <= MAX_BUCKET {
            lemma_bucket_fits(index as int);
        }
    }
    let i: u64 = index as u64;
    if i < LINEAR_LIMIT {
        return (i, i);
    }
    let j: u64 = i - LINEAR_LIMIT;
    let octave: u64 = 5 + j / SUB_BUCKETS;
    let sub: u64 = j % SUB_BUCKETS;
    let shift: u64 = (octave - SUB_BITS) % 64;
    let m: u64 = SUB_BUCKETS + sub;
    proof {
        assert((1u64 << shift) >= 1 && (m << shift) <= u64::MAX - ((1u64 << shift) - 1))
            by (bit_vector)
            requires
                shift < 64,
        ;
        if index <= MAX_BUCKET {
            assert(shift == 1 + j / 16);
            let w = vstd::arithmetic::power2::pow2(shift as nat) as int;
            vstd::arithmetic::power2::lemma2_to64();
            vstd::arithmetic::power2::lemma2_to64_rest();
            lemma_bucket_fits(index as int);
            assert(m * w == bucket_lo(index as int));
            vstd::arithmetic::power2::lemma_pow2_pos(shift as nat);
            assert(w <= m * w) by (nonlinear_arith)
                requires
                    1 <= m,
                    0 < w,
            ;
            assert(1u64 * w == w);
            vstd::bits::lemma_u64_shl_is_mul(m, shift);
            vstd::bits::lemma_u64_shl_is_mul(1u64, shift);
        }
    }
    let lo: u64 = m << shift;
    (lo, lo + ((1u64 << shift) - 1))
}

/// No bucket reaches past the largest 64-bit value.
pub(crate) proof fn lemma_bucket_fits(i: int)
    requires
        0 <= i <= MAX_BUCKET,
    ensures
        0 <= bucket_lo(i) <= bucket_hi(i) <= u64::MAX,
{
    lemma_buckets_span_every_value();
    lemma_buckets_contiguous(i);
    if i < MAX_BUCKET {
        lemma_buckets_ordered(i, MAX_BUCKET as int);
        lemma_buckets_contiguous(MAX_BUCKET as int);
    }
    if i > 0 {
        lemma_buckets_ordered(0, i);
        lemma_buckets_contiguous(0);
    }
}

/// Samples `s` records in bucket `i`, over every entry that names it.
pub open spec fn tally(s: Seq<(u16, u32)>, i: u16) -> nat
    decreases s.len(),
{
    if s.len() == 0 {
        0
    } else {
        tally(s.drop_last(), i) + if s.last().0 == i {
            s.last().1 as nat
        } else {
            0
        }
    }
}

/// Samples `s` records altogether.
pub open spec fn total(s: Seq<(u16, u32)>) -> nat
    decreases s.len(),
{
    if s.len() == 0 {
        0
    } else {
        total(s.drop_last()) + s.last().1 as nat
    }
}

/// Some entry of `s` names bucket `i`.
pub open spec fn names(s: Seq<(u16, u32)>, i: u16) -> bool {
    exists|k: int| 0 <= k < s.len() && (#[trigger] s[k]).0 == i
}

/// A count as the wire can carry it.
pub open spec fn clamp32(n: nat) -> u32 {
    if n > u32::MAX {
        u32::MAX
    } else {
        n as u32
    }
}

/// `r` is `s` collapsed: one entry per bucket that `s` names, in index order,
/// each holding everything `s` records there.
pub open spec fn folds(r: Seq<(u16, u32)>, s: Seq<(u16, u32)>) -> bool {
    &&& forall|i: int, j: int| 0 <= i < j < r.len() ==> (#[trigger] r[i]).0 < (#[trigger] r[j]).0
    &&& forall|i: u16| #[trigger] names(r, i) <==> names(s, i)
    &&& forall|k: int|
        0 <= k < r.len() ==> (#[trigger] r[k]).1 == clamp32(tally(s, r[k].0))
}

/// The one list that `s` collapses to.
pub open spec fn collapsed(s: Seq<(u16, u32)>) -> Seq<(u16, u32)> {
    choose|r: Seq<(u16, u32)>| folds(r, s)
}

/// A distribution on the wire.
///
/// `Raw` exists so a client in any language can emit a distribution without
/// porting [`bucket_of`]. The daemon buckets it on arrival, so the two are
/// interchangeable once ingested.
#[derive(Debug, Clone, PartialEq, Eq)]
pub enum Dist {
    Raw { v: Vec<u64> },
    Buckets { b: Vec<(u16, u32)> },
}

/// Each raw sample as an entry of its own.
pub open spec fn sample_entries(v: Seq<u64>) -> Seq<(u16, u32)> {
    Seq::new(v.len(), |i: int| (bucket_index(v[i]), 1u32))
}

impl Dist {
    /// The bucket entries the distribution stands for, before any merging.
    pub open spec fn entries(self) -> Seq<(u16, u32)> {
        match self {
            Dist::Raw { v } => sample_entries(v@),
            Dist::Buckets { b } => b@,
        }
    }

    pub fn empty() -> (r: Self)
        ensures
            r matches Dist::Buckets { b } && b@ == Seq::<(u16, u32)>::empty(),
    {
        Dist::Buckets { b: Vec::new() }
    }

    pub fn is_empty(&self) -> (r: bool)
        ensures
            r == (self.entries().len() == 0),
    {
        match self {
            Dist::Raw { v } => v.is_empty(),
            Dist::Buckets { b } => b.is_empty(),
        }
    }

    /// Total number of samples the distribution stands for.
    pub fn count(&self) -> (r: u64)
        requires
            total(self.entries()) <= u64::MAX,
        ensures
            r == total(self.entries()),
    {
        match self {
            Dist::Raw { v } => {
                proof {
                    lemma_total_of_samples(v@);
                }
                v.len() as u64
            },
            Dist::Buckets { b } => {
                let mut sum: u64 = 0;
                for n in 0..b.len()
                    invariant
                        sum == total(b@.take(n as int)),
                        total(b@) <= u64::MAX,
                {
                    proof {
                        assert(b@.take(n + 1).drop_last() =~= b@.take(n as int));
                        lemma_total_of_prefix(b@, n + 1);
                    }
                    sum = sum + b[n].1 as u64;
                }
                proof {
                    assert(b@.take(b@.len() as int) =~= b@);
                }
                sum
            },
        }
    }

    /// Collapses to sparse buckets, sorted by index. Already-bucketed input is
    /// re-folded so duplicate indices from a sloppy client merge rather than
    /// double-count. A bucket that outgrows its counter stays at the largest
    /// count.
    pub fn to_buckets(&self) -> (r: Vec<(u16, u32)>)
        ensures
            folds(r@, self.entries()),
            r@ == collapsed(self.entries()),
    {
        match self {
            Dist::Raw { v } => {
                let mut entries: Vec<(u16, u32)> = Vec::new();
                for n in 0..v.len()
                    invariant
                        entries@ =~= sample_entries(v@).take(n as int),
                {
                    entries.push((bucket_of(v[n]), 1));
                }
                proof {
                    assert(entries@ =~= sample_entries(v@));
                }
                fold_entries(&entries)
            },
            Dist::Buckets { b } => fold_entries(b),
        }
    }

    /// The same distribution again.
    pub fn duplicate(&self) -> (r: Self)
        ensures
            r.entries() == self.entries(),
            r is Raw <==> self is Raw,
            self matches Dist::Raw { v } ==> r matches Dist::Raw { v: w } && w@ == v@,
    {
        match self {
            Dist::Raw { v } => {
                let w = v.clone();
                proof {
                    assert(w@ =~= v@);
                }
                Dist::Raw { v: w }
            },
            Dist::Buckets { b } => {
                Dist::Buckets { b: copy_entries(b) }
            },
        }
    }
}

/// The same entries again.
pub fn copy_entries(entries: &Vec<(u16, u32)>) -> (r: Vec<(u16, u32)>)
    ensures
        r@ == entries@,
{
    let mut copy: Vec<(u16, u32)> = Vec::new();
    for n in 0..entries.len()
        invariant
            copy@ =~= entries@.take(n as int),
    {
        copy.push(entries[n]);
    }
    copy
}

/// Merges entries that name the same bucket and sorts what is left.
pub fn fold_entries(entries: &Vec<(u16, u32)>) -> (r: Vec<(u16, u32)>)
    ensures
        folds(r@, entries@),
        r@ == collapsed(entries@),
{
    let mut counts: BTreeMap<u16, u32> = BTreeMap::new();
    for n in 0..entries.len()
        invariant
            forall|i: u16|
                #![trigger counts@.contains_key(i)]
                #![trigger names(entries@.take(n as int), i)]
                counts@.contains_key(i) == names(entries@.take(n as int), i),
            forall|i: u16|
                #[trigger] counts@.contains_key(i) ==> counts@[i] == clamp32(
                    tally(entries@.take(n as int), i),
                ),
    {
        let (index, count) = entries[n];
        let held: u32 = match counts.get(&index) {
            Some(c) => *c,
            None => 0,
        };
        let ghost before = entries@.take(n as int);
        let ghost after = entries@.take(n + 1);
        proof {
            assert(after.drop_last() =~= before);
            assert forall|i: u16| names(after, i) <==> names(before, i) || i == index by {
                if names(before, i) {
                    let k = choose|k: int| 0 <= k < before.len() && before[k].0 == i;
                    assert(after[k].0 == i);
                }
                assert(after[n as int].0 == index);
                if names(after, i) && i != index {
                    let k = choose|k: int| 0 <= k < after.len() && after[k].0 == i;
                    assert(before[k].0 == i);
                }
            }
            if !names(before, index) {
                lemma_tally_of_absent(before, index);
            }
        }
        counts.insert(index, held.saturating_add(count));
    }
    proof {
        assert(entries@.take(entries@.len() as int) =~= entries@);
    }
    let keys = ordered::keys_u16(&counts);
    let mut folded: Vec<(u16, u32)> = Vec::new();
    for n in 0..keys.len()
        invariant
            ordered::lists_u16(keys@, counts@.dom()),
            folded@.len() == n,
            forall|k: int| 0 <= k < n ==> (#[trigger] folded@[k]).0 == keys@[k],
            forall|k: int| 0 <= k < n ==> (#[trigger] folded@[k]).1 == counts@[keys@[k]],
    {
        assert(keys@.contains(keys@[n as int]));
        let count: u32 = match counts.get(&keys[n]) {
            Some(c) => *c,
            None => 0,
        };
        folded.push((keys[n], count));
    }
    proof {
        assert forall|i: u16| names(folded@, i) <==> names(entries@, i) by {
            if names(folded@, i) {
                let k = choose|k: int| 0 <= k < folded@.len() && folded@[k].0 == i;
                assert(keys@.contains(keys@[k]));
                assert(counts@.contains_key(i));
            }
            if names(entries@, i) {
                assert(counts@.contains_key(i));
                let k = choose|k: int| 0 <= k < keys@.len() && keys@[k] == i;
                assert(folded@[k].0 == i);
            }
        }
        assert forall|k: int| 0 <= k < folded@.len() implies (#[trigger] folded@[k]).1 == clamp32(
            tally(entries@, folded@[k].0),
        ) by {
            assert(keys@.contains(keys@[k]));
            assert(counts@.contains_key(keys@[k]));
        }
        assert(folds(folded@, entries@));
        lemma_folding_is_canonical(folded@, collapsed(entries@), entries@, entries@);
    }
    folded
}

/// A bucket nothing names holds nothing.
pub proof fn lemma_tally_of_absent(s: Seq<(u16, u32)>, i: u16)
    requires
        !names(s, i),
    ensures
        tally(s, i) == 0,
    decreases s.len(),
{
    if s.len() > 0 {
        assert(s.last() == s[s.len() - 1]);
        assert forall|k: int| 0 <= k < s.drop_last().len() implies (#[trigger] s.drop_last()[k]).0
            != i by {
            assert(s[k].0 != i);
        }
        lemma_tally_of_absent(s.drop_last(), i);
    }
}

/// Raw samples count one each.
pub(crate) proof fn lemma_total_of_samples(v: Seq<u64>)
    ensures
        total(sample_entries(v)) == v.len(),
    decreases v.len(),
{
    if v.len() > 0 {
        lemma_total_of_samples(v.drop_last());
        assert(sample_entries(v).drop_last() =~= sample_entries(v.drop_last()));
    }
}

/// The first entries record no more than all of them do.
proof fn lemma_total_of_prefix(s: Seq<(u16, u32)>, n: int)
    requires
        0 <= n <= s.len(),
    ensures
        total(s.take(n)) <= total(s),
    decreases s.len(),
{
    if n < s.len() {
        lemma_total_of_prefix(s.drop_last(), n);
        assert(s.drop_last().take(n) =~= s.take(n));
    } else {
        assert(s.take(n) =~= s);
    }
}

/// Collapsing has one answer: two collapsed forms of the same entries are the
/// same, whatever order the entries came in.
pub proof fn lemma_folding_is_canonical(
    r: Seq<(u16, u32)>,
    q: Seq<(u16, u32)>,
    s: Seq<(u16, u32)>,
    t: Seq<(u16, u32)>,
)
    requires
        folds(r, s),
        folds(q, t),
        forall|i: u16| names(s, i) <==> names(t, i),
        forall|i: u16| tally(s, i) == tally(t, i),
    ensures
        r == q,
{
    lemma_ascending_same(r, q, 0);
    assert forall|k: int| 0 <= k < r.len() implies r[k] == q[k] by {
        assert(r[k].0 == q[k].0);
    }
    assert(r =~= q);
}

/// Two ascending lists naming the same buckets agree from position `n` on.
proof fn lemma_ascending_same(r: Seq<(u16, u32)>, q: Seq<(u16, u32)>, n: int)
    requires
        0 <= n <= r.len(),
        n <= q.len(),
        forall|i: int, j: int| 0 <= i < j < r.len() ==> (#[trigger] r[i]).0 < (#[trigger] r[j]).0,
        forall|i: int, j: int| 0 <= i < j < q.len() ==> (#[trigger] q[i]).0 < (#[trigger] q[j]).0,
        forall|i: u16| #[trigger] names(r, i) <==> names(q, i),
        forall|k: int| 0 <= k < n ==> (#[trigger] r[k]).0 == q[k].0,
    ensures
        r.len() == q.len(),
        forall|k: int| 0 <= k < r.len() ==> (#[trigger] r[k]).0 == q[k].0,
    decreases r.len() - n,
{
    if n < r.len() {
        assert(names(r, r[n].0));
        assert(names(q, r[n].0));
        let k = choose|k: int| 0 <= k < q.len() && (#[trigger] q[k]).0 == r[n].0;
        if k < n {
            assert(r[k].0 == q[k].0);
        }
        assert(n <= k);
        assert(names(q, q[n].0));
        assert(names(r, q[n].0));
        let m = choose|m: int| 0 <= m < r.len() && (#[trigger] r[m]).0 == q[n].0;
        if m < n {
            assert(r[m].0 == q[m].0);
        }
        assert(n <= m);
        lemma_ascending_same(r, q, n + 1);
    } else if n < q.len() {
        assert(names(q, q[n].0));
        assert(names(r, q[n].0));
        let m = choose|m: int| 0 <= m < r.len() && (#[trigger] r[m]).0 == q[n].0;
        assert(r[m].0 == q[m].0);
    }
}

/// Whatever entries there are, they collapse to a list.
pub proof fn lemma_entries_collapse(s: Seq<(u16, u32)>)
    ensures
        folds(collapsed(s), s),
{
    let dom = Set::new(|i: u16| names(s, i));
    ordered::lemma_listed_u16(dom);
    let keys = ordered::rising_u16(dom);
    let r = keys.map_values(|i: u16| (i, clamp32(tally(s, i))));
    assert forall|i: u16| #[trigger] names(r, i) <==> names(s, i) by {
        if names(r, i) {
            let k = choose|k: int| 0 <= k < r.len() && (#[trigger] r[k]).0 == i;
            assert(keys[k] == i);
            assert(keys.contains(i));
        }
        if names(s, i) {
            assert(dom.contains(i));
            assert(keys.contains(i));
            let k = choose|k: int| 0 <= k < keys.len() && keys[k] == i;
            assert(r[k].0 == i);
        }
    }
    assert(folds(r, s));
}

/// A collapsed list is its own collapsed form.
pub proof fn lemma_collapsed_stays_collapsed(r: Seq<(u16, u32)>, s: Seq<(u16, u32)>)
    requires
        folds(r, s),
    ensures
        folds(r, r),
{
    assert forall|k: int| 0 <= k < r.len() implies (#[trigger] r[k]).1 == clamp32(
        tally(r, r[k].0),
    ) by {
        lemma_tally_of_ascending(r, k);
    }
}

/// A client may send raw samples or the buckets made from them: collapsing
/// either gives the same list.
pub proof fn lemma_raw_and_bucketed_agree(
    v: Seq<u64>,
    b: Seq<(u16, u32)>,
    again: Seq<(u16, u32)>,
)
    requires
        folds(b, sample_entries(v)),
        folds(again, b),
    ensures
        again == b,
{
    lemma_collapsed_stays_collapsed(b, sample_entries(v));
    lemma_folding_is_canonical(again, b, b, b);
}

/// In an ascending list a bucket's tally is the one entry that names it.
pub proof fn lemma_tally_of_ascending(r: Seq<(u16, u32)>, k: int)
    requires
        0 <= k < r.len(),
        forall|i: int, j: int| 0 <= i < j < r.len() ==> (#[trigger] r[i]).0 < (#[trigger] r[j]).0,
    ensures
        tally(r, r[k].0) == r[k].1,
    decreases r.len(),
{
    let d = r.drop_last();
    assert(r.last() == r[r.len() - 1]);
    if k == r.len() - 1 {
        assert forall|m: int| 0 <= m < d.len() implies (#[trigger] d[m]).0 != r[k].0 by {
            assert(r[m].0 < r[k].0);
        }
        lemma_tally_of_absent(d, r[k].0);
    } else {
        assert(d[k] == r[k]);
        assert forall|i: int, j: int| 0 <= i < j < d.len() implies (#[trigger] d[i]).0 < (
        #[trigger] d[j]).0 by {
            assert(r[i].0 < r[j].0);
        }
        lemma_tally_of_ascending(d, k);
        assert(r[k].0 < r[r.len() - 1].0);
    }
}

/// What `s` adds up to when a sample in bucket `i` weighs `f(i)`.
pub open spec fn weighed(s: Seq<(u16, u32)>, f: spec_fn(u16) -> nat) -> nat
    decreases s.len(),
{
    if s.len() == 0 {
        0
    } else {
        weighed(s.drop_last(), f) + f(s.last().0) * s.last().1 as nat
    }
}

/// What `s` adds up to over the buckets `r` lists.
spec fn listed(r: Seq<(u16, u32)>, s: Seq<(u16, u32)>, f: spec_fn(u16) -> nat) -> nat
    decreases r.len(),
{
    if r.len() == 0 {
        0
    } else {
        listed(r.drop_last(), s, f) + f(r.last().0) * tally(s, r.last().0)
    }
}

/// One more entry adds its weight to the buckets listed, once, if it is listed.
proof fn lemma_listed_grows(r: Seq<(u16, u32)>, s: Seq<(u16, u32)>, f: spec_fn(u16) -> nat)
    requires
        s.len() > 0,
        forall|i: int, j: int| 0 <= i < j < r.len() ==> (#[trigger] r[i]).0 < (#[trigger] r[j]).0,
    ensures
        listed(r, s, f) == listed(r, s.drop_last(), f) + if names(r, s.last().0) {
            f(s.last().0) * s.last().1 as nat
        } else {
            0
        },
    decreases r.len(),
{
    if r.len() > 0 {
        let d = r.drop_last();
        let i = s.last().0;
        assert(r.last() == r[r.len() - 1]);
        assert forall|i: int, j: int| 0 <= i < j < d.len() implies (#[trigger] d[i]).0 < (
        #[trigger] d[j]).0 by {
            assert(r[i].0 < r[j].0);
        }
        lemma_listed_grows(d, s, f);
        if names(d, i) {
            let k = choose|k: int| 0 <= k < d.len() && (#[trigger] d[k]).0 == i;
            assert(r[k].0 == i);
            assert(r[k].0 < r[r.len() - 1].0);
        }
        if names(r, i) && !names(d, i) {
            let k = choose|k: int| 0 <= k < r.len() && (#[trigger] r[k]).0 == i;
            if k < r.len() - 1 {
                assert(d[k].0 == i);
            }
        }
        let (w, t, c) = (f(r.last().0), tally(s.drop_last(), r.last().0), s.last().1 as nat);
        assert(w * (t + c) == w * t + w * c) by (nonlinear_arith);
    }
}

/// Everything is accounted for by the buckets listed, when none is left out.
proof fn lemma_listed_is_everything(r: Seq<(u16, u32)>, s: Seq<(u16, u32)>, f: spec_fn(u16) -> nat)
    requires
        forall|i: int, j: int| 0 <= i < j < r.len() ==> (#[trigger] r[i]).0 < (#[trigger] r[j]).0,
        forall|i: u16| #[trigger] names(s, i) ==> names(r, i),
    ensures
        listed(r, s, f) == weighed(s, f),
    decreases s.len(),
{
    if s.len() == 0 {
        lemma_listed_of_nothing(r, s, f);
    } else {
        let d = s.drop_last();
        assert forall|i: u16| #[trigger] names(d, i) implies names(r, i) by {
            let k = choose|k: int| 0 <= k < d.len() && (#[trigger] d[k]).0 == i;
            assert(s[k].0 == i);
            assert(names(s, i));
        }
        lemma_listed_is_everything(r, d, f);
        lemma_listed_grows(r, s, f);
        assert(s[s.len() - 1].0 == s.last().0);
        assert(names(s, s.last().0));
    }
}

proof fn lemma_listed_of_nothing(r: Seq<(u16, u32)>, s: Seq<(u16, u32)>, f: spec_fn(u16) -> nat)
    requires
        s.len() == 0,
    ensures
        listed(r, s, f) == 0,
    decreases r.len(),
{
    if r.len() > 0 {
        lemma_listed_of_nothing(r.drop_last(), s, f);
        let w = f(r.last().0);
        assert(w * 0 == 0) by (nonlinear_arith);
    }
}

/// When each entry holds its bucket's whole tally, the entries add up to what
/// the buckets listed record.
proof fn lemma_weight_of_tallies(r: Seq<(u16, u32)>, s: Seq<(u16, u32)>, f: spec_fn(u16) -> nat)
    requires
        forall|k: int| 0 <= k < r.len() ==> (#[trigger] r[k]).1 == tally(s, r[k].0),
    ensures
        weighed(r, f) == listed(r, s, f),
    decreases r.len(),
{
    if r.len() > 0 {
        let d = r.drop_last();
        assert(r.last() == r[r.len() - 1]);
        assert forall|k: int| 0 <= k < d.len() implies (#[trigger] d[k]).1 == tally(s, d[k].0) by {
            assert(d[k] == r[k]);
        }
        lemma_weight_of_tallies(d, s, f);
    }
}

/// Collapsing changes no sum over the samples, whatever a sample in a bucket
/// weighs, as long as no bucket outgrows its counter.
pub proof fn lemma_folding_keeps_every_weight(
    r: Seq<(u16, u32)>,
    s: Seq<(u16, u32)>,
    f: spec_fn(u16) -> nat,
)
    requires
        folds(r, s),
        forall|i: u16| #[trigger] tally(s, i) <= u32::MAX,
    ensures
        weighed(r, f) == weighed(s, f),
{
    assert forall|i: u16| #[trigger] names(s, i) implies names(r, i) by {
        assert(names(r, i) <==> names(s, i));
    }
    lemma_weight_of_tallies(r, s, f);
    lemma_listed_is_everything(r, s, f);
}

/// Weighing every sample alike counts them.
proof fn lemma_total_is_a_weight(s: Seq<(u16, u32)>)
    ensures
        total(s) == weighed(s, |i: u16| 1nat),
    decreases s.len(),
{
    if s.len() > 0 {
        lemma_total_is_a_weight(s.drop_last());
    }
}

/// Collapsing loses no sample, as long as no bucket outgrows its counter.
pub proof fn lemma_folding_keeps_every_sample(r: Seq<(u16, u32)>, s: Seq<(u16, u32)>)
    requires
        folds(r, s),
        forall|i: u16| #[trigger] tally(s, i) <= u32::MAX,
    ensures
        total(r) == total(s),
{
    lemma_folding_keeps_every_weight(r, s, |i: u16| 1nat);
    lemma_total_is_a_weight(r);
    lemma_total_is_a_weight(s);
}

/// The value a bucket's samples are taken to have.
pub open spec fn midpoint(index: u16) -> nat {
    let span = bucket_span(index);
    (span.0 + (span.1 - span.0) / 2) as nat
}

/// What the samples in `s` add up to, each taken at its bucket's midpoint.
pub open spec fn estimate(s: Seq<(u16, u32)>) -> nat {
    weighed(s, |i: u16| midpoint(i))
}

/// What raw samples add up to.
pub open spec fn sum_of(v: Seq<u64>) -> nat
    decreases v.len(),
{
    if v.len() == 0 {
        0
    } else {
        sum_of(v.drop_last()) + v.last() as nat
    }
}

/// An amount as a 64-bit counter can hold it.
pub open spec fn clamp64(n: nat) -> u64 {
    if n > u64::MAX {
        u64::MAX
    } else {
        n as u64
    }
}

/// The midpoint of a bucket.
fn midpoint_of(index: u16) -> (r: u64)
    ensures
        r == midpoint(index),
{
    let (lo, hi) = bucket_range(index);
    lo + (hi - lo) / 2
}

/// Adds up raw samples, stopping at the largest amount.
pub fn sum_samples(v: &Vec<u64>) -> (r: u64)
    ensures
        r == clamp64(sum_of(v@)),
{
    let mut sum: u64 = 0;
    for n in 0..v.len()
        invariant
            sum == clamp64(sum_of(v@.take(n as int))),
    {
        proof {
            assert(v@.take(n + 1).drop_last() =~= v@.take(n as int));
        }
        sum = sum.saturating_add(v[n]);
    }
    proof {
        assert(v@.take(v@.len() as int) =~= v@);
    }
    sum
}

/// Adds up bucketed samples at their midpoints, stopping at the largest amount.
pub fn estimate_total(b: &Vec<(u16, u32)>) -> (r: u64)
    ensures
        r == clamp64(estimate(b@)),
{
    let mut sum: u64 = 0;
    let ghost f = |i: u16| midpoint(i);
    for n in 0..b.len()
        invariant
            f == (|i: u16| midpoint(i)),
            sum == clamp64(weighed(b@.take(n as int), f)),
    {
        proof {
            assert(b@.take(n + 1).drop_last() =~= b@.take(n as int));
        }
        let (index, count) = b[n];
        sum = sum.saturating_add(quantity::times(midpoint_of(index), count as u64));
    }
    proof {
        assert(b@.take(b@.len() as int) =~= b@);
    }
    sum
}

/// Every value has a bucket, and [`bucket_index`] names it.
pub proof fn lemma_every_value_has_a_bucket(v: u64)
    ensures
        covers(bucket_index(v) as int, v as int),
{
    lemma_buckets_span_every_value();
    lemma_bucket_search(v, 0);
}

proof fn lemma_bucket_search(v: u64, i: int)
    requires
        0 <= i <= MAX_BUCKET,
        bucket_lo(i) <= v,
    ensures
        covers(bucket_index(v) as int, v as int),
    decreases MAX_BUCKET - i,
{
    lemma_buckets_span_every_value();
    lemma_buckets_contiguous(i);
    if v <= bucket_hi(i) {
        assert(covers((i as u16) as int, v as int));
    } else {
        lemma_bucket_search(v, i + 1);
    }
}

/// A bucket's midpoint is within a sixteenth of any value in the bucket.
pub proof fn lemma_midpoint_is_close(v: u64)
    ensures
        15 * v <= 16 * midpoint(bucket_index(v)) <= 17 * v,
{
    lemma_every_value_has_a_bucket(v);
    let i = bucket_index(v) as int;
    lemma_bucket_fits(i);
    lemma_buckets_contiguous(i);
    if i >= LINEAR_LIMIT {
        lemma_bucketing_error_bound(i);
    }
}

/// Durations sent as a histogram add up to within 6.25% of the truth.
pub proof fn lemma_estimate_is_close(v: Seq<u64>, b: Seq<(u16, u32)>)
    requires
        folds(b, sample_entries(v)),
        v.len() <= u32::MAX,
    ensures
        15 * sum_of(v) <= 16 * estimate(b) <= 17 * sum_of(v),
{
    let s = sample_entries(v);
    let f = |i: u16| midpoint(i);
    assert forall|i: u16| #[trigger] tally(s, i) <= u32::MAX by {
        lemma_total_of_samples(v);
        lemma_tally_within_total(s, i);
    }
    lemma_folding_keeps_every_weight(b, s, f);
    lemma_samples_estimate_is_close(v);
}

proof fn lemma_tally_within_total(s: Seq<(u16, u32)>, i: u16)
    ensures
        tally(s, i) <= total(s),
    decreases s.len(),
{
    if s.len() > 0 {
        lemma_tally_within_total(s.drop_last(), i);
    }
}

proof fn lemma_samples_estimate_is_close(v: Seq<u64>)
    ensures
        15 * sum_of(v) <= 16 * estimate(sample_entries(v)) <= 17 * sum_of(v),
    decreases v.len(),
{
    if v.len() > 0 {
        lemma_samples_estimate_is_close(v.drop_last());
        assert(sample_entries(v).drop_last() =~= sample_entries(v.drop_last()));
        lemma_midpoint_is_close(v.last());
    }
}

} // verus!
