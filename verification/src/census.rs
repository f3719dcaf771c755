//! How many values of a type are alive, and how large they are.
//!
//! A value adds one to its type's count and to a size bucket when it is
//! constructed, and takes one from the same bucket when it is dropped. The
//! result is a histogram of live objects rather than one of constructions.
use std::collections::BTreeMap;

use vstd::prelude::*;

use crate::accum;
use crate::dist;
use crate::ordered;
use crate::ring;

verus! {

broadcast use crate::ordered::group_sorted_maps;

/// One tracked type.
#[derive(Debug)]
pub struct TypeSlot {
    pub name: &'static str,
    pub file: &'static str,
    pub line: u32,
    live: u64,
    buckets: BTreeMap<u16, u32>,
}

/// What a [`TypeSlot`] holds.
#[verifier::ext_equal]
pub struct SlotModel {
    pub name: Seq<char>,
    pub file: Seq<char>,
    pub line: u32,
    pub live: u64,
    pub buckets: Map<u16, u32>,
}

impl View for TypeSlot {
    type V = SlotModel;

    closed spec fn view(&self) -> SlotModel {
        SlotModel {
            name: self.name@,
            file: self.file@,
            line: self.line,
            live: self.live,
            buckets: self.buckets@,
        }
    }
}

impl SlotModel {
    /// One more value in bucket `i`.
    pub open spec fn constructing(self, i: u16) -> SlotModel {
        SlotModel {
            live: crate::quantity::capped(self.live, 1),
            buckets: accum::plus(self.buckets, i, 1),
            ..self
        }
    }

    /// One value fewer in bucket `i`. A bucket that empties is gone.
    pub open spec fn dropping(self, i: u16) -> SlotModel {
        let held = accum::counted(self.buckets, i);
        SlotModel {
            live: if self.live == 0 {
                0
            } else {
                (self.live - 1) as u64
            },
            buckets: if held <= 1 {
                self.buckets.remove(i)
            } else {
                self.buckets.insert(i, (held - 1) as u32)
            },
            ..self
        }
    }

    /// The sizes of what is alive, smallest first.
    pub open spec fn sizes(self) -> Seq<(u16, u32)> {
        ordered::rising_u16(self.buckets.dom()).map_values(|i: u16| (i, self.buckets[i]))
    }

    /// Every bucket holds something.
    pub open spec fn wf(self) -> bool {
        forall|i: u16| #[trigger] self.buckets.contains_key(i) ==> self.buckets[i] > 0
    }
}

/// A value that comes and goes leaves the census as it found it.
pub proof fn lemma_a_dropped_value_leaves_no_trace(s: SlotModel, i: u16)
    requires
        s.wf(),
        s.live < u64::MAX,
        accum::counted(s.buckets, i) < u32::MAX,
    ensures
        s.constructing(i).dropping(i) == s,
        s.constructing(i).wf(),
{
    let back = s.constructing(i).dropping(i);
    assert(back.buckets =~= s.buckets);
}

/// Swapping one value for another of the same size leaves the census where it
/// was, whichever comes first.
pub proof fn lemma_a_swap_leaves_the_footprint(s: SlotModel, i: u16)
    requires
        s.wf(),
        s.live < u64::MAX,
        accum::counted(s.buckets, i) < u32::MAX,
        s.live > 0,
        s.buckets.contains_key(i),
    ensures
        s.constructing(i).dropping(i) == s,
        s.dropping(i).constructing(i) == s,
{
    assert(s.constructing(i).dropping(i).buckets =~= s.buckets);
    assert(s.dropping(i).constructing(i).buckets =~= s.buckets);
}

/// Values of different sizes do not touch each other's bucket.
pub proof fn lemma_sizes_are_kept_apart(s: SlotModel, i: u16, j: u16)
    requires
        i != j,
    ensures
        accum::counted(s.constructing(i).buckets, j) == accum::counted(s.buckets, j),
        accum::counted(s.dropping(i).buckets, j) == accum::counted(s.buckets, j),
{
}

impl TypeSlot {
    pub fn new(name: &'static str, file: &'static str, line: u32) -> (r: Self)
        ensures
            r@ == (SlotModel {
                name: name@,
                file: file@,
                line,
                live: 0,
                buckets: Map::empty(),
            }),
            r@.wf(),
    {
        TypeSlot { name, file, line, live: 0, buckets: BTreeMap::new() }
    }

    pub fn name(&self) -> (r: &'static str)
        ensures
            r@ == self@.name,
    {
        self.name
    }

    pub fn file(&self) -> (r: &'static str)
        ensures
            r@ == self@.file,
    {
        self.file
    }

    pub fn line(&self) -> (r: u32)
        ensures
            r == self@.line,
    {
        self.line
    }

    /// A value of `bytes` bytes has been constructed. The bucket it went into is
    /// the one it has to leave by.
    pub fn constructed(&mut self, bytes: u64) -> (r: u16)
        requires
            old(self)@.wf(),
        ensures
            r == dist::bucket_index(bytes),
            final(self)@ == old(self)@.constructing(r),
            final(self)@.wf(),
    {
        let ghost before = self@;
        let bucket: u16 = dist::bucket_of(bytes);
        self.live = self.live.saturating_add(1);
        let held: u32 = match self.buckets.get(&bucket) {
            Some(n) => *n,
            None => 0,
        };
        self.buckets.insert(bucket, held.saturating_add(1));
        proof {
            assert(self@ =~= before.constructing(bucket));
        }
        bucket
    }

    /// A value that went into `bucket` has been dropped.
    pub fn dropped(&mut self, bucket: u16)
        requires
            old(self)@.wf(),
        ensures
            final(self)@ == old(self)@.dropping(bucket),
            final(self)@.wf(),
    {
        let ghost before = self@;
        self.live = self.live.saturating_sub(1);
        let held: u32 = match self.buckets.get(&bucket) {
            Some(n) => *n,
            None => 0,
        };
        if held <= 1 {
            self.buckets.remove(&bucket);
        } else {
            self.buckets.insert(bucket, held - 1);
        }
        proof {
            assert(self@ =~= before.dropping(bucket));
        }
    }

    pub fn live(&self) -> (r: u64)
        ensures
            r == self@.live,
    {
        self.live
    }

    /// The live-size histogram, sparse and sorted.
    pub fn size_buckets(&self) -> (r: Vec<(u16, u32)>)
        ensures
            r@ == self@.sizes(),
    {
        let keys = ordered::keys_u16(&self.buckets);
        let ghost whole = self@.sizes();
        let mut sizes: Vec<(u16, u32)> = Vec::new();
        for n in 0..keys.len()
            invariant
                ordered::lists_u16(keys@, self.buckets@.dom()),
                whole == keys@.map_values(|i: u16| (i, self.buckets@[i])),
                sizes@ =~= whole.take(n as int),
        {
            proof {
                assert(keys@.contains(keys@[n as int]));
            }
            if let Some(count) = self.buckets.get(&keys[n]) {
                sizes.push((keys[n], *count));
            }
        }
        proof {
            assert(sizes@ =~= whole);
        }
        sizes
    }
}

/// Total footprint of what a histogram of sizes stands for: exact while the
/// sizes are small enough for a bucket each, a midpoint estimate past that.
pub fn bytes_from_buckets(sizes: &Vec<(u16, u32)>) -> (r: u64)
    ensures
        r == dist::clamp64(dist::estimate(sizes@)),
{
    dist::estimate_total(sizes)
}

/// A type that owns nothing is sized exactly: below the linear limit the
/// footprint of `n` values is `n` times their size.
pub proof fn lemma_small_sizes_are_exact(bytes: u64, n: u32)
    requires
        bytes < dist::LINEAR_LIMIT,
    ensures
        dist::estimate(seq![(dist::bucket_index(bytes), n)]) == bytes * n,
{
    dist::lemma_every_value_has_a_bucket(bytes);
    let i = dist::bucket_index(bytes);
    let s = seq![(i, n)];
    let f = |i: u16| dist::midpoint(i);
    assert(i == bytes) by {
        dist::lemma_bucket_unique(i as int, bytes as int, bytes as int);
    }
    assert(s.drop_last() =~= Seq::<(u16, u32)>::empty());
    assert(dist::weighed(s.drop_last(), f) == 0);
    assert(dist::midpoint(i) == bytes);
    assert(dist::weighed(s, f) == f(i) * n as nat);
}

} // verus!
