//! Reading a sorted map back in key order.
use std::collections::BTreeMap;

use vstd::prelude::*;

use crate::sorting;

verus! {

/// A map keyed by `u16` keeps its keys in their own order.
pub broadcast proof fn lemma_u16_keys()
    ensures
        #[trigger] vstd::std_specs::btree::key_obeys_cmp_spec::<u16>(),
{
    broadcast use {vstd::laws_cmp::group_laws_cmp, vstd::std_specs::btree::group_btree_axioms};

}

/// A map keyed by `u32` keeps its keys in their own order.
pub broadcast proof fn lemma_u32_keys()
    ensures
        #[trigger] vstd::std_specs::btree::key_obeys_cmp_spec::<u32>(),
{
    broadcast use {vstd::laws_cmp::group_laws_cmp, vstd::std_specs::btree::group_btree_axioms};

}

/// A map keyed by `u64` keeps its keys in their own order.
pub broadcast proof fn lemma_u64_keys()
    ensures
        #[trigger] vstd::std_specs::btree::key_obeys_cmp_spec::<u64>(),
{
    broadcast use {vstd::laws_cmp::group_laws_cmp, vstd::std_specs::btree::group_btree_axioms};

}

/// A map keyed by `(u32, u32)` keeps its keys in their own order.
pub broadcast proof fn lemma_pair_keys()
    ensures
        #[trigger] vstd::std_specs::btree::key_obeys_cmp_spec::<(u32, u32)>(),
{
    broadcast use {vstd::laws_cmp::group_laws_cmp, vstd::std_specs::btree::group_btree_axioms};

}

/// What a sorted map keyed by integers, or by pairs of them, may rely on.
pub broadcast group group_sorted_maps {
    lemma_u16_keys,
    lemma_u32_keys,
    lemma_u64_keys,
    lemma_pair_keys,
    vstd::std_specs::btree::group_btree_axioms,
}

/// `keys` holds every element of `dom` once, smallest first.
pub open spec fn lists_u16(keys: Seq<u16>, dom: Set<u16>) -> bool {
    &&& forall|i: int, j: int| 0 <= i < j < keys.len() ==> keys[i] < keys[j]
    &&& forall|k: u16| dom.contains(k) <==> keys.contains(k)
}

/// `keys` holds every element of `dom` once, smallest first.
pub open spec fn lists_u32(keys: Seq<u32>, dom: Set<u32>) -> bool {
    &&& forall|i: int, j: int| 0 <= i < j < keys.len() ==> keys[i] < keys[j]
    &&& forall|k: u32| dom.contains(k) <==> keys.contains(k)
}

/// The order of pairs: by first half, then by second.
pub open spec fn pair_less(a: (u32, u32), b: (u32, u32)) -> bool {
    a.0 < b.0 || (a.0 == b.0 && a.1 < b.1)
}

/// `keys` holds every element of `dom` once, smallest pair first.
pub open spec fn lists_pairs(keys: Seq<(u32, u32)>, dom: Set<(u32, u32)>) -> bool {
    &&& forall|i: int, j: int|
        0 <= i < j < keys.len() ==> #[trigger] pair_less(keys[i], keys[j])
    &&& forall|k: (u32, u32)| dom.contains(k) <==> keys.contains(k)
}

/// Two lists of the same elements, each in strictly rising order, are the same
/// list.
proof fn lemma_one_rising_list<T>(a: Seq<T>, b: Seq<T>, less: spec_fn(T, T) -> bool, n: int)
    requires
        0 <= n <= a.len(),
        n <= b.len(),
        forall|x: T| !#[trigger] less(x, x),
        forall|x: T, y: T| #[trigger] less(x, y) ==> !less(y, x),
        forall|i: int, j: int| 0 <= i < j < a.len() ==> less(#[trigger] a[i], #[trigger] a[j]),
        forall|i: int, j: int| 0 <= i < j < b.len() ==> less(#[trigger] b[i], #[trigger] b[j]),
        forall|x: T| a.contains(x) <==> b.contains(x),
        forall|k: int| 0 <= k < n ==> #[trigger] a[k] == b[k],
    ensures
        a == b,
    decreases a.len() - n,
{
    if n < a.len() {
        assert(a.contains(a[n]));
        let k = choose|k: int| 0 <= k < b.len() && b[k] == a[n];
        if k < n {
            assert(less(a[k], a[n]));
        }
        assert(b.contains(b[n]));
        let m = choose|m: int| 0 <= m < a.len() && a[m] == b[n];
        if m < n {
            assert(less(b[m], b[n]));
        }
        if k > n && m > n {
            assert(less(b[n], b[k]));
            assert(less(a[n], a[m]));
        }
        lemma_one_rising_list(a, b, less, n + 1);
    } else {
        if n < b.len() {
            assert(b.contains(b[n]));
            let m = choose|m: int| 0 <= m < a.len() && a[m] == b[n];
            assert(less(b[m], b[n]));
        }
        assert(a =~= b);
    }
}

/// A finite set can be listed in rising order.
proof fn lemma_rising_list<T>(dom: Set<T>, less: spec_fn(T, T) -> bool) -> (keys: Seq<T>)
    requires
        dom.finite(),
        forall|x: T, y: T| x != y ==> #[trigger] less(x, y) || less(y, x),
        forall|x: T, y: T, z: T| #[trigger] less(x, y) && #[trigger] less(y, z) ==> less(x, z),
    ensures
        forall|i: int, j: int|
            0 <= i < j < keys.len() ==> less(#[trigger] keys[i], #[trigger] keys[j]),
        forall|k: T| dom.contains(k) <==> keys.contains(k),
    decreases dom.len(),
{
    if dom.len() == 0 {
        assert(dom =~= Set::empty());
        Seq::empty()
    } else {
        let a = dom.choose();
        let rest = lemma_rising_list(dom.remove(a), less);
        let p = sorting::place(rest, a, less, 0);
        sorting::lemma_place(rest, a, less, 0);
        let keys = rest.insert(p, a);
        assert forall|i: int| 0 <= i < rest.len() implies rest[i] != a by {
            assert(rest.contains(rest[i]));
        }
        assert forall|i: int, j: int| 0 <= i < j < keys.len() implies less(
            #[trigger] keys[i],
            #[trigger] keys[j],
        ) by {
            if i < p && j == p {
                assert(!less(a, rest[i]));
            } else if i == p {
                if j - 1 > p {
                    assert(less(rest[p], rest[j - 1]));
                }
            } else {
                let (m, n) = (
                    if i < p {
                        i
                    } else {
                        i - 1
                    },
                    if j < p {
                        j
                    } else {
                        j - 1
                    },
                );
                assert(less(rest[m], rest[n]));
            }
        }
        assert forall|k: T| dom.contains(k) <==> keys.contains(k) by {
            if k == a {
                assert(keys[p] == a);
            } else if rest.contains(k) {
                let i = choose|i: int| 0 <= i < rest.len() && rest[i] == k;
                assert(keys[if i < p {
                    i
                } else {
                    i + 1
                }] == k);
            } else if keys.contains(k) {
                let i = choose|i: int| 0 <= i < keys.len() && keys[i] == k;
                assert(rest[if i < p {
                    i
                } else {
                    i - 1
                }] == k);
            }
        }
        keys
    }
}

/// The elements of a set, smallest first.
pub open spec fn rising_u16(dom: Set<u16>) -> Seq<u16> {
    choose|keys: Seq<u16>| lists_u16(keys, dom)
}

/// The elements of a set, smallest first.
pub open spec fn rising_u32(dom: Set<u32>) -> Seq<u32> {
    choose|keys: Seq<u32>| lists_u32(keys, dom)
}

/// The elements of a set, smallest pair first.
pub open spec fn rising_pairs(dom: Set<(u32, u32)>) -> Seq<(u32, u32)> {
    choose|keys: Seq<(u32, u32)>| lists_pairs(keys, dom)
}

/// The elements of a finite set are listed once each.
pub proof fn lemma_rising_u32(dom: Set<u32>)
    requires
        dom.finite(),
    ensures
        lists_u32(rising_u32(dom), dom),
{
    let keys = lemma_rising_list(dom, |x: u32, y: u32| x < y);
    assert(lists_u32(keys, dom));
}

/// The elements of a finite set are listed once each.
pub proof fn lemma_rising_pairs(dom: Set<(u32, u32)>)
    requires
        dom.finite(),
    ensures
        lists_pairs(rising_pairs(dom), dom),
{
    let less = |x: (u32, u32), y: (u32, u32)| pair_less(x, y);
    let keys = lemma_rising_list(dom, less);
    assert forall|i: int, j: int| 0 <= i < j < keys.len() implies #[trigger] pair_less(
        keys[i],
        keys[j],
    ) by {
        assert(less(keys[i], keys[j]));
    }
    assert(lists_pairs(keys, dom));
}

/// What counting reaches holds only finitely many elements.
proof fn lemma_counted_is_finite<T>(dom: Set<T>, n: int, at: spec_fn(int) -> T)
    requires
        0 <= n,
        forall|k: T| #[trigger] dom.contains(k) ==> exists|i: int| 0 <= i < n && #[trigger] at(i) == k,
    ensures
        dom.finite(),
{
    let range = vstd::set_lib::set_int_range(0, n);
    vstd::set_lib::lemma_int_range(0, n);
    let reached = range.map(at);
    range.lemma_map_finite(at);
    assert forall|k: T| #[trigger] dom.contains(k) implies reached.contains(k) by {
        let i = choose|i: int| 0 <= i < n && #[trigger] at(i) == k;
        assert(range.contains(i));
    }
    assert(dom.subset_of(reached));
    vstd::set_lib::lemma_set_subset_finite(reached, dom);
}

/// Whatever a set of small integers holds, its elements can be listed.
pub proof fn lemma_listed_u16(dom: Set<u16>)
    ensures
        lists_u16(rising_u16(dom), dom),
{
    let at = |i: int| i as u16;
    assert forall|k: u16| #[trigger] dom.contains(k) implies exists|i: int|
        0 <= i < 0x1_0000 && #[trigger] at(i) == k by {
        assert(at(k as int) == k);
    }
    lemma_counted_is_finite(dom, 0x1_0000, at);
    let keys = lemma_rising_list(dom, |x: u16, y: u16| x < y);
    assert(lists_u16(keys, dom));
}

/// Whatever a set of ids holds, its elements can be listed.
pub proof fn lemma_listed_u32(dom: Set<u32>)
    ensures
        lists_u32(rising_u32(dom), dom),
{
    let at = |i: int| i as u32;
    assert forall|k: u32| #[trigger] dom.contains(k) implies exists|i: int|
        0 <= i < 0x1_0000_0000 && #[trigger] at(i) == k by {
        assert(at(k as int) == k);
    }
    lemma_counted_is_finite(dom, 0x1_0000_0000, at);
    lemma_rising_u32(dom);
}

/// Whatever a set of pairs of ids holds, its elements can be listed.
pub proof fn lemma_listed_pairs(dom: Set<(u32, u32)>)
    ensures
        lists_pairs(rising_pairs(dom), dom),
{
    let at = |i: int| ((i / 0x1_0000_0000) as u32, (i % 0x1_0000_0000) as u32);
    assert forall|k: (u32, u32)| #[trigger] dom.contains(k) implies exists|i: int|
        0 <= i < 0x1_0000_0000_0000_0000 && #[trigger] at(i) == k by {
        let i = k.0 * 0x1_0000_0000 + k.1;
        assert(i / 0x1_0000_0000 == k.0 && i % 0x1_0000_0000 == k.1);
        assert(at(i) == k);
    }
    lemma_counted_is_finite(dom, 0x1_0000_0000_0000_0000, at);
    lemma_rising_pairs(dom);
}

/// There is one list of a set's elements, smallest first.
pub proof fn lemma_rising_u16_is(keys: Seq<u16>, dom: Set<u16>)
    requires
        lists_u16(keys, dom),
    ensures
        rising_u16(dom) == keys,
{
    assert(lists_u16(rising_u16(dom), dom));
    lemma_one_rising_list(rising_u16(dom), keys, |x: u16, y: u16| x < y, 0);
}

/// There is one list of a set's elements, smallest first.
pub proof fn lemma_rising_u32_is(keys: Seq<u32>, dom: Set<u32>)
    requires
        lists_u32(keys, dom),
    ensures
        rising_u32(dom) == keys,
{
    assert(lists_u32(rising_u32(dom), dom));
    lemma_one_rising_list(rising_u32(dom), keys, |x: u32, y: u32| x < y, 0);
}

/// There is one list of a set's elements, smallest first.
pub proof fn lemma_rising_pairs_is(keys: Seq<(u32, u32)>, dom: Set<(u32, u32)>)
    requires
        lists_pairs(keys, dom),
    ensures
        rising_pairs(dom) == keys,
{
    assert(lists_pairs(rising_pairs(dom), dom));
    lemma_one_rising_list(rising_pairs(dom), keys, |x: (u32, u32), y: (u32, u32)| pair_less(x, y), 0);
}

/// The keys of a map, in the order the map keeps them.
fn map_keys<K: Copy + Ord, V>(map: &BTreeMap<K, V>) -> (r: Vec<K>)
    requires
        vstd::laws_cmp::obeys_cmp::<K>(),
    ensures
        vstd::std_specs::btree::increasing_seq(r@),
        r@.to_set() == map@.dom(),
{
    broadcast use vstd::std_specs::btree::group_btree_axioms;

    let mut keys: Vec<K> = Vec::new();
    for k in it: map.iter()
        invariant
            keys@.len() == it.index(),
            forall|i: int| 0 <= i < keys@.len() ==> keys@[i] == *it.seq()[i].0,
    {
        keys.push(*k.0);
    }
    proof {
        let items = vstd::std_specs::iter::IteratorSpec::remaining(&map.iter());
        assert(keys@ =~= items.map_values(|kv: (&K, &V)| *kv.0));
        assert(keys@.to_set() =~= map@.dom()) by {
            assert forall|k: K| map@.dom().contains(k) implies keys@.contains(k) by {
                let i = choose|i: int| 0 <= i < items.len() && items[i] == (&k, &map@[k]);
                assert(keys@[i] == k);
            }
            assert forall|k: K| keys@.contains(k) implies map@.dom().contains(k) by {
                let i = choose|i: int| 0 <= i < keys@.len() && keys@[i] == k;
                assert(map@.contains_key(*items[i].0));
            }
        }
    }
    keys
}

/// The keys of a map, smallest first.
pub fn keys_u16<V>(map: &BTreeMap<u16, V>) -> (r: Vec<u16>)
    ensures
        lists_u16(r@, map@.dom()),
        r@ == rising_u16(map@.dom()),
{
    broadcast use {vstd::laws_cmp::group_laws_cmp, vstd::std_specs::btree::group_btree_axioms};

    let r = map_keys(map);
    proof {
        vstd::std_specs::btree::axiom_increasing_seq_meaning(r@);
        assert forall|i: int, j: int| 0 <= i < j < r@.len() implies r@[i] < r@[j] by {
            assert(vstd::std_specs::cmp::OrdSpec::cmp_spec(&r@[i], &r@[j]) is Less);
        }
        assert forall|k: u16| map@.dom().contains(k) <==> r@.contains(k) by {
            assert(r@.to_set().contains(k) <==> r@.contains(k));
        }
        assert(lists_u16(r@, map@.dom()));
        lemma_rising_u16_is(r@, map@.dom());
    }
    r
}

/// The keys of a map, smallest first.
pub fn keys_u32<V>(map: &BTreeMap<u32, V>) -> (r: Vec<u32>)
    ensures
        lists_u32(r@, map@.dom()),
        r@ == rising_u32(map@.dom()),
{
    broadcast use {vstd::laws_cmp::group_laws_cmp, vstd::std_specs::btree::group_btree_axioms};

    let r = map_keys(map);
    proof {
        vstd::std_specs::btree::axiom_increasing_seq_meaning(r@);
        assert forall|i: int, j: int| 0 <= i < j < r@.len() implies r@[i] < r@[j] by {
            assert(vstd::std_specs::cmp::OrdSpec::cmp_spec(&r@[i], &r@[j]) is Less);
        }
        assert forall|k: u32| map@.dom().contains(k) <==> r@.contains(k) by {
            assert(r@.to_set().contains(k) <==> r@.contains(k));
        }
        assert(lists_u32(r@, map@.dom()));
        lemma_rising_u32_is(r@, map@.dom());
    }
    r
}

/// The keys of a map, smallest pair first.
pub fn keys_pairs<V>(map: &BTreeMap<(u32, u32), V>) -> (r: Vec<(u32, u32)>)
    ensures
        lists_pairs(r@, map@.dom()),
        r@ == rising_pairs(map@.dom()),
{
    broadcast use {vstd::laws_cmp::group_laws_cmp, vstd::std_specs::btree::group_btree_axioms};

    let r = map_keys(map);
    proof {
        vstd::std_specs::btree::axiom_increasing_seq_meaning(r@);
        assert forall|i: int, j: int| 0 <= i < j < r@.len() implies #[trigger] pair_less(
            r@[i],
            r@[j],
        ) by {
            assert(vstd::std_specs::cmp::OrdSpec::cmp_spec(&r@[i], &r@[j]) is Less);
        }
        assert forall|k: (u32, u32)| map@.dom().contains(k) <==> r@.contains(k) by {
            assert(r@.to_set().contains(k) <==> r@.contains(k));
        }
        assert(lists_pairs(r@, map@.dom()));
        lemma_rising_pairs_is(r@, map@.dom());
    }
    r
}

} // verus!
