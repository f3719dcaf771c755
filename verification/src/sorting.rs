//! Stable sorting under whatever order the caller names.
use vstd::multiset::Multiset;
use vstd::prelude::*;

verus! {

/// An order in which any two items can be placed. Items the order does not
/// tell apart keep the places they came in.
pub trait Order<T> {
    /// `a` may stand before `b`.
    spec fn leq(a: T, b: T) -> bool;

    /// Of two items one may stand before the other.
    proof fn lemma_total(a: T, b: T)
        ensures
            Self::leq(a, b) || Self::leq(b, a),
    ;

    /// What may stand before an item may stand before whatever follows it.
    proof fn lemma_transitive(a: T, b: T, c: T)
        requires
            Self::leq(a, b),
            Self::leq(b, c),
        ensures
            Self::leq(a, c),
    ;

    fn may_precede(a: &T, b: &T) -> (r: bool)
        ensures
            r == Self::leq(*a, *b),
    ;
}

/// The relation behind an [`Order`].
pub open spec fn order_of<T, O: Order<T>>() -> spec_fn(T, T) -> bool {
    |a: T, b: T| O::leq(a, b)
}

/// A relation that places any two items.
pub open spec fn places_all<T>(leq: spec_fn(T, T) -> bool) -> bool {
    &&& forall|a: T, b: T| #[trigger] leq(a, b) || leq(b, a)
    &&& forall|a: T, b: T, c: T| #[trigger] leq(a, b) && #[trigger] leq(b, c) ==> leq(a, c)
}

/// The first place in `s`, counting from `from`, that `x` may stand before.
pub open spec fn place<T>(s: Seq<T>, x: T, leq: spec_fn(T, T) -> bool, from: int) -> int
    decreases s.len() - from,
{
    if from < 0 || from >= s.len() {
        s.len() as int
    } else if leq(x, s[from]) {
        from
    } else {
        place(s, x, leq, from + 1)
    }
}

/// `s` sorted: each item, last to first, goes before the first one it may stand
/// before.
pub open spec fn sorted<T>(s: Seq<T>, leq: spec_fn(T, T) -> bool) -> Seq<T>
    decreases s.len(),
{
    if s.len() == 0 {
        s
    } else {
        let rest = sorted(s.skip(1), leq);
        rest.insert(place(rest, s[0], leq, 0), s[0])
    }
}

/// The relation does not tell `a` and `b` apart.
pub open spec fn alike<T>(a: T, b: T, leq: spec_fn(T, T) -> bool) -> bool {
    leq(a, b) && leq(b, a)
}

/// Every item may stand before those after it.
pub open spec fn in_order<T>(s: Seq<T>, leq: spec_fn(T, T) -> bool) -> bool {
    forall|i: int, j: int| 0 <= i < j < s.len() ==> leq(#[trigger] s[i], #[trigger] s[j])
}

/// The items of `s` that are like `t`, in the order they stand in.
pub open spec fn those_like<T>(s: Seq<T>, t: T, leq: spec_fn(T, T) -> bool) -> Seq<T> {
    s.filter(|u: T| alike(t, u, leq))
}

/// Items unlike `t` leave nothing behind.
proof fn lemma_none_like<T>(s: Seq<T>, t: T, leq: spec_fn(T, T) -> bool)
    requires
        forall|i: int| 0 <= i < s.len() ==> !alike(t, #[trigger] s[i], leq),
    ensures
        those_like(s, t, leq) == Seq::<T>::empty(),
    decreases s.len(),
{
    reveal(Seq::filter);
    if s.len() > 0 {
        assert(!alike(t, s[s.len() - 1], leq));
        assert forall|i: int| 0 <= i < s.drop_last().len() implies !alike(
            t,
            #[trigger] s.drop_last()[i],
            leq,
        ) by {
            assert(s.drop_last()[i] == s[i]);
        }
        lemma_none_like(s.drop_last(), t, leq);
    }
}

/// What is like two parts in a row is what is like the one, then the other.
proof fn lemma_like_either<T>(a: Seq<T>, b: Seq<T>, t: T, leq: spec_fn(T, T) -> bool)
    ensures
        those_like(a + b, t, leq) == those_like(a, t, leq) + those_like(b, t, leq),
{
    Seq::<T>::filter_distributes_over_add(a, b, |u: T| alike(t, u, leq));
}

/// Putting an item before the first one it may precede keeps what is like any
/// item in the order it was, with the new item first.
proof fn lemma_inserted_first<T>(s: Seq<T>, i: int, x: T, t: T, leq: spec_fn(T, T) -> bool)
    requires
        places_all(leq),
        0 <= i <= s.len(),
        forall|j: int| 0 <= j < i ==> !leq(x, #[trigger] s[j]),
    ensures
        those_like(s.insert(i, x), t, leq) == those_like(seq![x] + s, t, leq),
{
    let (front, back) = (s.take(i), s.skip(i));
    assert(s.insert(i, x) =~= front + (seq![x] + back));
    assert(seq![x] + s =~= seq![x] + (front + back));
    lemma_like_either(front, seq![x] + back, t, leq);
    lemma_like_either(seq![x], back, t, leq);
    lemma_like_either(seq![x], front + back, t, leq);
    lemma_like_either(front, back, t, leq);
    if alike(t, x, leq) {
        assert forall|j: int| 0 <= j < front.len() implies !alike(t, #[trigger] front[j], leq) by {
            assert(front[j] == s[j]);
            if alike(t, s[j], leq) {
                assert(leq(x, t) && leq(t, s[j]));
            }
        }
        lemma_none_like(front, t, leq);
        let (a, b) = (those_like(seq![x], t, leq), those_like(back, t, leq));
        assert(Seq::<T>::empty() + (a + b) =~= a + (Seq::<T>::empty() + b));
    } else {
        assert(forall|j: int| 0 <= j < seq![x].len() ==> !alike(t, #[trigger] seq![x][j], leq));
        lemma_none_like(seq![x], t, leq);
        let (a, b) = (those_like(front, t, leq), those_like(back, t, leq));
        assert(a + (Seq::<T>::empty() + b) =~= Seq::<T>::empty() + (a + b));
    }
}

pub proof fn lemma_place<T>(s: Seq<T>, x: T, leq: spec_fn(T, T) -> bool, from: int)
    requires
        0 <= from <= s.len(),
    ensures
        from <= place(s, x, leq, from) <= s.len(),
        forall|j: int| from <= j < place(s, x, leq, from) ==> !leq(x, #[trigger] s[j]),
        place(s, x, leq, from) < s.len() ==> leq(x, s[place(s, x, leq, from)]),
    decreases s.len() - from,
{
    if from < s.len() && !leq(x, s[from]) {
        lemma_place(s, x, leq, from + 1);
    }
}

/// Sorting puts the items in order, keeps every one of them, and leaves items
/// the order does not tell apart in the order they came in.
pub proof fn lemma_sorting_is_stable<T>(s: Seq<T>, leq: spec_fn(T, T) -> bool)
    requires
        places_all(leq),
    ensures
        in_order(sorted(s, leq), leq),
        sorted(s, leq).to_multiset() == s.to_multiset(),
        sorted(s, leq).len() == s.len(),
        forall|t: T| #[trigger] those_like(sorted(s, leq), t, leq) == those_like(s, t, leq),
    decreases s.len(),
{
    if s.len() > 0 {
        let tail = s.skip(1);
        let x = s[0];
        lemma_sorting_is_stable(tail, leq);
        let rest = sorted(tail, leq);
        let i = place(rest, x, leq, 0);
        lemma_place(rest, x, leq, 0);
        let out = rest.insert(i, x);
        assert(s =~= seq![x] + tail);
        assert forall|t: T| #[trigger] those_like(out, t, leq) == those_like(s, t, leq) by {
            lemma_inserted_first(rest, i, x, t, leq);
            lemma_like_either(seq![x], rest, t, leq);
            lemma_like_either(seq![x], tail, t, leq);
            assert(those_like(rest, t, leq) == those_like(tail, t, leq));
        }
        assert forall|a: int, b: int| 0 <= a < b < out.len() implies leq(
            #[trigger] out[a],
            #[trigger] out[b],
        ) by {
            if a < i {
                assert(out[a] == rest[a]);
                assert(leq(x, rest[a]) || leq(rest[a], x));
                if b > i {
                    assert(out[b] == rest[b - 1]);
                } else if b < i {
                    assert(out[b] == rest[b]);
                }
            } else {
                assert(out[b] == rest[b - 1]);
                if a == i {
                    if b - 1 > i {
                        assert(leq(rest[i], rest[b - 1]));
                    }
                } else {
                    assert(out[a] == rest[a - 1]);
                }
            }
        }
        vstd::seq_lib::to_multiset_insert(rest, i, x);
        vstd::seq_lib::to_multiset_insert(tail, 0, x);
        assert(s =~= tail.insert(0, x));
    }
}

/// Sorting sees items only through what the order sees of them: sorting and
/// then reading each item is reading each item and then sorting.
pub proof fn lemma_sorting_commutes_with_reading<T, M>(
    s: Seq<T>,
    read: spec_fn(T) -> M,
    leq: spec_fn(T, T) -> bool,
    model: spec_fn(M, M) -> bool,
)
    requires
        forall|a: T, b: T| #[trigger] leq(a, b) == model(read(a), read(b)),
    ensures
        sorted(s, leq).map_values(read) == sorted(s.map_values(read), model),
    decreases s.len(),
{
    if s.len() > 0 {
        lemma_sorting_commutes_with_reading(s.skip(1), read, leq, model);
        assert(s.map_values(read).skip(1) =~= s.skip(1).map_values(read));
        let rest = sorted(s.skip(1), leq);
        lemma_place_commutes(rest, s[0], read, leq, model, 0);
        lemma_place(rest, s[0], leq, 0);
        let i = place(rest, s[0], leq, 0);
        assert(rest.insert(i, s[0]).map_values(read) =~= rest.map_values(read).insert(
            i,
            read(s[0]),
        ));
    } else {
        assert(s.map_values(read) =~= Seq::<M>::empty());
    }
}

proof fn lemma_place_commutes<T, M>(
    s: Seq<T>,
    x: T,
    read: spec_fn(T) -> M,
    leq: spec_fn(T, T) -> bool,
    model: spec_fn(M, M) -> bool,
    from: int,
)
    requires
        0 <= from <= s.len(),
        forall|a: T, b: T| #[trigger] leq(a, b) == model(read(a), read(b)),
    ensures
        place(s, x, leq, from) == place(s.map_values(read), read(x), model, from),
    decreases s.len() - from,
{
    if from < s.len() {
        assert(leq(x, s[from]) == model(read(x), s.map_values(read)[from]));
        if !leq(x, s[from]) {
            lemma_place_commutes(s, x, read, leq, model, from + 1);
        }
    }
}

/// Sorts, keeping items the order does not tell apart in the order they came
/// in.
pub fn stable_sort<T, O: Order<T>>(items: Vec<T>) -> (r: Vec<T>)
    ensures
        r@ == sorted(items@, order_of::<T, O>()),
{
    let ghost all = items@;
    let ghost leq = order_of::<T, O>();
    let mut rest = items;
    let mut done: Vec<T> = Vec::new();
    proof {
        assert(all.skip(all.len() as int) =~= Seq::<T>::empty());
        assert(all.take(all.len() as int) =~= all);
    }
    while rest.len() > 0
        invariant
            leq == order_of::<T, O>(),
            rest@.len() <= all.len(),
            rest@ == all.take(rest@.len() as int),
            done@ == sorted(all.skip(rest@.len() as int), leq),
        decreases rest@.len(),
    {
        let ghost n = rest@.len() - 1;
        let ghost before = done@;
        let x = rest.pop().unwrap();
        let mut i: usize = 0;
        while i < done.len() && !O::may_precede(&x, &done[i])
            invariant
                leq == order_of::<T, O>(),
                i <= done@.len(),
                place(done@, x, leq, 0) == place(done@, x, leq, i as int),
            decreases done@.len() - i,
        {
            i = i + 1;
        }
        done.insert(i, x);
        proof {
            assert(rest@ =~= all.take(n));
            assert(all.skip(n).skip(1) =~= all.skip(n + 1));
            assert(all.skip(n)[0] == x);
        }
    }
    proof {
        assert(all.skip(0) =~= all);
    }
    done
}

/// What the items hold, all together.
pub open spec fn gathered<T, M>(s: Seq<T>, hold: spec_fn(T) -> Multiset<M>) -> Multiset<M>
    decreases s.len(),
{
    if s.len() == 0 {
        Multiset::empty()
    } else {
        hold(s[0]).add(gathered(s.skip(1), hold))
    }
}

/// An item adds what it holds wherever it is put.
pub proof fn lemma_gathered_with_one_more<T, M>(
    s: Seq<T>,
    i: int,
    x: T,
    hold: spec_fn(T) -> Multiset<M>,
)
    requires
        0 <= i <= s.len(),
    ensures
        gathered(s.insert(i, x), hold) == hold(x).add(gathered(s, hold)),
    decreases i,
{
    let t = s.insert(i, x);
    if i == 0 {
        assert(t.skip(1) =~= s);
    } else {
        assert(t.skip(1) =~= s.skip(1).insert(i - 1, x));
        assert(t[0] == s[0]);
        lemma_gathered_with_one_more(s.skip(1), i - 1, x, hold);
        assert(gathered(t, hold) =~= hold(x).add(gathered(s, hold)));
    }
}

/// Sorting changes nothing of what the items hold.
pub proof fn lemma_sorting_keeps_what_is_held<T, M>(
    s: Seq<T>,
    leq: spec_fn(T, T) -> bool,
    hold: spec_fn(T) -> Multiset<M>,
)
    ensures
        gathered(sorted(s, leq), hold) == gathered(s, hold),
    decreases s.len(),
{
    if s.len() > 0 {
        let rest = sorted(s.skip(1), leq);
        lemma_place(rest, s[0], leq, 0);
        lemma_sorting_keeps_what_is_held(s.skip(1), leq, hold);
        lemma_gathered_with_one_more(rest, place(rest, s[0], leq, 0), s[0], hold);
    }
}

/// Two lists hold what both of them hold.
pub proof fn lemma_gathered_from_both<T, M>(
    a: Seq<T>,
    b: Seq<T>,
    hold: spec_fn(T) -> Multiset<M>,
)
    ensures
        gathered(a + b, hold) == gathered(a, hold).add(gathered(b, hold)),
    decreases a.len(),
{
    if a.len() == 0 {
        assert(a + b =~= b);
        assert(gathered(a + b, hold) =~= gathered(a, hold).add(gathered(b, hold)));
    } else {
        assert((a + b).skip(1) =~= a.skip(1) + b);
        lemma_gathered_from_both(a.skip(1), b, hold);
        assert(gathered(a + b, hold) =~= gathered(a, hold).add(gathered(b, hold)));
    }
}

/// Items that hold one thing each hold, together, the things read off them.
pub proof fn lemma_gathered_one_by_one<T, M>(s: Seq<T>, read: spec_fn(T) -> M)
    ensures
        gathered(s, |t: T| Multiset::singleton(read(t))) == s.map_values(read).to_multiset(),
    decreases s.len(),
{
    broadcast use vstd::multiset::group_multiset_axioms;
    broadcast use vstd::seq_lib::group_to_multiset_ensures;

    let hold = |t: T| Multiset::singleton(read(t));
    if s.len() == 0 {
        assert(s.map_values(read) =~= Seq::empty());
        assert(gathered(s, hold) =~= s.map_values(read).to_multiset());
    } else {
        lemma_gathered_one_by_one(s.skip(1), read);
        let (all, tail) = (s.map_values(read), s.skip(1).map_values(read));
        all.to_multiset_ensures();
        assert(all.remove(0) =~= tail);
        assert(all.contains(all[0]));
        assert(gathered(s, hold) =~= s.map_values(read).to_multiset());
    }
}

} // verus!
