//! What a probe sends, and what it reads back by name, of what it measured and
//! named.
use vstd::prelude::*;

use crate::accum;
use crate::accum::{AccumModel, CallStatModel, SamplesModel, StackStat};
use crate::census::SlotModel;
use crate::dist;
use crate::dist::Dist;
use crate::emit;
use crate::ordered;
use crate::proto::{Event, Register};
use crate::symbols;
use crate::symbols::{Site, SiteModel, SymbolsModel};
use crate::testing;
use crate::testing::EdgeCountModel;

verus! {

/// A distribution on the wire is the samples that were held: raw ones as they
/// are, a histogram bucket by bucket, smallest first.
pub open spec fn carries(ns: Dist, held: SamplesModel) -> bool {
    match held {
        SamplesModel::Raw(v) => ns is Raw && ns->v@ == v,
        SamplesModel::Buckets(m) => {
            &&& ns is Buckets
            &&& forall|k: int|
                0 <= k < ns->b@.len() ==> m.contains_key((#[trigger] ns->b@[k]).0)
                    && ns->b@[k].1 == m[ns->b@[k].0]
            &&& forall|i: u16| #[trigger]
                m.contains_key(i) ==> exists|k: int|
                    0 <= k < ns->b@.len() && (#[trigger] ns->b@[k]).0 == i
            &&& forall|j: int, k: int|
                0 <= j < k < ns->b@.len() ==> (#[trigger] ns->b@[j]).0 < (#[trigger] ns->b@[k]).0
        },
    }
}

/// An event says so much of a function.
pub open spec fn says_calls(e: Event, f: u32, held: CallStatModel) -> bool {
    e is Calls && e->Calls_func.0 == f && e->Calls_count == held.count && carries(
        e->ns,
        held.ns,
    )
}

/// An event says so many calls were made from one function to another.
pub open spec fn says_edge(e: Event, from: u32, to: u32, count: u64) -> bool {
    e is Edge && e->from.0 == from && e->to.0 == to && e->Edge_count == count
}

/// An event says so much of a context.
pub open spec fn says_stack(e: Event, path: u32, held: StackStat) -> bool {
    e is Stack && e->path.0 == path && e->Stack_count == held.count && e->self_ns == held.self_ns
}

/// An event says how many of a type are alive and how large they are.
pub open spec fn says_census(e: Event, ty: u32, held: SlotModel) -> bool {
    e is Census && e->ty.0 == ty && e->live == held.live && carries(
        e->sizes,
        SamplesModel::Buckets(held.buckets),
    )
}

/// Some event says so of the function.
pub open spec fn calls_sent(es: Seq<Event>, f: u32, held: CallStatModel) -> bool {
    exists|i: int| 0 <= i < es.len() && says_calls(#[trigger] es[i], f, held)
}

/// Some event says so of the pair.
pub open spec fn edge_sent(es: Seq<Event>, from: u32, to: u32, count: u64) -> bool {
    exists|i: int| 0 <= i < es.len() && says_edge(#[trigger] es[i], from, to, count)
}

/// Some event says so of the context.
pub open spec fn stack_sent(es: Seq<Event>, path: u32, held: StackStat) -> bool {
    exists|i: int| 0 <= i < es.len() && says_stack(#[trigger] es[i], path, held)
}

/// Some event says so of the type.
pub open spec fn census_sent(es: Seq<Event>, ty: u32, held: SlotModel) -> bool {
    exists|i: int| 0 <= i < es.len() && says_census(#[trigger] es[i], ty, held)
}

/// The event is of something that was measured, and says what was.
pub open spec fn was_measured(e: Event, a: AccumModel, s: SymbolsModel) -> bool {
    match e {
        Event::Calls { func, .. } => a.calls.contains_key(func.0) && says_calls(
            e,
            func.0,
            a.calls[func.0],
        ),
        Event::Edge { from, to, .. } => a.edges.contains_key((from.0, to.0)) && says_edge(
            e,
            from.0,
            to.0,
            a.edges[(from.0, to.0)],
        ),
        Event::Stack { path, .. } => a.stacks.contains_key(path.0) && says_stack(
            e,
            path.0,
            a.stacks[path.0],
        ),
        Event::Census { ty, .. } => 1 <= ty.0 <= s.types.len() && says_census(
            e,
            ty.0,
            s.types[ty.0 - 1],
        ),
    }
}

proof fn lemma_a_histogram_is_carried(ns: Dist, m: Map<u16, u32>)
    requires
        ns is Buckets,
        ns->b@ == ordered::rising_u16(m.dom()).map_values(|i: u16| (i, m[i])),
    ensures
        carries(ns, SamplesModel::Buckets(m)),
{
    ordered::lemma_listed_u16(m.dom());
    let keys = ordered::rising_u16(m.dom());
    assert forall|k: int| 0 <= k < keys.len() implies m.contains_key(#[trigger] keys[k]) by {
        assert(keys.contains(keys[k]));
    }
    assert forall|i: u16| #[trigger] m.contains_key(i) implies exists|k: int|
        0 <= k < ns->b@.len() && (#[trigger] ns->b@[k]).0 == i by {
        assert(keys.contains(i));
        let k = choose|k: int| 0 <= k < keys.len() && keys[k] == i;
        assert(ns->b@[k].0 == i);
    }
}

proof fn lemma_calls_are_said(e: Event, f: u32, held: CallStatModel)
    requires
        emit::reports_calls(e, f, held),
    ensures
        says_calls(e, f, held),
{
    if let SamplesModel::Buckets(m) = held.ns {
        lemma_a_histogram_is_carried(e->ns, m);
    }
}

proof fn lemma_a_census_is_said(e: Event, ty: u32, held: SlotModel)
    requires
        emit::reports_census(e, ty as int, held),
    ensures
        says_census(e, ty, held),
{
    lemma_a_histogram_is_carried(e->sizes, held.buckets);
}

/// A frame sends every measurement of its window once, under its own ids and
/// with its own numbers, with the census of every type, and nothing else.
pub proof fn lemma_a_frame_sends_what_was_measured(
    es: Seq<Event>,
    a: AccumModel,
    s: SymbolsModel,
)
    requires
        s.wf(),
        emit::reports_all(es, a, s),
    ensures
        forall|f: u32| #[trigger] a.calls.contains_key(f) ==> calls_sent(es, f, a.calls[f]),
        forall|from: u32, to: u32|
            a.edges.contains_key((from, to)) ==> #[trigger] edge_sent(
                es,
                from,
                to,
                a.edges[(from, to)],
            ),
        forall|p: u32| #[trigger] a.stacks.contains_key(p) ==> stack_sent(es, p, a.stacks[p]),
        forall|t: int|
            0 <= t < s.types.len() ==> census_sent(es, (t + 1) as u32, #[trigger] s.types[t]),
        forall|i: int| 0 <= i < es.len() ==> was_measured(#[trigger] es[i], a, s),
        es.len() == ordered::rising_u32(a.calls.dom()).len() + ordered::rising_pairs(
            a.edges.dom(),
        ).len() + ordered::rising_u32(a.stacks.dom()).len() + s.types.len(),
{
    ordered::lemma_listed_u32(a.calls.dom());
    ordered::lemma_listed_pairs(a.edges.dom());
    ordered::lemma_listed_u32(a.stacks.dom());
    let calls = ordered::rising_u32(a.calls.dom());
    let edges = ordered::rising_pairs(a.edges.dom());
    let stacks = ordered::rising_u32(a.stacks.dom());
    let (c, e, k) = (calls.len() as int, edges.len() as int, stacks.len() as int);
    assert forall|f: u32| #[trigger] a.calls.contains_key(f) implies calls_sent(
        es,
        f,
        a.calls[f],
    ) by {
        assert(calls.contains(f));
        let i = choose|i: int| 0 <= i < calls.len() && calls[i] == f;
        lemma_calls_are_said(es[i], f, a.calls[f]);
    }
    assert forall|from: u32, to: u32| a.edges.contains_key((from, to)) implies #[trigger] edge_sent(
        es,
        from,
        to,
        a.edges[(from, to)],
    ) by {
        assert(edges.contains((from, to)));
        let i = choose|i: int| 0 <= i < edges.len() && edges[i] == (from, to);
        assert(emit::reports_edge(es[c + i], edges[c + i - c], a.edges[edges[c + i - c]]));
        assert(says_edge(es[c + i], from, to, a.edges[(from, to)]));
    }
    assert forall|p: u32| #[trigger] a.stacks.contains_key(p) implies stack_sent(
        es,
        p,
        a.stacks[p],
    ) by {
        assert(stacks.contains(p));
        let i = choose|i: int| 0 <= i < stacks.len() && stacks[i] == p;
        let at = c + e + i;
        assert(emit::reports_stack(es[at], stacks[at - c - e], a.stacks[stacks[at - c - e]]));
        assert(says_stack(es[at], p, a.stacks[p]));
    }
    assert forall|t: int| 0 <= t < s.types.len() implies census_sent(
        es,
        (t + 1) as u32,
        #[trigger] s.types[t],
    ) by {
        let at = c + e + k + t;
        assert(emit::reports_census(es[at], at - c - e - k + 1, s.types[at - c - e - k]));
        lemma_a_census_is_said(es[at], (t + 1) as u32, s.types[t]);
    }
    assert forall|i: int| 0 <= i < es.len() implies was_measured(#[trigger] es[i], a, s) by {
        if i < c {
            assert(calls.contains(calls[i]));
            lemma_calls_are_said(es[i], calls[i], a.calls[calls[i]]);
        } else if i < c + e {
            assert(edges.contains(edges[i - c]));
            assert(emit::reports_edge(es[i], edges[i - c], a.edges[edges[i - c]]));
        } else if i < c + e + k {
            assert(stacks.contains(stacks[i - c - e]));
            assert(emit::reports_stack(es[i], stacks[i - c - e], a.stacks[stacks[i - c - e]]));
        } else {
            let t = i - c - e - k;
            assert(emit::reports_census(es[i], t + 1, s.types[t]));
            lemma_a_census_is_said(es[i], (t + 1) as u32, s.types[t]);
        }
    }
}

/// A registration says of an id what it stands for.
pub open spec fn names_its_id(r: Register, s: SymbolsModel) -> bool {
    match r {
        Register::Function { id, name, module, location } => {
            let site = s.functions[id.0 - 1];
            &&& 1 <= id.0 <= s.functions.len()
            &&& name@ == site.name
            &&& module is Some && module.unwrap()@ == site.module
            &&& location is Some && location.unwrap().file@ == site.file && location.unwrap().line
                == site.line && location.unwrap().column is None
        },
        Register::Type { id, name, location } => {
            let slot = s.types[id.0 - 1];
            &&& 1 <= id.0 <= s.types.len()
            &&& name@ == slot.name
            &&& location is Some && location.unwrap().file@ == slot.file && location.unwrap().line
                == slot.line && location.unwrap().column is None
        },
        Register::Path { id, parent, func } => {
            &&& 1 <= id.0 <= s.table.nodes.len()
            &&& parent.0 == s.table.nodes[id.0 - 1].0
            &&& func.0 == s.table.nodes[id.0 - 1].1
        },
    }
}

/// Every name a frame sends is of something not sent before, and says of its id
/// what it stands for: a function by name, module and place, a type by name and
/// place, a context by what it hangs off and its function.
pub proof fn lemma_a_name_says_what_its_id_stands_for(
    rs: Seq<Register>,
    s: SymbolsModel,
    functions: int,
    types: int,
    paths: int,
    i: int,
)
    requires
        s.wf(),
        0 <= functions <= s.functions.len(),
        0 <= types <= s.types.len(),
        0 <= paths <= s.table.nodes.len(),
        symbols::names_unsent(rs, s, functions, types, paths),
        0 <= i < rs.len(),
    ensures
        names_its_id(rs[i], s),
        match rs[i] {
            Register::Function { id, .. } => id.0 > functions,
            Register::Type { id, .. } => id.0 > types,
            Register::Path { id, .. } => id.0 > paths,
        },
{
    let (f, t) = s.names_due(functions, types);
    if i < f {
        assert(symbols::names_function(rs[i], functions + i + 1, s.functions[functions + i]));
    } else if i < f + t {
        assert(symbols::names_type(rs[i], types + (i - f) + 1, s.types[types + (i - f)]));
    } else {
        let at = paths + (i - f - t);
        assert(symbols::names_context(rs[i], at + 1, s.table.nodes[at]));
    }
}

/// Something that happens to the values of a type.
pub enum Life {
    Constructed { bytes: u64 },
    /// A value leaves by the bucket it went into.
    Dropped { bucket: u16 },
}

/// How many values were constructed of a size in bucket `i`.
pub open spec fn born(lives: Seq<Life>, i: u16) -> nat
    decreases lives.len(),
{
    if lives.len() == 0 {
        0
    } else {
        born(lives.drop_last(), i) + match lives.last() {
            Life::Constructed { bytes } => if i <= dist::MAX_BUCKET && dist::bucket_lo(i as int)
                <= bytes <= dist::bucket_hi(i as int) {
                1nat
            } else {
                0
            },
            Life::Dropped { .. } => 0,
        }
    }
}

/// How many values that went into bucket `i` were dropped.
pub open spec fn gone(lives: Seq<Life>, i: u16) -> nat
    decreases lives.len(),
{
    if lives.len() == 0 {
        0
    } else {
        gone(lives.drop_last(), i) + match lives.last() {
            Life::Constructed { .. } => 0nat,
            Life::Dropped { bucket } => if bucket == i {
                1
            } else {
                0
            },
        }
    }
}

/// How many values there are: those constructed less those dropped.
pub open spec fn alive(lives: Seq<Life>) -> int
    decreases lives.len(),
{
    if lives.len() == 0 {
        0
    } else {
        alive(lives.drop_last()) + match lives.last() {
            Life::Constructed { .. } => 1int,
            Life::Dropped { .. } => -1,
        }
    }
}

/// No value is dropped that was not constructed.
pub open spec fn orderly(lives: Seq<Life>) -> bool
    decreases lives.len(),
{
    lives.len() > 0 ==> {
        &&& orderly(lives.drop_last())
        &&& lives.last() matches Life::Dropped { bucket } ==> gone(lives.drop_last(), bucket)
            < born(lives.drop_last(), bucket)
    }
}

/// A type's census after all that happened to its values.
pub open spec fn counted_over(slot: SlotModel, lives: Seq<Life>) -> SlotModel
    decreases lives.len(),
{
    if lives.len() == 0 {
        slot
    } else {
        let before = counted_over(slot, lives.drop_last());
        match lives.last() {
            Life::Constructed { bytes } => before.constructing(dist::bucket_index(bytes)),
            Life::Dropped { bucket } => before.dropping(bucket),
        }
    }
}

/// A census counts the living: over any run, each bucket holds the values
/// constructed of its size less those dropped, the count is the number alive, and
/// a bucket nothing is alive in is gone.
pub proof fn lemma_a_census_counts_the_living(slot: SlotModel, lives: Seq<Life>, i: u16)
    requires
        slot.live == 0,
        forall|k: u16| !#[trigger] slot.buckets.contains_key(k),
        orderly(lives),
        lives.len() <= u32::MAX,
    ensures
        ({
            let after = counted_over(slot, lives);
            &&& gone(lives, i) <= born(lives, i) <= lives.len()
            &&& accum::counted(after.buckets, i) == born(lives, i) - gone(lives, i)
            &&& after.buckets.contains_key(i) <==> born(lives, i) > gone(lives, i)
            &&& 0 <= alive(lives) <= lives.len()
            &&& after.live == alive(lives)
            &&& born(lives, i) - gone(lives, i) <= alive(lives)
            &&& after.name == slot.name && after.file == slot.file && after.line == slot.line
        }),
    decreases lives.len(),
{
    if lives.len() > 0 {
        let front = lives.drop_last();
        lemma_a_census_counts_the_living(slot, front, i);
        match lives.last() {
            Life::Constructed { bytes } => {
                dist::lemma_every_value_has_a_bucket(bytes);
                let b = dist::bucket_index(bytes);
                lemma_a_census_counts_the_living(slot, front, b);
                if i <= dist::MAX_BUCKET && dist::bucket_lo(i as int) <= bytes <= dist::bucket_hi(
                    i as int,
                ) {
                    dist::lemma_bucket_unique(i as int, b as int, bytes as int);
                }
            },
            Life::Dropped { bucket } => {
                lemma_a_census_counts_the_living(slot, front, bucket);
                if bucket != i {
                    lemma_two_buckets(front, i, bucket);
                }
            },
        }
    }
}

/// What two buckets hold is no more than what is alive.
proof fn lemma_two_buckets(lives: Seq<Life>, i: u16, j: u16)
    requires
        orderly(lives),
        i != j,
    ensures
        (born(lives, i) - gone(lives, i)) + (born(lives, j) - gone(lives, j)) <= alive(lives),
        gone(lives, i) <= born(lives, i),
        gone(lives, j) <= born(lives, j),
    decreases lives.len(),
{
    if lives.len() > 0 {
        let front = lives.drop_last();
        lemma_two_buckets(front, i, j);
        match lives.last() {
            Life::Constructed { bytes } => {
                if dist::covers(i as int, bytes as int) && dist::covers(j as int, bytes as int) {
                    dist::lemma_bucket_unique(i as int, j as int, bytes as int);
                }
            },
            Life::Dropped { bucket } => {
                if bucket != i && bucket != j {
                    lemma_three_buckets(front, i, j, bucket);
                }
            },
        }
    }
}

proof fn lemma_three_buckets(lives: Seq<Life>, i: u16, j: u16, k: u16)
    requires
        orderly(lives),
        i != j,
        j != k,
        i != k,
    ensures
        (born(lives, i) - gone(lives, i)) + (born(lives, j) - gone(lives, j)) + (born(lives, k)
            - gone(lives, k)) <= alive(lives),
    decreases lives.len(),
{
    lemma_some_buckets(lives, seq![i, j, k]);
    let s = seq![i, j, k];
    assert(s.drop_last() =~= seq![i, j]);
    assert(s.drop_last().drop_last() =~= seq![i]);
    assert(s.drop_last().drop_last().drop_last() =~= Seq::<u16>::empty());
    assert(living(lives, s) == living(lives, seq![i, j]) + (born(lives, k) - gone(lives, k)));
    assert(living(lives, seq![i, j]) == living(lives, seq![i]) + (born(lives, j) - gone(lives, j)));
    assert(living(lives, seq![i]) == living(lives, Seq::<u16>::empty()) + (born(lives, i) - gone(
        lives,
        i,
    )));
}

/// What some buckets hold together.
spec fn living(lives: Seq<Life>, buckets: Seq<u16>) -> int
    decreases buckets.len(),
{
    if buckets.len() == 0 {
        0
    } else {
        living(lives, buckets.drop_last()) + (born(lives, buckets.last()) - gone(
            lives,
            buckets.last(),
        ))
    }
}

/// Whatever buckets are asked for, they hold no more than is alive.
proof fn lemma_some_buckets(lives: Seq<Life>, buckets: Seq<u16>)
    requires
        orderly(lives),
        buckets.no_duplicates(),
    ensures
        living(lives, buckets) <= alive(lives),
    decreases lives.len(), buckets.len(),
{
    if lives.len() == 0 {
        lemma_none_living(lives, buckets);
    } else {
        let front = lives.drop_last();
        match lives.last() {
            Life::Constructed { bytes } => {
                lemma_some_buckets(front, buckets);
                lemma_one_born(lives, buckets);
            },
            Life::Dropped { bucket } => {
                if buckets.contains(bucket) {
                    lemma_some_buckets(front, buckets);
                    lemma_one_gone(lives, buckets, bucket);
                } else {
                    let more = buckets.push(bucket);
                    lemma_some_buckets(front, more);
                    assert(more.drop_last() =~= buckets);
                    lemma_one_gone(lives, buckets, bucket);
                }
            },
        }
    }
}

proof fn lemma_none_living(lives: Seq<Life>, buckets: Seq<u16>)
    requires
        lives.len() == 0,
    ensures
        living(lives, buckets) == 0,
    decreases buckets.len(),
{
    if buckets.len() > 0 {
        lemma_none_living(lives, buckets.drop_last());
    }
}

proof fn lemma_one_born(lives: Seq<Life>, buckets: Seq<u16>)
    requires
        lives.len() > 0,
        lives.last() is Constructed,
        buckets.no_duplicates(),
    ensures
        living(lives, buckets) <= living(lives.drop_last(), buckets) + 1,
        (forall|k: int|
            0 <= k < buckets.len() ==> !dist::covers(
                (#[trigger] buckets[k]) as int,
                lives.last()->bytes as int,
            )) ==> living(lives, buckets) == living(lives.drop_last(), buckets),
    decreases buckets.len(),
{
    if buckets.len() > 0 {
        let rest = buckets.drop_last();
        let last = buckets.last();
        let bytes = lives.last()->bytes;
        assert(buckets[buckets.len() - 1] == last);
        lemma_one_born(lives, rest);
        if dist::covers(last as int, bytes as int) {
            assert forall|k: int| 0 <= k < rest.len() implies !dist::covers(
                (#[trigger] rest[k]) as int,
                bytes as int,
            ) by {
                assert(buckets[k] != buckets[buckets.len() - 1]);
                if dist::covers(rest[k] as int, bytes as int) {
                    dist::lemma_bucket_unique(rest[k] as int, last as int, bytes as int);
                }
            }
        } else {
            if forall|k: int|
                0 <= k < buckets.len() ==> !dist::covers(
                    (#[trigger] buckets[k]) as int,
                    bytes as int,
                ) {
                assert forall|k: int| 0 <= k < rest.len() implies !dist::covers(
                    (#[trigger] rest[k]) as int,
                    bytes as int,
                ) by {
                    assert(rest[k] == buckets[k]);
                }
            }
        }
    }
}

proof fn lemma_one_gone(lives: Seq<Life>, buckets: Seq<u16>, bucket: u16)
    requires
        lives.len() > 0,
        lives.last() == (Life::Dropped { bucket }),
        buckets.no_duplicates(),
    ensures
        buckets.contains(bucket) ==> living(lives, buckets) == living(lives.drop_last(), buckets)
            - 1,
        !buckets.contains(bucket) ==> living(lives, buckets) == living(lives.drop_last(), buckets),
    decreases buckets.len(),
{
    if buckets.len() > 0 {
        let rest = buckets.drop_last();
        let last = buckets.last();
        lemma_one_gone(lives, rest, bucket);
        assert(buckets[buckets.len() - 1] == last);
        if rest.contains(bucket) {
            let k = choose|k: int| 0 <= k < rest.len() && rest[k] == bucket;
            assert(buckets[k] == bucket);
            assert(buckets[k] != buckets[buckets.len() - 1]);
        } else if buckets.contains(bucket) {
            let k = choose|k: int| 0 <= k < buckets.len() && buckets[k] == bucket;
            if k < rest.len() {
                assert(rest[k] == bucket);
            }
        }
    }
}

/// What the entries stand for at least, and at most.
pub open spec fn range_of(s: Seq<(u16, u32)>) -> (nat, nat)
    decreases s.len(),
{
    if s.len() == 0 {
        (0, 0)
    } else {
        let before = range_of(s.drop_last());
        let (i, n) = s.last();
        (
            before.0 + (dist::bucket_lo(i as int) * n) as nat,
            before.1 + (dist::bucket_hi(i as int) * n) as nat,
        )
    }
}

/// An estimate is no less than the samples can add up to, and no more.
pub proof fn lemma_an_estimate_lies_in_range(s: Seq<(u16, u32)>)
    requires
        forall|k: int| 0 <= k < s.len() ==> (#[trigger] s[k]).0 <= dist::MAX_BUCKET,
    ensures
        range_of(s).0 <= dist::estimate(s) <= range_of(s).1,
    decreases s.len(),
{
    if s.len() > 0 {
        let front = s.drop_last();
        assert forall|k: int| 0 <= k < front.len() implies (#[trigger] front[k]).0
            <= dist::MAX_BUCKET by {
            assert(front[k] == s[k]);
        }
        lemma_an_estimate_lies_in_range(front);
        let (i, n) = s.last();
        assert(s[s.len() - 1] == (i, n));
        dist::lemma_bucket_fits(i as int);
        let (lo, hi, mid) = (
            dist::bucket_lo(i as int),
            dist::bucket_hi(i as int),
            dist::midpoint(i) as int,
        );
        assert(lo <= mid <= hi);
        assert(0 <= lo * n <= mid * n <= hi * n) by (nonlinear_arith)
            requires
                0 <= lo <= mid <= hi,
                n >= 0,
        ;
    }
}

/// The footprint a census event gives lies in the range its sizes stand for,
/// unless that is past the largest count.
pub proof fn lemma_a_footprint_lies_in_range(e: Event, id: int, held: SlotModel)
    requires
        emit::reports_census(e, id, held),
        forall|i: u16| #[trigger] held.buckets.contains_key(i) ==> i <= dist::MAX_BUCKET,
        range_of(held.sizes()).1 <= u64::MAX,
    ensures
        e is Census,
        range_of(held.sizes()).0 <= e->bytes <= range_of(held.sizes()).1,
{
    let sizes = held.sizes();
    ordered::lemma_listed_u16(held.buckets.dom());
    let keys = ordered::rising_u16(held.buckets.dom());
    assert forall|k: int| 0 <= k < sizes.len() implies (#[trigger] sizes[k]).0
        <= dist::MAX_BUCKET by {
        assert(keys.contains(keys[k]));
        assert(held.buckets.contains_key(keys[k]));
    }
    lemma_an_estimate_lies_in_range(sizes);
}

/// A function is found by its name alone or with its module before it, and the
/// first named of those that go by it is the one found.
pub proof fn lemma_a_function_is_found_by_name(functions: Seq<SiteModel>, name: Seq<char>, from: int)
    requires
        0 <= from <= functions.len(),
    ensures
        match symbols::function_place(functions, name, from) {
            Some(i) => from <= i < functions.len() && (functions[i].name == name
                || functions[i].module + "::"@ + functions[i].name == name) && forall|k: int|
                from <= k < i ==> (#[trigger] functions[k]).name != name && functions[k].module
                    + "::"@ + functions[k].name != name,
            None => forall|k: int|
                from <= k < functions.len() ==> (#[trigger] functions[k]).name != name
                    && functions[k].module + "::"@ + functions[k].name != name,
        },
    decreases functions.len() - from,
{
    if from < functions.len() {
        assert(Site::goes_by(functions[from], name) == (functions[from].name == name
            || functions[from].module + "::"@ + functions[from].name == name));
        if !Site::goes_by(functions[from], name) {
            lemma_a_function_is_found_by_name(functions, name, from + 1);
        }
    }
}

/// A type is found by its name, and the first of that name is the one found.
pub proof fn lemma_a_type_is_found_by_name(types: Seq<SlotModel>, name: Seq<char>, from: int)
    requires
        0 <= from <= types.len(),
    ensures
        match symbols::type_place(types, name, from) {
            Some(i) => from <= i < types.len() && types[i].name == name && forall|k: int|
                from <= k < i ==> (#[trigger] types[k]).name != name,
            None => forall|k: int| from <= k < types.len() ==> (#[trigger] types[k]).name != name,
        },
    decreases types.len() - from,
{
    if from < types.len() && types[from].name != name {
        lemma_a_type_is_found_by_name(types, name, from + 1);
    }
}

/// The context at a place was entered from one function by another, by name.
pub open spec fn entered_from(
    a: AccumModel,
    s: SymbolsModel,
    i: int,
    from: Seq<char>,
    to: Seq<char>,
) -> bool {
    let (parent, func) = s.table.nodes[i];
    &&& parent != 0
    &&& a.stacks.contains_key((i + 1) as u32)
    &&& s.functions[s.table.nodes[parent - 1].1 - 1].name == from
    &&& s.functions[func - 1].name == to
}

/// How often the first `n` contexts were entered from one function by another.
pub open spec fn entries_from(
    a: AccumModel,
    s: SymbolsModel,
    n: nat,
    from: Seq<char>,
    to: Seq<char>,
) -> nat
    decreases n,
{
    if n == 0 {
        0
    } else {
        entries_from(a, s, (n - 1) as nat, from, to) + if entered_from(a, s, n - 1, from, to) {
            a.stacks[n as u32].count as nat
        } else {
            0
        }
    }
}

/// One of the first `n` contexts was entered from the one by the other.
pub open spec fn any_entered_from(
    a: AccumModel,
    s: SymbolsModel,
    n: nat,
    from: Seq<char>,
    to: Seq<char>,
) -> bool
    decreases n,
{
    n > 0 && (any_entered_from(a, s, (n - 1) as nat, from, to) || entered_from(
        a,
        s,
        n - 1,
        from,
        to,
    ))
}

/// The list says so many calls from the one to the other.
pub open spec fn counts_pair(
    list: Seq<EdgeCountModel>,
    from: Seq<char>,
    to: Seq<char>,
    count: u64,
) -> bool {
    exists|k: int|
        0 <= k < list.len() && (#[trigger] list[k]).from == from && list[k].to == to
            && list[k].count == count
}

proof fn lemma_counting(
    list: Seq<EdgeCountModel>,
    pair: (Seq<char>, Seq<char>),
    count: u64,
    from: Seq<char>,
    to: Seq<char>,
    n: u64,
)
    requires
        testing::pairs_rise(list),
    ensures
        (from, to) != pair ==> counts_pair(testing::counting(list, pair, count), from, to, n)
            == counts_pair(list, from, to, n),
        counts_pair(testing::counting(list, pair, count), pair.0, pair.1, n) == (if exists|m: u64|
            #[trigger] counts_pair(list, pair.0, pair.1, m) {
            exists|m: u64|
                #[trigger] counts_pair(list, pair.0, pair.1, m) && n == crate::quantity::capped(
                    m,
                    count,
                )
        } else {
            n == count
        }),
{
    let at = testing::pair_place(list, pair, 0);
    testing::lemma_pair_place(list, pair, 0);
    let after = testing::counting(list, pair, count);
    let hit = at < list.len() && testing::pair_of(list[at]) == pair;
    // The pair stands nowhere else.
    assert forall|k: int| 0 <= k < list.len() && testing::pair_of(#[trigger] list[k])
        == pair implies hit && k == at by {
        testing::lemma_pairs_compare(pair, pair, pair);
        crate::text::lemma_precedes_irreflexive(pair.0);
        crate::text::lemma_precedes_irreflexive(pair.1);
        if k < at {
            assert(testing::pair_precedes(testing::pair_of(list[k]), pair));
        } else if k > at {
            assert(testing::pair_precedes(testing::pair_of(list[at]), testing::pair_of(list[k])));
        }
    }
    if hit {
        assert(counts_pair(list, pair.0, pair.1, list[at].count));
        assert(after[at].from == pair.0);
    } else {
        assert(after[at] == (EdgeCountModel { from: pair.0, to: pair.1, count }));
    }
    assert forall|x: Seq<char>, y: Seq<char>, c: u64| (x, y) != pair implies #[trigger] counts_pair(
        after,
        x,
        y,
        c,
    ) == counts_pair(list, x, y, c) by {
        if counts_pair(after, x, y, c) {
            let k = choose|k: int|
                0 <= k < after.len() && (#[trigger] after[k]).from == x && after[k].to == y
                    && after[k].count == c;
            let o = if hit || k < at {
                k
            } else {
                k - 1
            };
            assert(after[k] == list[o]);
        }
        if counts_pair(list, x, y, c) {
            let k = choose|k: int|
                0 <= k < list.len() && (#[trigger] list[k]).from == x && list[k].to == y
                    && list[k].count == c;
            let o = if hit || k < at {
                k
            } else {
                k + 1
            };
            assert(after[o] == list[k]);
        }
    }
    if counts_pair(after, pair.0, pair.1, n) {
        let k = choose|k: int|
            0 <= k < after.len() && (#[trigger] after[k]).from == pair.0 && after[k].to == pair.1
                && after[k].count == n;
        if k != at {
            let o = if hit || k < at {
                k
            } else {
                k - 1
            };
            assert(after[k] == list[o]);
            assert(testing::pair_of(list[o]) == pair);
        }
    }
    if exists|m: u64| #[trigger] counts_pair(list, pair.0, pair.1, m) {
        let m = choose|m: u64| #[trigger] counts_pair(list, pair.0, pair.1, m);
        let k = choose|k: int|
            0 <= k < list.len() && (#[trigger] list[k]).from == pair.0 && list[k].to == pair.1
                && list[k].count == m;
        assert(testing::pair_of(list[k]) == pair);
        assert(hit);
    }
}

/// Edges read off the tree add up by name: a pair is listed where some context
/// was entered from the one function by the other, with how often all such
/// contexts were entered together, and from the caller to the callee.
pub proof fn lemma_edges_by_name_add_up(
    a: AccumModel,
    s: SymbolsModel,
    n: nat,
    from: Seq<char>,
    to: Seq<char>,
    count: u64,
)
    requires
        entries_from(a, s, n, from, to) <= u64::MAX,
    ensures
        counts_pair(testing::edges_among(a, s, n), from, to, count) <==> any_entered_from(
            a,
            s,
            n,
            from,
            to,
        ) && count == entries_from(a, s, n, from, to),
        !any_entered_from(a, s, n, from, to) ==> entries_from(a, s, n, from, to) == 0,
    decreases n,
{
    if n > 0 {
        let m = (n - 1) as nat;
        let before = testing::edges_among(a, s, m);
        let sum = entries_from(a, s, m, from, to) as u64;
        testing::lemma_edges_are_listed_once(a, s, m);
        lemma_edges_by_name_add_up(a, s, m, from, to, count);
        lemma_edges_by_name_add_up(a, s, m, from, to, sum);
        if let Some((pair, c)) = testing::edge_at(a, s, n - 1) {
            lemma_counting(before, pair, c, from, to, count);
            if pair == (from, to) {
                assert(entered_from(a, s, n - 1, from, to));
                assert forall|x: u64| #[trigger] counts_pair(before, from, to, x) implies x
                    == sum by {
                    lemma_edges_by_name_add_up(a, s, m, from, to, x);
                }
            }
        }
    }
}

/// A chain leads from the outermost function down: it ends in the context's own,
/// and what comes before is the chain of what the context hangs off. The root has
/// none.
pub proof fn lemma_a_chain_leads_down_to_its_context(s: SymbolsModel, id: u32)
    requires
        s.wf(),
        id <= s.table.nodes.len(),
    ensures
        id == 0 ==> testing::chain(s, id).len() == 0,
        id > 0 ==> {
            let (parent, func) = s.table.nodes[id - 1];
            let (chain, above) = (testing::chain(s, id), testing::chain(s, parent));
            &&& chain.len() == above.len() + 1
            &&& chain.last() == s.functions[func - 1].name
            &&& chain.drop_last() == above
        },
{
    if id > 0 {
        let (parent, func) = s.table.nodes[id - 1];
        assert(parent <= id - 1);
        assert(testing::chain(s, id).drop_last() =~= testing::chain(s, parent));
    }
}

/// The deepest chain is as long as the longest there is.
pub proof fn lemma_the_deepest_chain_is_the_longest(s: SymbolsModel, n: nat)
    requires
        n <= u32::MAX,
    ensures
        forall|id: u32|
            1 <= id <= n ==> (#[trigger] testing::chain(s, id)).len() <= testing::deepest_among(
                s,
                n,
            ),
        testing::deepest_among(s, n) > 0 ==> exists|id: u32|
            1 <= id <= n && (#[trigger] testing::chain(s, id)).len() == testing::deepest_among(
                s,
                n,
            ),
    decreases n,
{
    if n > 0 {
        let m = (n - 1) as nat;
        lemma_the_deepest_chain_is_the_longest(s, m);
        let here = testing::chain(s, n as u32).len();
        if here <= testing::deepest_among(s, m) && testing::deepest_among(s, n) > 0 {
            let id = choose|id: u32|
                1 <= id <= m && (#[trigger] testing::chain(s, id)).len() == testing::deepest_among(
                    s,
                    m,
                );
            assert(testing::chain(s, id).len() == testing::deepest_among(s, n));
        }
    }
}

/// What every thread counted on an edge, together.
pub open spec fn counted_by_all(threads: Seq<AccumModel>, pair: (u32, u32)) -> nat
    decreases threads.len(),
{
    if threads.len() == 0 {
        0
    } else {
        counted_by_all(threads.drop_last(), pair) + if threads.last().edges.contains_key(pair) {
            threads.last().edges[pair] as nat
        } else {
            0
        }
    }
}

/// What every thread counted and spent in a context, together.
pub open spec fn shared_by_all(threads: Seq<AccumModel>, path: u32) -> (nat, nat)
    decreases threads.len(),
{
    if threads.len() == 0 {
        (0, 0)
    } else {
        let before = shared_by_all(threads.drop_last(), path);
        if threads.last().stacks.contains_key(path) {
            let more = threads.last().stacks[path];
            (before.0 + more.count as nat, before.1 + more.self_ns as nat)
        } else {
            before
        }
    }
}

/// Draining adds up what the threads measured: on every edge and in every
/// context, the counts and times of all of them.
pub proof fn lemma_draining_adds_up(threads: Seq<AccumModel>, pair: (u32, u32), path: u32)
    requires
        counted_by_all(threads, pair) <= u64::MAX,
        shared_by_all(threads, path).0 <= u64::MAX,
        shared_by_all(threads, path).1 <= u64::MAX,
    ensures
        accum::count_of(accum::drained(threads).edges, pair) == counted_by_all(threads, pair),
        accum::share_of(accum::drained(threads).stacks, path).count == shared_by_all(
            threads,
            path,
        ).0,
        accum::share_of(accum::drained(threads).stacks, path).self_ns == shared_by_all(
            threads,
            path,
        ).1,
    decreases threads.len(),
{
    if threads.len() > 0 {
        lemma_draining_adds_up(threads.drop_last(), pair, path);
    }
}

} // verus!
