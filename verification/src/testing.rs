//! Reading a probe's own state from inside the measured process.
//!
//! Everything here leaves what it reads in place, so a test observing it does
//! not steal another test's data.
use vstd::prelude::*;

use crate::accum;
use crate::accum::{Accum, AccumModel, Samples, SamplesModel};
use crate::calls::ThreadState;
use crate::census;
use crate::dist;
use crate::ordered;
use crate::quantity;
use crate::ring;
use crate::symbols;
use crate::symbols::{Symbols, SymbolsModel};
use crate::text;

verus! {

broadcast use crate::ordered::group_sorted_maps;

/// The name of a function.
pub open spec fn name_of(s: SymbolsModel, func: u32) -> Seq<char> {
    s.functions[func - 1].name
}

/// How often one pair of functions was recorded, by name.
#[derive(Debug, PartialEq, Eq)]
pub struct EdgeCount {
    pub from: String,
    pub to: String,
    pub count: u64,
}

/// What an [`EdgeCount`] says.
#[verifier::ext_equal]
pub struct EdgeCountModel {
    pub from: Seq<char>,
    pub to: Seq<char>,
    pub count: u64,
}

impl View for EdgeCount {
    type V = EdgeCountModel;

    open spec fn view(&self) -> EdgeCountModel {
        EdgeCountModel { from: self.from@, to: self.to@, count: self.count }
    }
}

/// The order pairs are listed in: by caller, then by callee.
pub open spec fn pair_precedes(
    a: (Seq<char>, Seq<char>),
    b: (Seq<char>, Seq<char>),
) -> bool {
    text::precedes(a.0, b.0) || (a.0 == b.0 && text::precedes(a.1, b.1))
}

/// The pair of an entry.
pub open spec fn pair_of(e: EdgeCountModel) -> (Seq<char>, Seq<char>) {
    (e.from, e.to)
}

/// The first place, from `at` on, whose pair does not precede `pair`.
pub open spec fn pair_place(
    list: Seq<EdgeCountModel>,
    pair: (Seq<char>, Seq<char>),
    at: int,
) -> int
    decreases list.len() - at,
{
    if at < 0 || at >= list.len() {
        list.len() as int
    } else if pair_precedes(pair_of(list[at]), pair) {
        pair_place(list, pair, at + 1)
    } else {
        at
    }
}

/// A list of pairs with more counted on one of them.
pub open spec fn counting(
    list: Seq<EdgeCountModel>,
    pair: (Seq<char>, Seq<char>),
    count: u64,
) -> Seq<EdgeCountModel> {
    let at = pair_place(list, pair, 0);
    if at < list.len() && pair_of(list[at]) == pair {
        list.update(
            at,
            EdgeCountModel { count: quantity::capped(list[at].count, count), ..list[at] },
        )
    } else {
        list.insert(at, EdgeCountModel { from: pair.0, to: pair.1, count })
    }
}

/// The pair a context reads off the call tree, once something ran through it.
pub open spec fn edge_at(a: AccumModel, s: SymbolsModel, i: int) -> Option<(
    (Seq<char>, Seq<char>),
    u64,
)> {
    let (parent, func) = s.table.nodes[i];
    if parent != 0 && a.stacks.contains_key((i + 1) as u32) {
        let caller = s.table.nodes[parent - 1].1;
        Some(((name_of(s, caller), name_of(s, func)), a.stacks[(i + 1) as u32].count))
    } else {
        None
    }
}

/// Every pair the first `n` contexts read off the call tree: a context names a
/// function and the context that reaches it, so the pair is already there and
/// its weight is how often that context was entered.
pub open spec fn edges_among(a: AccumModel, s: SymbolsModel, n: nat) -> Seq<EdgeCountModel>
    decreases n,
{
    if n == 0 {
        Seq::empty()
    } else {
        let before = edges_among(a, s, (n - 1) as nat);
        match edge_at(a, s, n - 1) {
            Some((pair, count)) => counting(before, pair, count),
            None => before,
        }
    }
}

/// Every pair is listed once, in order.
pub open spec fn pairs_rise(list: Seq<EdgeCountModel>) -> bool {
    forall|i: int, j: int|
        0 <= i < j < list.len() ==> pair_precedes(
            pair_of(#[trigger] list[i]),
            pair_of(#[trigger] list[j]),
        )
}

pub(crate) proof fn lemma_pair_place(list: Seq<EdgeCountModel>, pair: (Seq<char>, Seq<char>), at: int)
    requires
        0 <= at <= list.len(),
    ensures
        at <= pair_place(list, pair, at) <= list.len(),
        forall|i: int|
            at <= i < pair_place(list, pair, at) ==> pair_precedes(
                pair_of(#[trigger] list[i]),
                pair,
            ),
        pair_place(list, pair, at) < list.len() ==> !pair_precedes(
            pair_of(list[pair_place(list, pair, at)]),
            pair,
        ),
    decreases list.len() - at,
{
    if at < list.len() && pair_precedes(pair_of(list[at]), pair) {
        lemma_pair_place(list, pair, at + 1);
    }
}

pub(crate) proof fn lemma_pairs_compare(
    a: (Seq<char>, Seq<char>),
    b: (Seq<char>, Seq<char>),
    c: (Seq<char>, Seq<char>),
)
    ensures
        pair_precedes(a, b) || pair_precedes(b, a) || a == b,
        pair_precedes(a, b) && pair_precedes(b, c) ==> pair_precedes(a, c),
{
    text::lemma_precedes_total(a.0, b.0);
    text::lemma_precedes_total(a.1, b.1);
    if text::precedes(a.0, b.0) && text::precedes(b.0, c.0) {
        text::lemma_precedes_transitive(a.0, b.0, c.0);
    }
    if text::precedes(a.1, b.1) && text::precedes(b.1, c.1) {
        text::lemma_precedes_transitive(a.1, b.1, c.1);
    }
}

proof fn lemma_counting_keeps_pairs_rising(
    list: Seq<EdgeCountModel>,
    pair: (Seq<char>, Seq<char>),
    count: u64,
)
    requires
        pairs_rise(list),
    ensures
        pairs_rise(counting(list, pair, count)),
{
    let at = pair_place(list, pair, 0);
    lemma_pair_place(list, pair, 0);
    let after = counting(list, pair, count);
    if !(at < list.len() && pair_of(list[at]) == pair) {
        let new = EdgeCountModel { from: pair.0, to: pair.1, count };
        assert forall|i: int, j: int| 0 <= i < j < after.len() implies pair_precedes(
            pair_of(#[trigger] after[i]),
            pair_of(#[trigger] after[j]),
        ) by {
            if i == at {
                assert(after[i] == new);
                assert(after[j] == list[j - 1]);
                lemma_pairs_compare(pair_of(list[at]), pair, pair);
                if j - 1 > at {
                    assert(pair_precedes(pair_of(list[at]), pair_of(list[j - 1])));
                    lemma_pairs_compare(pair, pair_of(list[at]), pair_of(list[j - 1]));
                }
            } else if j == at {
                assert(after[i] == list[i]);
            } else {
                let (x, y) = (
                    if i < at {
                        i
                    } else {
                        i - 1
                    },
                    if j < at {
                        j
                    } else {
                        j - 1
                    },
                );
                assert(after[i] == list[x]);
                assert(after[j] == list[y]);
                assert(pair_precedes(pair_of(list[x]), pair_of(list[y])));
            }
        }
    }
}

/// Every pair is listed once, in order, however many contexts it was read off.
pub proof fn lemma_edges_are_listed_once(a: AccumModel, s: SymbolsModel, n: nat)
    ensures
        pairs_rise(edges_among(a, s, n)),
    decreases n,
{
    if n > 0 {
        lemma_edges_are_listed_once(a, s, (n - 1) as nat);
        if let Some((pair, count)) = edge_at(a, s, n - 1) {
            lemma_counting_keeps_pairs_rising(edges_among(a, s, (n - 1) as nat), pair, count);
        }
    }
}

spec fn edge_models(list: Seq<EdgeCount>) -> Seq<EdgeCountModel> {
    list.map_values(|e: EdgeCount| e@)
}

fn count_edge(list: &mut Vec<EdgeCount>, from: &str, to: &str, count: u64)
    ensures
        edge_models(final(list)@) == counting(edge_models(old(list)@), (from@, to@), count),
{
    let ghost before = edge_models(list@);
    let ghost pair = (from@, to@);
    let mut at: usize = 0;
    while at < list.len() && (text::sorts_before(list[at].from.as_str(), from) || (text::same(
        list[at].from.as_str(),
        from,
    ) && text::sorts_before(list[at].to.as_str(), to)))
        invariant
            before == edge_models(list@),
            pair == (from@, to@),
            at <= list@.len(),
            pair_place(before, pair, 0) == pair_place(before, pair, at as int),
        decreases list@.len() - at,
    {
        proof {
            assert(before[at as int] == list@[at as int]@);
        }
        at = at + 1;
    }
    proof {
        assert(at < list@.len() ==> before[at as int] == list@[at as int]@);
    }
    if at < list.len() && text::same(list[at].from.as_str(), from) && text::same(
        list[at].to.as_str(),
        to,
    ) {
        let entry = EdgeCount {
            from: list[at].from.clone(),
            to: list[at].to.clone(),
            count: list[at].count.saturating_add(count),
        };
        list.set(at, entry);
    } else {
        let entry = EdgeCount { from: from.to_owned(), to: to.to_owned(), count };
        list.insert(at, entry);
    }
    proof {
        assert(edge_models(list@) =~= counting(before, pair, count));
    }
}

/// How many times each pair was recorded, by name.
pub fn edge_counts(accum: &Accum, symbols: &Symbols) -> (r: Vec<EdgeCount>)
    requires
        symbols.wf(),
    ensures
        r@.map_values(|e: EdgeCount| e@) == edges_among(
            accum@,
            symbols@,
            symbols@.table.nodes.len(),
        ),
{
    let ghost s = symbols@;
    proof {
        symbols.lemma_sound();
    }
    let nodes = symbols.path_nodes();
    let mut counts: Vec<EdgeCount> = Vec::new();
    proof {
        assert(edge_models(counts@) =~= edges_among(accum@, s, 0));
    }
    for n in 0..nodes.len()
        invariant
            s == symbols@,
            s.wf(),
            nodes@.len() == s.table.nodes.len(),
            forall|i: int|
                0 <= i < nodes@.len() ==> #[trigger] nodes@[i] == (
                    (i + 1) as u32,
                    s.table.nodes[i].0,
                    s.table.nodes[i].1,
                ),
            edge_models(counts@) == edges_among(accum@, s, n as nat),
    {
        let (id, parent, func) = nodes[n];
        proof {
            assert(s.table.nodes[n as int].0 <= n);
        }
        if parent != 0 {
            if let Some(stat) = accum.stacks.get(&id) {
                let (_, _, caller) = nodes[parent as usize - 1];
                proof {
                    assert(nodes@[parent - 1].2 == s.table.nodes[parent - 1].1);
                    assert(1 <= s.table.nodes[parent - 1].1 <= s.functions.len());
                    assert(1 <= s.table.nodes[n as int].1 <= s.functions.len());
                }
                if let Some(from) = symbols.function_name(caller) {
                    if let Some(to) = symbols.function_name(func) {
                        count_edge(&mut counts, from, to, stat.count);
                    }
                }
            }
        }
    }
    counts
}

/// Every recorded caller/callee pair, by name.
pub fn edges(accum: &Accum, symbols: &Symbols) -> (r: Vec<(String, String)>)
    requires
        symbols.wf(),
    ensures
        r@.map_values(|p: (String, String)| (p.0@, p.1@)) == edges_among(
            accum@,
            symbols@,
            symbols@.table.nodes.len(),
        ).map_values(|e: EdgeCountModel| pair_of(e)),
{
    let counts = edge_counts(accum, symbols);
    let ghost all = edges_among(accum@, symbols@, symbols@.table.nodes.len());
    let mut pairs: Vec<(String, String)> = Vec::new();
    for n in 0..counts.len()
        invariant
            all == edge_models(counts@),
            pairs@.len() == n,
            forall|i: int|
                0 <= i < n ==> ((#[trigger] pairs@[i]).0@, pairs@[i].1@) == pair_of(all[i]),
    {
        proof {
            assert(all[n as int] == counts@[n as int]@);
        }
        pairs.push((counts[n].from.clone(), counts[n].to.clone()));
    }
    proof {
        assert(pairs@.map_values(|p: (String, String)| (p.0@, p.1@)) =~= all.map_values(
            |e: EdgeCountModel| pair_of(e),
        ));
    }
    pairs
}

/// The chain of names leading to one context, outermost first.
pub open spec fn chain(s: SymbolsModel, id: u32) -> Seq<Seq<char>>
    decreases id,
{
    if id == 0 || id > s.table.nodes.len() || s.table.nodes[id - 1].0 >= id {
        Seq::empty()
    } else {
        let (parent, func) = s.table.nodes[id - 1];
        chain(s, parent).push(name_of(s, func))
    }
}

/// The names of a chain.
pub open spec fn names(chain: Seq<String>) -> Seq<Seq<char>> {
    chain.map_values(|n: String| n@)
}

fn chain_of(symbols: &Symbols, nodes: &Vec<(u32, u32, u32)>, id: u32) -> (r: Vec<String>)
    requires
        symbols.wf(),
        nodes@.len() == symbols@.table.nodes.len(),
        forall|i: int|
            0 <= i < nodes@.len() ==> #[trigger] nodes@[i] == (
                (i + 1) as u32,
                symbols@.table.nodes[i].0,
                symbols@.table.nodes[i].1,
            ),
        id <= nodes@.len(),
    ensures
        names(r@) == chain(symbols@, id),
{
    let ghost s = symbols@;
    proof {
        symbols.lemma_sound();
    }
    let mut up: Vec<&'static str> = Vec::new();
    let mut at: u32 = id;
    let ghost whole = chain(s, id);
    proof {
        assert(whole =~= chain(s, at) + up@.map_values(|n: &'static str| n@).reverse());
    }
    while at != 0
        invariant
            s == symbols@,
            s.wf(),
            nodes@.len() == s.table.nodes.len(),
            forall|i: int|
                0 <= i < nodes@.len() ==> #[trigger] nodes@[i] == (
                    (i + 1) as u32,
                    s.table.nodes[i].0,
                    s.table.nodes[i].1,
                ),
            at <= nodes@.len(),
            whole == chain(s, at) + up@.map_values(|n: &'static str| n@).reverse(),
        decreases at,
    {
        let (_, parent, func) = nodes[at as usize - 1];
        let ghost before = up@.map_values(|n: &'static str| n@);
        proof {
            assert(nodes@[at - 1].1 == s.table.nodes[at - 1].0);
            assert(s.table.nodes[at - 1].0 <= at - 1);
            assert(1 <= s.table.nodes[at - 1].1 <= s.functions.len());
        }
        if let Some(name) = symbols.function_name(func) {
            up.push(name);
            proof {
                let after = up@.map_values(|n: &'static str| n@);
                assert(after =~= before.push(name@));
                assert(chain(s, at) == chain(s, parent).push(name@));
                assert(chain(s, at) + before.reverse() =~= chain(s, parent) + after.reverse());
            }
        }
        at = parent;
    }
    let mut chain: Vec<String> = Vec::new();
    let mut n: usize = up.len();
    let ghost ups = up@.map_values(|n: &'static str| n@);
    proof {
        assert(whole =~= ups.reverse());
    }
    while n > 0
        invariant
            n <= up@.len(),
            ups == up@.map_values(|n: &'static str| n@),
            chain@.len() == up@.len() - n,
            forall|i: int|
                0 <= i < chain@.len() ==> (#[trigger] chain@[i])@ == ups.reverse()[i],
        decreases n,
    {
        n = n - 1;
        chain.push(up[n].to_owned());
    }
    proof {
        assert(names(chain@) =~= whole);
    }
    chain
}

/// One calling context recorded so far.
#[derive(Debug, PartialEq, Eq)]
pub struct Stack {
    /// The function names from the outermost measured frame down.
    pub chain: Vec<String>,
    /// How many activations opened the context.
    pub calls: u64,
    /// How long they spent outside any measured callee.
    pub self_ns: u64,
}

/// What a [`Stack`] says.
#[verifier::ext_equal]
pub struct StackTrace {
    pub chain: Seq<Seq<char>>,
    pub calls: u64,
    pub self_ns: u64,
}

impl View for Stack {
    type V = StackTrace;

    open spec fn view(&self) -> StackTrace {
        StackTrace { chain: names(self.chain@), calls: self.calls, self_ns: self.self_ns }
    }
}

/// The order chains are listed in: by their outermost name, then by the next.
pub open spec fn chain_precedes(a: Seq<Seq<char>>, b: Seq<Seq<char>>) -> bool
    decreases a.len(),
{
    if b.len() == 0 {
        false
    } else if a.len() == 0 {
        true
    } else if a[0] != b[0] {
        text::precedes(a[0], b[0])
    } else {
        chain_precedes(a.skip(1), b.skip(1))
    }
}

/// The first place, from `at` on, whose chain does not precede `chain`.
pub open spec fn chain_place(list: Seq<StackTrace>, chain: Seq<Seq<char>>, at: int) -> int
    decreases list.len() - at,
{
    if at < 0 || at >= list.len() {
        list.len() as int
    } else if chain_precedes(list[at].chain, chain) {
        chain_place(list, chain, at + 1)
    } else {
        at
    }
}

/// A list of contexts with one more, which replaces one of the same chain.
pub open spec fn placing(list: Seq<StackTrace>, t: StackTrace) -> Seq<StackTrace> {
    let at = chain_place(list, t.chain, 0);
    if at < list.len() && list[at].chain == t.chain {
        list.update(at, t)
    } else {
        list.insert(at, t)
    }
}

/// Every context among the first `n` that something ran in, by chain.
pub open spec fn stacks_among(a: AccumModel, s: SymbolsModel, n: nat) -> Seq<StackTrace>
    decreases n,
{
    if n == 0 {
        Seq::empty()
    } else {
        let before = stacks_among(a, s, (n - 1) as nat);
        let id = n as u32;
        if a.stacks.contains_key(id) {
            placing(
                before,
                StackTrace {
                    chain: chain(s, id),
                    calls: a.stacks[id].count,
                    self_ns: a.stacks[id].self_ns,
                },
            )
        } else {
            before
        }
    }
}

/// Every chain is listed once, in order.
pub open spec fn chains_rise(list: Seq<StackTrace>) -> bool {
    forall|i: int, j: int|
        0 <= i < j < list.len() ==> chain_precedes(
            (#[trigger] list[i]).chain,
            (#[trigger] list[j]).chain,
        )
}

proof fn lemma_chains_compare(a: Seq<Seq<char>>, b: Seq<Seq<char>>)
    ensures
        chain_precedes(a, b) || chain_precedes(b, a) || a == b,
    decreases a.len(),
{
    if a.len() == 0 || b.len() == 0 {
        if a.len() == b.len() {
            assert(a =~= b);
        }
    } else if a[0] == b[0] {
        lemma_chains_compare(a.skip(1), b.skip(1));
        if a.skip(1) == b.skip(1) {
            assert(a =~= seq![a[0]] + a.skip(1));
            assert(b =~= seq![b[0]] + b.skip(1));
        }
    } else {
        text::lemma_precedes_total(a[0], b[0]);
    }
}

proof fn lemma_chains_order(a: Seq<Seq<char>>, b: Seq<Seq<char>>, c: Seq<Seq<char>>)
    requires
        chain_precedes(a, b),
        chain_precedes(b, c),
    ensures
        chain_precedes(a, c),
    decreases a.len(),
{
    if a.len() > 0 {
        if a[0] == b[0] {
            if b[0] == c[0] {
                lemma_chains_order(a.skip(1), b.skip(1), c.skip(1));
            }
        } else if b[0] != c[0] {
            text::lemma_precedes_transitive(a[0], b[0], c[0]);
            if a[0] == c[0] {
                text::lemma_precedes_irreflexive(a[0]);
            }
        }
    }
}

pub(crate) proof fn lemma_chain_place(list: Seq<StackTrace>, chain: Seq<Seq<char>>, at: int)
    requires
        0 <= at <= list.len(),
    ensures
        at <= chain_place(list, chain, at) <= list.len(),
        forall|i: int|
            at <= i < chain_place(list, chain, at) ==> chain_precedes(
                (#[trigger] list[i]).chain,
                chain,
            ),
        chain_place(list, chain, at) < list.len() ==> !chain_precedes(
            list[chain_place(list, chain, at)].chain,
            chain,
        ),
    decreases list.len() - at,
{
    if at < list.len() && chain_precedes(list[at].chain, chain) {
        lemma_chain_place(list, chain, at + 1);
    }
}

proof fn lemma_placing_keeps_chains_rising(list: Seq<StackTrace>, t: StackTrace)
    requires
        chains_rise(list),
    ensures
        chains_rise(placing(list, t)),
{
    let at = chain_place(list, t.chain, 0);
    lemma_chain_place(list, t.chain, 0);
    let after = placing(list, t);
    if at < list.len() && list[at].chain == t.chain {
        assert forall|i: int, j: int| 0 <= i < j < after.len() implies chain_precedes(
            (#[trigger] after[i]).chain,
            (#[trigger] after[j]).chain,
        ) by {
            assert(chain_precedes(list[i].chain, list[j].chain));
        }
    } else {
        assert forall|i: int, j: int| 0 <= i < j < after.len() implies chain_precedes(
            (#[trigger] after[i]).chain,
            (#[trigger] after[j]).chain,
        ) by {
            if i == at {
                assert(after[j] == list[j - 1]);
                lemma_chains_compare(list[at].chain, t.chain);
                if j - 1 > at {
                    assert(chain_precedes(list[at].chain, list[j - 1].chain));
                    lemma_chains_order(t.chain, list[at].chain, list[j - 1].chain);
                }
            } else if j == at {
                assert(after[i] == list[i]);
            } else {
                let (x, y) = (
                    if i < at {
                        i
                    } else {
                        i - 1
                    },
                    if j < at {
                        j
                    } else {
                        j - 1
                    },
                );
                assert(after[i] == list[x]);
                assert(after[j] == list[y]);
                assert(chain_precedes(list[x].chain, list[y].chain));
            }
        }
    }
}

/// Every chain is listed once, in order.
pub proof fn lemma_stacks_are_listed_once(a: AccumModel, s: SymbolsModel, n: nat)
    ensures
        chains_rise(stacks_among(a, s, n)),
    decreases n,
{
    if n > 0 {
        lemma_stacks_are_listed_once(a, s, (n - 1) as nat);
        let id = n as u32;
        if a.stacks.contains_key(id) {
            lemma_placing_keeps_chains_rising(
                stacks_among(a, s, (n - 1) as nat),
                StackTrace {
                    chain: chain(s, id),
                    calls: a.stacks[id].count,
                    self_ns: a.stacks[id].self_ns,
                },
            );
        }
    }
}

/// How two chains stand to each other.
#[derive(PartialEq, Eq, Structural)]
enum Standing {
    Before,
    Same,
    After,
}

fn compare_chains(a: &Vec<String>, b: &Vec<String>) -> (r: Standing)
    ensures
        match r {
            Standing::Before => chain_precedes(names(a@), names(b@)),
            Standing::Same => names(a@) == names(b@) && !chain_precedes(names(a@), names(b@)),
            Standing::After => !chain_precedes(names(a@), names(b@)) && names(a@) != names(b@),
        },
{
    let ghost (x, y) = (names(a@), names(b@));
    let mut i: usize = 0;
    proof {
        assert(x.skip(0) =~= x);
        assert(y.skip(0) =~= y);
    }
    while i < a.len() && i < b.len()
        invariant
            x == names(a@),
            y == names(b@),
            i <= x.len(),
            i <= y.len(),
            forall|k: int| 0 <= k < i ==> #[trigger] x[k] == y[k],
            chain_precedes(x, y) == chain_precedes(x.skip(i as int), y.skip(i as int)),
        decreases x.len() - i,
    {
        proof {
            assert(x[i as int] == a@[i as int]@);
            assert(y[i as int] == b@[i as int]@);
            assert(x.skip(i as int).skip(1) =~= x.skip(i + 1));
            assert(y.skip(i as int).skip(1) =~= y.skip(i + 1));
        }
        if !text::same(a[i].as_str(), b[i].as_str()) {
            if text::sorts_before(a[i].as_str(), b[i].as_str()) {
                return Standing::Before;
            }
            return Standing::After;
        }
        i = i + 1;
    }
    if i < b.len() {
        Standing::Before
    } else if i < a.len() {
        Standing::After
    } else {
        proof {
            assert(x =~= y);
        }
        Standing::Same
    }
}

spec fn traces(list: Seq<Stack>) -> Seq<StackTrace> {
    list.map_values(|s: Stack| s@)
}

fn place_stack(list: &mut Vec<Stack>, stack: Stack)
    ensures
        traces(final(list)@) == placing(traces(old(list)@), stack@),
{
    let ghost before = traces(list@);
    let ghost t = stack@;
    let mut at: usize = 0;
    let mut same = false;
    while at < list.len()
        invariant_except_break
            !same,
        invariant
            before == traces(list@),
            t == stack@,
            at <= list@.len(),
            chain_place(before, t.chain, 0) == chain_place(before, t.chain, at as int),
        ensures
            at <= list@.len(),
            chain_place(before, t.chain, 0) == at,
            same <==> at < list@.len() && before[at as int].chain == t.chain,
        decreases list@.len() - at,
    {
        proof {
            assert(before[at as int] == list@[at as int]@);
        }
        let standing = compare_chains(&list[at].chain, &stack.chain);
        if standing == Standing::Same {
            same = true;
            break;
        }
        if standing == Standing::After {
            break;
        }
        at = at + 1;
    }
    if same {
        list.set(at, stack);
    } else {
        list.insert(at, stack);
    }
    proof {
        assert(traces(list@) =~= placing(before, t));
    }
}

/// Every calling context recorded so far, keyed by the chain of function names
/// from the outermost measured frame down to the context itself.
pub fn stacks(accum: &Accum, symbols: &Symbols) -> (r: Vec<Stack>)
    requires
        symbols.wf(),
    ensures
        r@.map_values(|s: Stack| s@) == stacks_among(
            accum@,
            symbols@,
            symbols@.table.nodes.len(),
        ),
{
    let ghost s = symbols@;
    proof {
        symbols.lemma_sound();
    }
    let nodes = symbols.path_nodes();
    let mut list: Vec<Stack> = Vec::new();
    proof {
        assert(traces(list@) =~= stacks_among(accum@, s, 0));
    }
    for n in 0..nodes.len()
        invariant
            symbols.wf(),
            s == symbols@,
            s.wf(),
            nodes@.len() == s.table.nodes.len(),
            forall|i: int|
                0 <= i < nodes@.len() ==> #[trigger] nodes@[i] == (
                    (i + 1) as u32,
                    s.table.nodes[i].0,
                    s.table.nodes[i].1,
                ),
            traces(list@) == stacks_among(accum@, s, n as nat),
    {
        let (id, _, _) = nodes[n];
        if let Some(stat) = accum.stacks.get(&id) {
            let stack = Stack {
                chain: chain_of(symbols, &nodes, id),
                calls: stat.count,
                self_ns: stat.self_ns,
            };
            place_stack(&mut list, stack);
        }
    }
    list
}

/// How many distinct calling contexts this process has named.
///
/// The number a recursive function is allowed to add is what keeps a call
/// tree finite, so it is worth asserting on directly.
pub fn path_count(symbols: &Symbols) -> (r: usize)
    requires
        symbols.wf(),
    ensures
        r == symbols@.table.nodes.len(),
{
    symbols.path_nodes().len()
}

/// The length of the longest chain among the first `n` contexts.
pub open spec fn deepest_among(s: SymbolsModel, n: nat) -> nat
    decreases n,
{
    if n == 0 {
        0
    } else {
        let before = deepest_among(s, (n - 1) as nat);
        let here = chain(s, n as u32).len();
        if here > before {
            here
        } else {
            before
        }
    }
}

/// The deepest chain in the call tree.
pub fn deepest_chain(symbols: &Symbols) -> (r: usize)
    requires
        symbols.wf(),
    ensures
        r == deepest_among(symbols@, symbols@.table.nodes.len()),
{
    let ghost s = symbols@;
    proof {
        symbols.lemma_sound();
    }
    let nodes = symbols.path_nodes();
    let mut deepest: usize = 0;
    for n in 0..nodes.len()
        invariant
            symbols.wf(),
            s == symbols@,
            s.wf(),
            nodes@.len() == s.table.nodes.len(),
            forall|i: int|
                0 <= i < nodes@.len() ==> #[trigger] nodes@[i] == (
                    (i + 1) as u32,
                    s.table.nodes[i].0,
                    s.table.nodes[i].1,
                ),
            deepest == deepest_among(s, n as nat),
    {
        let (id, _, _) = nodes[n];
        let chain = chain_of(symbols, &nodes, id);
        proof {
            assert(chain@.len() == names(chain@).len());
        }
        if chain.len() > deepest {
            deepest = chain.len();
        }
    }
    deepest
}

/// Contexts refused because the table was full. Non-zero means the flame
/// graph is shallower than the program actually was.
pub fn paths_overflowed(symbols: &Symbols) -> (r: u64)
    ensures
        r == symbols@.table.overflowed,
{
    symbols.paths_overflowed()
}

/// Self time of one function over the first `n` contexts.
pub open spec fn self_among(a: AccumModel, s: SymbolsModel, func: u32, n: nat) -> nat
    decreases n,
{
    if n == 0 {
        0
    } else {
        let before = self_among(a, s, func, (n - 1) as nat);
        if s.table.nodes[n - 1].1 == func && a.stacks.contains_key(n as u32) {
            before + a.stacks[n as u32].self_ns as nat
        } else {
            before
        }
    }
}

/// Time spent in a function and outside any measured callee, summed over
/// every context it was reached through.
pub fn self_ns(accum: &Accum, symbols: &Symbols, name: &str) -> (r: u64)
    requires
        symbols.wf(),
    ensures
        r == match symbols::function_place(symbols@.functions, name@, 0) {
            Some(i) => dist::clamp64(
                self_among(
                    accum@,
                    symbols@,
                    (i + 1) as u32,
                    symbols@.table.nodes.len(),
                ),
            ),
            None => 0,
        },
{
    let id = match symbols.function_id_by_name(name) {
        Some(id) => id,
        None => {
            return 0;
        },
    };
    let ghost s = symbols@;
    let ghost a = accum@;
    proof {
        symbols.lemma_sound();
    }
    let nodes = symbols.path_nodes();
    let mut sum: u64 = 0;
    for n in 0..nodes.len()
        invariant
            a == accum@,
            nodes@.len() == s.table.nodes.len(),
            forall|i: int|
                0 <= i < nodes@.len() ==> #[trigger] nodes@[i] == (
                    (i + 1) as u32,
                    s.table.nodes[i].0,
                    s.table.nodes[i].1,
                ),
            sum == dist::clamp64(self_among(a, s, id.0, n as nat)),
    {
        let (path, _, func) = nodes[n];
        if func == id.0 {
            if let Some(stat) = accum.stacks.get(&path) {
                sum = sum.saturating_add(stat.self_ns);
            }
        }
    }
    sum
}

/// Closed calls of a function, by name. Zero for a function that has never run,
/// and zero for one that only ever ran as a recursive level of itself.
pub fn call_count(accum: &Accum, symbols: &Symbols, name: &str) -> (r: u64)
    requires
        symbols.wf(),
    ensures
        r == match symbols::function_place(symbols@.functions, name@, 0) {
            Some(i) => accum::calls_of(accum@.calls, (i + 1) as u32).count,
            None => 0,
        },
{
    match symbols.function_id_by_name(name) {
        Some(id) => match accum.calls.get(&id.0) {
            Some(stat) => stat.count,
            None => 0,
        },
        None => 0,
    }
}

/// So many copies of a value.
pub open spec fn copies(value: u64, n: nat) -> Seq<u64> {
    Seq::new(n, |i: int| value)
}

/// Durations as they were recorded, or the least each bucket stands for where
/// only buckets are left.
pub open spec fn durations(entries: Seq<(u16, u32)>) -> Seq<u64>
    decreases entries.len(),
{
    if entries.len() == 0 {
        Seq::empty()
    } else {
        let (i, n) = entries.last();
        durations(entries.drop_last()) + copies(dist::bucket_span(i).0, n as nat)
    }
}

/// The durations samples stand for.
pub open spec fn recorded(s: SamplesModel) -> Seq<u64> {
    match s {
        SamplesModel::Raw(v) => v,
        SamplesModel::Buckets(_) => durations(s.entries()),
    }
}

fn durations_of(samples: &Samples) -> (r: Vec<u64>)
    ensures
        r@ == recorded(samples@),
{
    match samples {
        Samples::Raw(v) => {
            let copy = v.clone();
            proof {
                assert(copy@ =~= v@);
            }
            copy
        },
        Samples::Buckets(m) => {
            let keys = ordered::keys_u16(m);
            let ghost entries = samples@.entries();
            let mut all: Vec<u64> = Vec::new();
            for n in 0..keys.len()
                invariant
                    ordered::lists_u16(keys@, m@.dom()),
                    entries == keys@.map_values(|i: u16| (i, m@[i])),
                    all@ == durations(entries.take(n as int)),
            {
                proof {
                    assert(keys@.contains(keys@[n as int]));
                    assert(entries.take(n + 1).drop_last() =~= entries.take(n as int));
                }
                let ghost before = all@;
                let (lo, _) = dist::bucket_range(keys[n]);
                let count: u32 = match m.get(&keys[n]) {
                    Some(c) => *c,
                    None => 0,
                };
                let mut k: u32 = 0;
                while k < count
                    invariant
                        k <= count,
                        all@ =~= before + copies(lo, k as nat),
                    decreases count - k,
                {
                    all.push(lo);
                    k = k + 1;
                }
            }
            proof {
                assert(entries.take(entries.len() as int) =~= entries);
            }
            all
        },
    }
}

/// Recorded durations for a function, in nanoseconds.
pub fn call_durations(accum: &Accum, symbols: &Symbols, name: &str) -> (r: Vec<u64>)
    requires
        symbols.wf(),
    ensures
        r@ == match symbols::function_place(symbols@.functions, name@, 0) {
            Some(i) => recorded(accum::calls_of(accum@.calls, (i + 1) as u32).ns),
            None => Seq::empty(),
        },
{
    match symbols.function_id_by_name(name) {
        Some(id) => match accum.calls.get(&id.0) {
            Some(stat) => durations_of(&stat.ns),
            None => Vec::new(),
        },
        None => Vec::new(),
    }
}

/// Live instances of a tracked type, by type name.
pub fn live(symbols: &Symbols, of: &str) -> (r: u64)
    ensures
        r == match symbols::type_place(symbols@.types, of@, 0) {
            Some(i) => symbols@.types[i].live,
            None => 0,
        },
{
    match symbols.type_place_by_name(of) {
        Some(at) => symbols.type_slot(at).live(),
        None => 0,
    }
}

/// The live-size histogram of a tracked type, sparse and sorted.
pub fn size_buckets(symbols: &Symbols, of: &str) -> (r: Vec<(u16, u32)>)
    ensures
        r@ == match symbols::type_place(symbols@.types, of@, 0) {
            Some(i) => symbols@.types[i].sizes(),
            None => Seq::empty(),
        },
{
    match symbols.type_place_by_name(of) {
        Some(at) => symbols.type_slot(at).size_buckets(),
        None => Vec::new(),
    }
}

/// Total footprint of a tracked type's live instances.
pub fn bytes(symbols: &Symbols, of: &str) -> (r: u64)
    ensures
        r == match symbols::type_place(symbols@.types, of@, 0) {
            Some(i) => dist::clamp64(dist::estimate(symbols@.types[i].sizes())),
            None => 0,
        },
{
    let sizes = size_buckets(symbols, of);
    census::bytes_from_buckets(&sizes)
}

/// Activations open on a thread. Zero unless a measured function is on its
/// stack right now.
pub fn open_activations(thread: &ThreadState) -> (r: usize)
    ensures
        r == thread@.stack.len(),
{
    thread.open_activations()
}

} // verus!
