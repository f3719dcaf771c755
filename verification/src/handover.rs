//! What an emitter's names mean to the daemon that hears them.
use vstd::prelude::*;

use crate::accum::AccumModel;
use crate::bridge;
use crate::bridge::{ReportModel, StreamModel};
use crate::emit;
use crate::ordered;
use crate::proto::{Event, Frame, Register};
use crate::store::Ledger;
use crate::symbols;
use crate::symbols::SymbolsModel;

verus! {

/// What the daemon knows once it has heard `rs`.
pub open spec fn hearing(l: Ledger, rs: Seq<Register>) -> Ledger
    decreases rs.len(),
{
    if rs.len() == 0 {
        l
    } else {
        hearing(l, rs.drop_last()).registering(rs.last())
    }
}

/// The daemon has heard so many of each kind of the emitter's names, and every
/// context it knows is the emitter's own.
pub open spec fn caught_up(
    l: Ledger,
    s: SymbolsModel,
    functions: int,
    types: int,
    paths: int,
) -> bool {
    &&& forall|id: u32| 1 <= id <= functions ==> #[trigger] l.functions.contains_key(id)
    &&& forall|id: u32| 1 <= id <= types ==> #[trigger] l.types.contains_key(id)
    &&& forall|id: u32| 1 <= id <= paths ==> #[trigger] l.paths.contains_key(id)
    &&& forall|id: u32| #[trigger]
        l.paths.contains_key(id) ==> 1 <= id <= s.table.nodes.len() && (
            l.paths[id].parent,
            l.paths[id].func,
        ) == s.table.nodes[id - 1]
}

/// The smaller of two, and no less than nothing.
spec fn up_to(n: int, most: int) -> int {
    if n < 0 {
        0
    } else if n < most {
        n
    } else {
        most
    }
}

proof fn lemma_no_prefix_is_refused(
    l: Ledger,
    s: SymbolsModel,
    rs: Seq<Register>,
    functions: int,
    types: int,
    paths: int,
    k: int,
)
    requires
        s.wf(),
        0 <= functions <= s.functions.len(),
        0 <= types <= s.types.len(),
        0 <= paths <= s.table.nodes.len(),
        caught_up(l, s, functions, types, paths),
        symbols::names_unsent(rs, s, functions, types, paths),
        0 <= k <= rs.len(),
    ensures
        ({
            let (f, t) = s.names_due(functions, types);
            let p = s.contexts_due(functions, types, paths);
            &&& caught_up(
                hearing(l, rs.take(k)),
                s,
                functions + up_to(k, f),
                types + up_to(k - f, t),
                paths + up_to(k - f - t, p),
            )
            &&& k < rs.len() ==> !hearing(l, rs.take(k)).refuses(rs[k])
        }),
    decreases k,
{
    let (f, t) = s.names_due(functions, types);
    let p = s.contexts_due(functions, types, paths);
    let here = hearing(l, rs.take(k));
    if k > 0 {
        lemma_no_prefix_is_refused(l, s, rs, functions, types, paths, k - 1);
        assert(rs.take(k).drop_last() =~= rs.take(k - 1));
        let r = rs[k - 1];
        let before = hearing(l, rs.take(k - 1));
        assert(rs.take(k).last() == r);
        assert(here == before.registering(r));
        assert(!before.refuses(r));
        if k - 1 < f {
            assert(symbols::names_function(
                r,
                functions + (k - 1) + 1,
                s.functions[functions + (k - 1)],
            ));
        } else if k - 1 < f + t {
            assert(symbols::names_type(
                r,
                types + (k - 1 - f) + 1,
                s.types[types + (k - 1 - f)],
            ));
        } else {
            assert(symbols::names_context(
                r,
                paths + (k - 1 - f - t) + 1,
                s.table.nodes[paths + (k - 1 - f - t)],
            ));
        }
    } else {
        assert(rs.take(0) =~= Seq::<Register>::empty());
    }
    if k < rs.len() {
        if k < f {
            assert(symbols::names_function(
                rs[k],
                functions + k + 1,
                s.functions[functions + k],
            ));
        } else if k < f + t {
            assert(symbols::names_type(rs[k], types + (k - f) + 1, s.types[types + (k - f)]));
        } else {
            let at = paths + (k - f - t);
            assert(symbols::names_context(rs[k], at + 1, s.table.nodes[at]));
            let node = s.table.nodes[at];
            assert(node.0 <= at);
            assert(here.functions.contains_key(node.1));
            if node.0 != 0 {
                assert(here.paths.contains_key(node.0));
            }
        }
    }
}

/// The daemon refuses none of an emitter's registrations: a frame never names a
/// context before the function it stands for or the context it extends, and
/// sending every name again after a reconnect contradicts nothing. Afterwards
/// the daemon has heard as much more of each kind as the frame held.
pub proof fn lemma_an_emitters_names_are_never_refused(
    l: Ledger,
    s: SymbolsModel,
    rs: Seq<Register>,
    functions: int,
    types: int,
    paths: int,
)
    requires
        s.wf(),
        0 <= functions <= s.functions.len(),
        0 <= types <= s.types.len(),
        0 <= paths <= s.table.nodes.len(),
        caught_up(l, s, functions, types, paths),
        symbols::names_unsent(rs, s, functions, types, paths),
    ensures
        forall|k: int| 0 <= k < rs.len() ==> !hearing(l, rs.take(k)).refuses(#[trigger] rs[k]),
        caught_up(
            hearing(l, rs),
            s,
            functions + s.names_due(functions, types).0,
            types + s.names_due(functions, types).1,
            paths + s.contexts_due(functions, types, paths),
        ),
{
    assert forall|k: int| 0 <= k < rs.len() implies !hearing(l, rs.take(k)).refuses(
        #[trigger] rs[k],
    ) by {
        lemma_no_prefix_is_refused(l, s, rs, functions, types, paths, k);
    }
    lemma_no_prefix_is_refused(l, s, rs, functions, types, paths, rs.len() as int);
    assert(rs.take(rs.len() as int) =~= rs);
}

/// A new listener that is sent everything from the start is caught up with
/// nothing, and so refuses nothing.
pub proof fn lemma_a_fresh_daemon_is_caught_up_with_nothing(s: SymbolsModel)
    ensures
        caught_up(Ledger::blank(), s, 0, 0, 0),
{
}

/// Everything measured was measured of something the emitter has named.
pub open spec fn names_everything(s: SymbolsModel, a: AccumModel) -> bool {
    &&& forall|f: u32| #[trigger] a.calls.contains_key(f) ==> 1 <= f <= s.functions.len()
    &&& forall|p: (u32, u32)| #[trigger]
        a.edges.contains_key(p) ==> 1 <= p.0 <= s.functions.len() && 1 <= p.1
            <= s.functions.len()
    &&& forall|p: u32| #[trigger] a.stacks.contains_key(p) ==> 1 <= p <= s.table.nodes.len()
}

/// A daemon that has heard every name understands every event of a window: none
/// is dropped for an id it does not know.
pub proof fn lemma_a_caught_up_daemon_knows_every_event(
    l: Ledger,
    s: SymbolsModel,
    a: AccumModel,
    es: Seq<Event>,
)
    requires
        s.types.len() <= u32::MAX,
        caught_up(
            l,
            s,
            s.functions.len() as int,
            s.types.len() as int,
            s.table.nodes.len() as int,
        ),
        names_everything(s, a),
        emit::reports_all(es, a, s),
    ensures
        forall|i: int| 0 <= i < es.len() ==> l.knows(#[trigger] es[i]),
{
    let calls = ordered::rising_u32(a.calls.dom());
    let edges = ordered::rising_pairs(a.edges.dom());
    let stacks = ordered::rising_u32(a.stacks.dom());
    let (c, e, k) = (calls.len() as int, edges.len() as int, stacks.len() as int);
    ordered::lemma_listed_u32(a.calls.dom());
    ordered::lemma_listed_pairs(a.edges.dom());
    ordered::lemma_listed_u32(a.stacks.dom());
    assert forall|i: int| 0 <= i < es.len() implies l.knows(#[trigger] es[i]) by {
        if i < c {
            assert(emit::reports_calls(es[i], calls[i], a.calls[calls[i]]));
            assert(calls.contains(calls[i]));
        } else if i < c + e {
            assert(emit::reports_edge(es[i], edges[i - c], a.edges[edges[i - c]]));
            assert(edges.contains(edges[i - c]));
        } else if i < c + e + k {
            assert(emit::reports_stack(es[i], stacks[i - c - e], a.stacks[stacks[i - c - e]]));
            assert(stacks.contains(stacks[i - c - e]));
        } else {
            assert(emit::reports_census(es[i], i - c - e - k + 1, s.types[i - c - e - k]));
        }
    }
}

/// A registration binds the function id.
pub open spec fn binds_function(r: Register, f: u32) -> bool {
    r matches Register::Function { id, .. } && id.0 == f
}

proof fn lemma_a_function_heard_of_is_known(l: Ledger, rs: Seq<Register>, f: u32)
    requires
        l.functions.contains_key(f) || exists|i: int|
            0 <= i < rs.len() && binds_function(#[trigger] rs[i], f),
    ensures
        hearing(l, rs).functions.contains_key(f),
    decreases rs.len(),
{
    if rs.len() > 0 {
        let front = rs.drop_last();
        if !binds_function(rs.last(), f) {
            if !l.functions.contains_key(f) {
                let i = choose|i: int| 0 <= i < rs.len() && binds_function(#[trigger] rs[i], f);
                assert(front[i] == rs[i]);
            }
            lemma_a_function_heard_of_is_known(l, front, f);
        }
    }
}

/// The daemon understands everything a bridge says: no event names a function
/// that the same frame or an earlier one has not registered, and afterwards the
/// daemon again knows every function the bridge has readings of.
pub proof fn lemma_a_bridged_frame_is_understood(
    l: Ledger,
    stream: StreamModel,
    report: ReportModel,
    totals: Seq<Option<u64>>,
    frame: Frame,
)
    requires
        forall|f: u32| #[trigger]
            stream.readings.contains_key(f) ==> l.functions.contains_key(f),
        stream.implies_frame(report, totals, frame),
    ensures
        forall|i: int|
            0 <= i < frame.events@.len() ==> hearing(l, frame.registers@).knows(
                #[trigger] frame.events@[i],
            ),
        forall|f: u32| #[trigger]
            stream.absorbing(report, totals).readings.contains_key(f) ==> hearing(
                l,
                frame.registers@,
            ).functions.contains_key(f),
{
    let folded = bridge::folding(stream.readings, report.data, totals);
    let rs = frame.registers@;
    bridge::lemma_functions_are_registered_once_and_first(stream.readings, report.data, totals);
    assert forall|f: u32| #[trigger] folded.readings.contains_key(f) implies hearing(
        l,
        rs,
    ).functions.contains_key(f) by {
        if !stream.readings.contains_key(f) {
            assert(bridge::names_id(folded.named, f));
            let i = choose|i: int|
                0 <= i < folded.named.len() && (#[trigger] folded.named[i]).id == f;
            assert(bridge::names(rs[i], folded.named[i]));
            assert(binds_function(rs[i], f));
        }
        lemma_a_function_heard_of_is_known(l, rs, f);
    }
    assert forall|i: int| 0 <= i < frame.events@.len() implies hearing(l, rs).knows(
        #[trigger] frame.events@[i],
    ) by {
        assert(bridge::reports(frame.events@[i], folded.moved[i]));
        let f = folded.moved[i].id;
        assert(folded.readings.contains_key(f));
    }
}

} // verus!
