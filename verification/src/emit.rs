//! Turning accumulators into frames.
//!
//! A window is drained whether or not anyone is listening, which keeps memory
//! flat while the program runs unobserved. While nobody is, the window is thrown
//! away, and the next one tries to connect again.
use vstd::prelude::*;
use vstd::string::*;

use crate::accum::{Accum, AccumModel, CallStatModel, SamplesModel, StackStat};
use crate::census;
use crate::census::SlotModel;
use crate::dist;
use crate::dist::Dist;
use crate::ordered;
use crate::proto::{
    Event, Frame, FunctionId, Hello, PathId, Register, TypeId, DEFAULT_WINDOW_MS,
};
use crate::symbols;
use crate::symbols::{Symbols, SymbolsModel};
use crate::text;

verus! {

broadcast use crate::ordered::group_sorted_maps;

/// The name the probe announces itself by.
pub const SOURCE: &'static str = "lightwatch-probe";

/// The window length the environment asks for, where it asks for one.
pub fn window_ms_from(raw: Option<&str>) -> (r: u32)
    ensures
        r > 0,
        r == match raw {
            Some(raw) => match text::number_up_to(raw@, u32::MAX as u64) {
                Some(ms) if ms > 0 => ms as u32,
                _ => DEFAULT_WINDOW_MS,
            },
            None => DEFAULT_WINDOW_MS,
        },
{
    match raw {
        Some(raw) => match text::parse_up_to(raw, u32::MAX as u64) {
            Some(ms) => {
                if ms > 0 {
                    ms as u32
                } else {
                    DEFAULT_WINDOW_MS
                }
            },
            None => DEFAULT_WINDOW_MS,
        },
        None => DEFAULT_WINDOW_MS,
    }
}

/// Where an emitter stands in its stream.
#[derive(Debug)]
pub struct Emitter {
    pub hello: Hello,
    pub seq: u64,
    /// Someone is listening, and has been greeted.
    pub connected: bool,
    pub functions_sent: usize,
    pub types_sent: usize,
    pub paths_sent: usize,
}

/// A frame on its way, and how many names of each kind it brings the listener
/// to.
#[derive(Debug)]
pub struct Outgoing {
    pub frame: Frame,
    pub functions_sent: usize,
    pub types_sent: usize,
    pub paths_sent: usize,
}

/// The event reports the calls of one function.
pub open spec fn reports_calls(e: Event, f: u32, s: CallStatModel) -> bool {
    e matches Event::Calls { func, count, ns } && func.0 == f && count == s.count && match s.ns {
        SamplesModel::Raw(held) => ns matches Dist::Raw { v } && v@ == held,
        SamplesModel::Buckets(_) => ns matches Dist::Buckets { b } && b@ == s.ns.entries(),
    }
}

/// The event reports one edge.
pub open spec fn reports_edge(e: Event, pair: (u32, u32), n: u64) -> bool {
    e matches Event::Edge { from, to, count } && from.0 == pair.0 && to.0 == pair.1 && count == n
}

/// The event reports one context.
pub open spec fn reports_stack(e: Event, p: u32, s: StackStat) -> bool {
    e matches Event::Stack { path, count, self_ns } && path.0 == p && count == s.count && self_ns
        == s.self_ns
}

/// The event reads one type's census.
pub open spec fn reports_census(e: Event, id: int, t: SlotModel) -> bool {
    e matches Event::Census { ty, live, bytes, sizes } && ty.0 == id && live == t.live && bytes
        == dist::clamp64(dist::estimate(t.sizes())) && (sizes matches Dist::Buckets { b } && b@
        == t.sizes())
}

/// The events report everything that was measured, and read every census: calls
/// by function, edges by pair, contexts by id, types by id.
pub open spec fn reports_all(es: Seq<Event>, a: AccumModel, s: SymbolsModel) -> bool {
    let calls = ordered::rising_u32(a.calls.dom());
    let edges = ordered::rising_pairs(a.edges.dom());
    let stacks = ordered::rising_u32(a.stacks.dom());
    let (c, e, k) = (calls.len() as int, edges.len() as int, stacks.len() as int);
    &&& es.len() == c + e + k + s.types.len()
    &&& forall|i: int|
        0 <= i < c ==> reports_calls(#[trigger] es[i], calls[i], a.calls[calls[i]])
    &&& forall|i: int|
        c <= i < c + e ==> reports_edge(#[trigger] es[i], edges[i - c], a.edges[edges[i - c]])
    &&& forall|i: int|
        c + e <= i < c + e + k ==> reports_stack(
            #[trigger] es[i],
            stacks[i - c - e],
            a.stacks[stacks[i - c - e]],
        )
    &&& forall|i: int|
        c + e + k <= i < es.len() ==> reports_census(
            #[trigger] es[i],
            i - c - e - k + 1,
            s.types[i - c - e - k],
        )
}

fn call_events(accum: &mut Accum) -> (r: Vec<Event>)
    ensures
        ({
            let a = old(accum)@;
            let calls = ordered::rising_u32(a.calls.dom());
            &&& r@.len() == calls.len()
            &&& forall|i: int|
                0 <= i < r@.len() ==> reports_calls(
                    #[trigger] r@[i],
                    calls[i],
                    a.calls[calls[i]],
                )
        }),
        final(accum)@.edges == old(accum)@.edges,
        final(accum)@.stacks == old(accum)@.stacks,
{
    let ghost a = accum@;
    let keys = ordered::keys_u32(&accum.calls);
    let mut events: Vec<Event> = Vec::new();
    proof {
        assert(a.calls.dom() =~= accum.calls@.dom());
    }
    for n in 0..keys.len()
        invariant
            ordered::lists_u32(keys@, a.calls.dom()),
            accum@.edges == a.edges,
            accum@.stacks == a.stacks,
            forall|f: u32|
                #![trigger accum.calls@.contains_key(f)]
                accum.calls@.contains_key(f) == (a.calls.contains_key(f) && !keys@.take(
                    n as int,
                ).contains(f)),
            forall|f: u32| #[trigger]
                accum.calls@.contains_key(f) ==> accum.calls@[f]@ == a.calls[f],
            events@.len() == n,
            forall|i: int|
                0 <= i < n ==> reports_calls(
                    #[trigger] events@[i],
                    keys@[i],
                    a.calls[keys@[i]],
                ),
    {
        let key: u32 = keys[n];
        proof {
            assert(keys@.contains(keys@[n as int]));
            crate::accum::lemma_one_more(keys@, n as int);
            assert(accum.calls@.contains_key(key));
        }
        if let Some(stat) = accum.calls.remove(&key) {
            events.push(
                Event::Calls { func: FunctionId(key), count: stat.count, ns: stat.ns.into_dist() },
            );
        }
    }
    events
}

impl Emitter {
    pub fn new(app: &str, pid: u32, started_unix_ms: u64, window_ms: u32) -> (r: Self)
        ensures
            r.hello.app@ == app@,
            r.hello.source@ == SOURCE@,
            r.hello.pid == pid,
            r.hello.started_unix_ms == started_unix_ms,
            r.hello.window_ms == window_ms,
            r.hello.schema == crate::proto::SCHEMA_VERSION,
            r.seq == 0,
            !r.connected,
            r.functions_sent == 0,
            r.types_sent == 0,
            r.paths_sent == 0,
    {
        let mut hello = Hello::new(app, SOURCE, pid, started_unix_ms);
        hello.window_ms = window_ms;
        Emitter {
            hello,
            seq: 0,
            connected: false,
            functions_sent: 0,
            types_sent: 0,
            paths_sent: 0,
        }
    }

    /// A listener has been greeted. A fresh one has never seen this process's
    /// names, so all of them are due again.
    pub fn greeted(&mut self)
        ensures
            final(self).connected,
            final(self).functions_sent == 0,
            final(self).types_sent == 0,
            final(self).paths_sent == 0,
            final(self).hello == old(self).hello,
            final(self).seq == old(self).seq,
    {
        self.connected = true;
        self.functions_sent = 0;
        self.types_sent = 0;
        self.paths_sent = 0;
    }

    /// The frame of one window, as measured by `t_ns`.
    pub fn frame(&self, accum: Accum, symbols: &Symbols, t_ns: u64) -> (r: Outgoing)
        requires
            symbols.wf(),
        ensures
            r.frame.seq == self.seq,
            r.frame.t_ns == t_ns,
            symbols::names_unsent(
                r.frame.registers@,
                symbols@,
                self.functions_sent as int,
                self.types_sent as int,
                self.paths_sent as int,
            ),
            reports_all(r.frame.events@, accum@, symbols@),
            r.frame.registers@.len() <= symbols::MAX_REGISTERS_PER_FRAME,
            (r.functions_sent - self.functions_sent, r.types_sent - self.types_sent)
                == symbols@.names_due(self.functions_sent as int, self.types_sent as int),
            r.paths_sent == self.paths_sent + symbols@.contexts_due(
                self.functions_sent as int,
                self.types_sent as int,
                self.paths_sent as int,
            ),
    {
        let (registers, functions_sent, types_sent, paths_sent) = symbols.registers_since(
            self.functions_sent,
            self.types_sent,
            self.paths_sent,
        );
        let ghost a = accum@;
        let ghost s = symbols@;
        proof {
            symbols.lemma_sound();
        }
        let mut accum = accum;
        let mut events = call_events(&mut accum);
        let ghost c = events@.len() as int;
        let ghost calls = ordered::rising_u32(a.calls.dom());
        let edges = ordered::keys_pairs(&accum.edges);
        for n in 0..edges.len()
            invariant
                accum.edges@ == a.edges,
                accum.stacks@ == a.stacks,
                ordered::lists_pairs(edges@, a.edges.dom()),
                c == calls.len(),
                events@.len() == c + n,
                forall|i: int|
                    0 <= i < c ==> reports_calls(
                        #[trigger] events@[i],
                        calls[i],
                        a.calls[calls[i]],
                    ),
                forall|i: int|
                    c <= i < c + n ==> reports_edge(
                        #[trigger] events@[i],
                        edges@[i - c],
                        a.edges[edges@[i - c]],
                    ),
        {
            let pair = edges[n];
            proof {
                assert(edges@.contains(edges@[n as int]));
            }
            if let Some(count) = accum.edges.get(&pair) {
                events.push(
                    Event::Edge {
                        from: FunctionId(pair.0),
                        to: FunctionId(pair.1),
                        count: *count,
                    },
                );
            }
        }
        let ghost e = edges@.len() as int;
        let stacks = ordered::keys_u32(&accum.stacks);
        for n in 0..stacks.len()
            invariant
                accum.stacks@ == a.stacks,
                ordered::lists_u32(stacks@, a.stacks.dom()),
                c == calls.len(),
                e == edges@.len(),
                events@.len() == c + e + n,
                forall|i: int|
                    0 <= i < c ==> reports_calls(
                        #[trigger] events@[i],
                        calls[i],
                        a.calls[calls[i]],
                    ),
                forall|i: int|
                    c <= i < c + e ==> reports_edge(
                        #[trigger] events@[i],
                        edges@[i - c],
                        a.edges[edges@[i - c]],
                    ),
                forall|i: int|
                    c + e <= i < c + e + n ==> reports_stack(
                        #[trigger] events@[i],
                        stacks@[i - c - e],
                        a.stacks[stacks@[i - c - e]],
                    ),
        {
            let path: u32 = stacks[n];
            proof {
                assert(stacks@.contains(stacks@[n as int]));
            }
            if let Some(stat) = accum.stacks.get(&path) {
                events.push(
                    Event::Stack { path: PathId(path), count: stat.count, self_ns: stat.self_ns },
                );
            }
        }
        let ghost k = stacks@.len() as int;
        let types: usize = symbols.type_count();
        for n in 0..types
            invariant
                s == symbols@,
                types == s.types.len(),
                s.wf(),
                c == calls.len(),
                e == edges@.len(),
                k == stacks@.len(),
                events@.len() == c + e + k + n,
                forall|i: int|
                    0 <= i < c ==> reports_calls(
                        #[trigger] events@[i],
                        calls[i],
                        a.calls[calls[i]],
                    ),
                forall|i: int|
                    c <= i < c + e ==> reports_edge(
                        #[trigger] events@[i],
                        edges@[i - c],
                        a.edges[edges@[i - c]],
                    ),
                forall|i: int|
                    c + e <= i < c + e + k ==> reports_stack(
                        #[trigger] events@[i],
                        stacks@[i - c - e],
                        a.stacks[stacks@[i - c - e]],
                    ),
                forall|i: int|
                    c + e + k <= i < events@.len() ==> reports_census(
                        #[trigger] events@[i],
                        i - c - e - k + 1,
                        s.types[i - c - e - k],
                    ),
        {
            let slot = symbols.type_slot(n);
            let sizes = slot.size_buckets();
            let bytes: u64 = census::bytes_from_buckets(&sizes);
            events.push(
                Event::Census {
                    ty: TypeId(n as u32 + 1),
                    live: slot.live(),
                    bytes,
                    sizes: Dist::Buckets { b: sizes },
                },
            );
        }
        Outgoing {
            frame: Frame { seq: self.seq, t_ns, registers, events },
            functions_sent,
            types_sent,
            paths_sent,
        }
    }

    /// One window's turn. A window nobody listens to is thrown away; `greeted`
    /// says that someone has been reached and greeted just now, where nobody
    /// had been.
    pub fn tick(
        &mut self,
        greeted: bool,
        accum: Accum,
        symbols: &Symbols,
        t_ns: u64,
    ) -> (r: Option<Outgoing>)
        requires
            symbols.wf(),
        ensures
            final(self).hello == old(self).hello,
            final(self).seq == old(self).seq,
            final(self).connected == (old(self).connected || greeted),
            (final(self).functions_sent, final(self).types_sent, final(self).paths_sent) == if old(self).connected || !greeted {
                (old(self).functions_sent, old(self).types_sent, old(self).paths_sent)
            } else {
                (0usize, 0usize, 0usize)
            },
            match r {
                Some(out) => {
                    &&& final(self).connected
                    &&& out.frame.seq == final(self).seq
                    &&& out.frame.t_ns == t_ns
                    &&& symbols::names_unsent(
                        out.frame.registers@,
                        symbols@,
                        final(self).functions_sent as int,
                        final(self).types_sent as int,
                        final(self).paths_sent as int,
                    )
                    &&& reports_all(out.frame.events@, accum@, symbols@)
                    &&& out.frame.registers@.len() <= symbols::MAX_REGISTERS_PER_FRAME
                    &&& (
                        out.functions_sent - final(self).functions_sent,
                        out.types_sent - final(self).types_sent,
                    ) == symbols@.names_due(
                        final(self).functions_sent as int,
                        final(self).types_sent as int,
                    )
                    &&& out.paths_sent == final(self).paths_sent + symbols@.contexts_due(
                        final(self).functions_sent as int,
                        final(self).types_sent as int,
                        final(self).paths_sent as int,
                    )
                },
                None => !final(self).connected,
            },
    {
        if !self.connected {
            if !greeted {
                return None;
            }
            self.greeted();
        }
        Some(self.frame(accum, symbols, t_ns))
    }

    /// What became of a frame. One that arrived moves the sequence and the names
    /// on; one that did not means the listener went away, and the next is
    /// greeted afresh.
    pub fn sent(&mut self, outgoing: &Outgoing, arrived: bool)
        ensures
            final(self).hello == old(self).hello,
            arrived ==> {
                &&& final(self).connected == old(self).connected
                &&& final(self).seq == crate::quantity::capped(old(self).seq, 1)
                &&& final(self).functions_sent == outgoing.functions_sent
                &&& final(self).types_sent == outgoing.types_sent
                &&& final(self).paths_sent == outgoing.paths_sent
            },
            !arrived ==> {
                &&& !final(self).connected
                &&& final(self).seq == old(self).seq
                &&& final(self).functions_sent == old(self).functions_sent
                &&& final(self).types_sent == old(self).types_sent
                &&& final(self).paths_sent == old(self).paths_sent
            },
    {
        if arrived {
            self.seq = self.seq.saturating_add(1);
            self.functions_sent = outgoing.functions_sent;
            self.types_sent = outgoing.types_sent;
            self.paths_sent = outgoing.paths_sent;
        } else {
            self.connected = false;
        }
    }
}

/// Two registrations bind one id.
pub open spec fn binds_the_same(a: Register, b: Register) -> bool {
    match (a, b) {
        (Register::Function { id, .. }, Register::Function { id: other, .. }) => id == other,
        (Register::Type { id, .. }, Register::Type { id: other, .. }) => id == other,
        (Register::Path { id, .. }, Register::Path { id: other, .. }) => id == other,
        _ => false,
    }
}

/// Names never repeat on the wire: of two frames that follow each other to one
/// listener, neither names an id twice and the second names none that the first
/// did. Once everything has been named, a frame carries no name at all.
pub proof fn lemma_names_are_sent_once(
    s: SymbolsModel,
    first: Seq<Register>,
    functions: int,
    types: int,
    paths: int,
    after: SymbolsModel,
    second: Seq<Register>,
)
    requires
        0 <= functions <= s.functions.len(),
        0 <= types <= s.types.len(),
        0 <= paths <= s.table.nodes.len(),
        symbols::names_unsent(first, s, functions, types, paths),
        symbols::names_unsent(
            second,
            after,
            functions + s.names_due(functions, types).0,
            types + s.names_due(functions, types).1,
            paths + s.contexts_due(functions, types, paths),
        ),
    ensures
        forall|i: int, j: int|
            0 <= i < j < first.len() ==> !binds_the_same(
                #[trigger] first[i],
                #[trigger] first[j],
            ),
        forall|i: int, j: int|
            0 <= i < first.len() && 0 <= j < second.len() ==> !binds_the_same(
                #[trigger] first[i],
                #[trigger] second[j],
            ),
        after == s && s.unsent(functions, types, paths) <= first.len() ==> second.len() == 0,
{
    let (f, t) = s.names_due(functions, types);
    let p = s.contexts_due(functions, types, paths);
    let (g, u) = after.names_due(functions + f, types + t);
    assert forall|i: int| 0 <= i < first.len() implies placed(
        #[trigger] first[i],
        i,
        f,
        t,
        functions,
        types,
        paths,
    ) by {
        if i < f {
            assert(symbols::names_function(first[i], functions + i + 1, s.functions[functions + i]));
        } else if i < f + t {
            assert(symbols::names_type(first[i], types + (i - f) + 1, s.types[types + (i - f)]));
        } else {
            let at = paths + (i - f - t);
            assert(symbols::names_context(first[i], at + 1, s.table.nodes[at]));
        }
    }
    assert forall|j: int| 0 <= j < second.len() implies placed(
        #[trigger] second[j],
        j,
        g,
        u,
        functions + f,
        types + t,
        paths + p,
    ) by {
        if j < g {
            let at = functions + f + j;
            assert(symbols::names_function(second[j], at + 1, after.functions[at]));
        } else if j < g + u {
            let at = types + t + (j - g);
            assert(symbols::names_type(second[j], at + 1, after.types[at]));
        } else {
            let at = paths + p + (j - g - u);
            assert(symbols::names_context(second[j], at + 1, after.table.nodes[at]));
        }
    }
}

/// The registration at a place of a frame binds the id that the place is for.
spec fn placed(
    r: Register,
    i: int,
    f: int,
    t: int,
    functions: int,
    types: int,
    paths: int,
) -> bool {
    match r {
        Register::Function { id, .. } => i < f && id.0 == functions + i + 1,
        Register::Type { id, .. } => f <= i < f + t && id.0 == types + (i - f) + 1,
        Register::Path { id, .. } => f + t <= i && id.0 == paths + (i - f - t) + 1,
    }
}

} // verus!
