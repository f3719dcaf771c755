//! Interning. A symbol's id is its place in this process's registry, plus one,
//! so zero stays free to mean "not yet interned".
//!
//! Names go on the wire once, the first time their id appears. Everything
//! needed to build those `Register` entries lives here.
use vstd::prelude::*;
use vstd::string::*;

use crate::accum::Accum;
use crate::calls;
use crate::calls::ThreadState;
use crate::census::{SlotModel, TypeSlot};
use crate::paths::{PathTable, TableModel};
use crate::proto::{FunctionId, Location, PathId, Register, TypeId};
use crate::text;

verus! {

/// How many `Register` entries one frame may carry. A reconnecting emitter
/// re-sends every name it ever interned, and without a ceiling a process with
/// a large tree writes one enormous line into a socket that gives it 250ms.
/// The high-water mark simply walks forward over the following frames.
pub const MAX_REGISTERS_PER_FRAME: usize = 2_048;

/// One measured function, at its own definition site.
#[derive(Debug, Clone, Copy)]
pub struct Site {
    pub name: &'static str,
    pub module: &'static str,
    pub file: &'static str,
    pub line: u32,
    id: u32,
}

/// What a [`Site`] says.
#[verifier::ext_equal]
pub struct SiteModel {
    pub name: Seq<char>,
    pub module: Seq<char>,
    pub file: Seq<char>,
    pub line: u32,
    /// Zero until the site is interned.
    pub id: u32,
}

impl View for Site {
    type V = SiteModel;

    closed spec fn view(&self) -> SiteModel {
        SiteModel {
            name: self.name@,
            module: self.module@,
            file: self.file@,
            line: self.line,
            id: self.id,
        }
    }
}

/// `{module}::{name}`.
pub open spec fn qualified_name(module: Seq<char>, name: Seq<char>) -> Seq<char> {
    module + "::"@ + name
}

impl Site {
    pub fn new(
        name: &'static str,
        module: &'static str,
        file: &'static str,
        line: u32,
    ) -> (r: Self)
        ensures
            r@ == (SiteModel { name: name@, module: module@, file: file@, line, id: 0 }),
    {
        Site { name, module, file, line, id: 0 }
    }

    pub fn interned_id(&self) -> (r: Option<FunctionId>)
        ensures
            r == if self@.id == 0 {
                None
            } else {
                Some(FunctionId(self@.id))
            },
    {
        if self.id == 0 {
            None
        } else {
            Some(FunctionId(self.id))
        }
    }

    pub fn publish_id(&mut self, id: FunctionId)
        ensures
            final(self)@ == (SiteModel { id: id.0, ..old(self)@ }),
    {
        self.id = id.0;
    }

    pub fn qualified(&self) -> (r: String)
        ensures
            r@ == qualified_name(self@.module, self@.name),
    {
        let mut s = self.module.to_owned();
        s.append("::");
        s.append(self.name);
        s
    }

    /// The name a site goes by, here or in full.
    pub open spec fn goes_by(m: SiteModel, name: Seq<char>) -> bool {
        m.name == name || qualified_name(m.module, m.name) == name
    }
}

/// The symbols one process has named.
#[derive(Debug)]
pub struct Symbols {
    functions: Vec<Site>,
    types: Vec<TypeSlot>,
    paths: PathTable,
}

/// What [`Symbols`] hold.
#[verifier::ext_equal]
pub struct SymbolsModel {
    pub functions: Seq<SiteModel>,
    pub types: Seq<SlotModel>,
    pub table: TableModel,
}

impl View for Symbols {
    type V = SymbolsModel;

    closed spec fn view(&self) -> SymbolsModel {
        SymbolsModel {
            functions: self.functions@.map_values(|s: Site| s@),
            types: self.types@.map_values(|t: TypeSlot| t@),
            table: self.paths@,
        }
    }
}

impl SymbolsModel {
    /// Every function carries its own place, every census is sound, and every
    /// context stands for a function that has been named.
    pub open spec fn wf(self) -> bool {
        &&& self.functions.len() <= u32::MAX
        &&& self.types.len() <= u32::MAX
        &&& self.table.wf()
        &&& forall|i: int|
            0 <= i < self.functions.len() ==> (#[trigger] self.functions[i]).id == i + 1
        &&& forall|i: int| 0 <= i < self.types.len() ==> (#[trigger] self.types[i]).wf()
        &&& forall|i: int|
            0 <= i < self.table.nodes.len() ==> 1 <= (#[trigger] self.table.nodes[i]).1
                <= self.functions.len()
    }

    /// The symbols once a site has been named.
    pub open spec fn naming(self, site: SiteModel) -> SymbolsModel {
        SymbolsModel {
            functions: self.functions.push(
                SiteModel { id: (self.functions.len() + 1) as u32, ..site },
            ),
            ..self
        }
    }

    /// How many names of functions and of types one more frame carries: those
    /// not sent yet, functions first, as far as the frame has room.
    pub open spec fn names_due(self, functions_sent: int, types_sent: int) -> (int, int) {
        let f = within(self.functions.len() - functions_sent, MAX_REGISTERS_PER_FRAME as int);
        let t = within(self.types.len() - types_sent, MAX_REGISTERS_PER_FRAME - f);
        (f, t)
    }

    /// How many contexts one more frame names: those not sent yet, as far as
    /// the frame has room beside the names.
    pub open spec fn contexts_due(
        self,
        functions_sent: int,
        types_sent: int,
        paths_sent: int,
    ) -> int {
        let (f, t) = self.names_due(functions_sent, types_sent);
        within(self.table.nodes.len() - paths_sent, MAX_REGISTERS_PER_FRAME - f - t)
    }

    /// How many entries are still to be sent, of every kind.
    pub open spec fn unsent(self, functions_sent: int, types_sent: int, paths_sent: int) -> int {
        (self.functions.len() - functions_sent) + (self.types.len() - types_sent) + (
        self.table.nodes.len() - paths_sent)
    }
}

/// As much of what is left as there is room for.
pub open spec fn within(left: int, room: int) -> int {
    if left <= 0 || room <= 0 {
        0
    } else if room < left {
        room
    } else {
        left
    }
}

/// The high-water marks walk forward: a frame carries all that is still to be
/// sent where that fits the ceiling, and otherwise as much as the ceiling
/// allows, so a few frames bring a listener up to date however much there is.
pub proof fn lemma_the_marks_walk_forward(
    s: SymbolsModel,
    functions: int,
    types: int,
    paths: int,
)
    requires
        0 <= functions <= s.functions.len(),
        0 <= types <= s.types.len(),
        0 <= paths <= s.table.nodes.len(),
    ensures
        ({
            let (f, t) = s.names_due(functions, types);
            let p = s.contexts_due(functions, types, paths);
            let left = s.unsent(functions, types, paths);
            &&& f + t + p == within(left, MAX_REGISTERS_PER_FRAME as int)
            &&& s.unsent(functions + f, types + t, paths + p) == left - (f + t + p)
            &&& left > 0 ==> s.unsent(functions + f, types + t, paths + p) < left
        }),
{
}

/// The entry names the function with this id.
pub open spec fn names_function(r: Register, id: int, s: SiteModel) -> bool {
    r matches Register::Function { id: i, name, module, location } && i.0 == id && name@ == s.name
        && text::text_of(module) == Some(s.module) && (location matches Some(l) && l.file@
        == s.file && l.line == s.line && l.column is None)
}

/// The entry names the type with this id.
pub open spec fn names_type(r: Register, id: int, t: SlotModel) -> bool {
    r matches Register::Type { id: i, name, location } && i.0 == id && name@ == t.name && (
    location matches Some(l) && l.file@ == t.file && l.line == t.line && l.column is None)
}

/// The entry names the context with this id.
pub open spec fn names_context(r: Register, id: int, node: (u32, u32)) -> bool {
    r matches Register::Path { id: i, parent, func } && i.0 == id && parent.0 == node.0 && func.0
        == node.1
}

/// The entries name the functions that are due, then the types, then the
/// contexts, each in the order of their ids.
pub open spec fn names_unsent(
    rs: Seq<Register>,
    s: SymbolsModel,
    functions_sent: int,
    types_sent: int,
    paths_sent: int,
) -> bool {
    let (f, t) = s.names_due(functions_sent, types_sent);
    let p = s.contexts_due(functions_sent, types_sent, paths_sent);
    &&& rs.len() == f + t + p
    &&& forall|i: int|
        0 <= i < f ==> names_function(
            #[trigger] rs[i],
            functions_sent + i + 1,
            s.functions[functions_sent + i],
        )
    &&& forall|i: int|
        f <= i < f + t ==> names_type(
            #[trigger] rs[i],
            types_sent + (i - f) + 1,
            s.types[types_sent + (i - f)],
        )
    &&& forall|i: int|
        f + t <= i < f + t + p ==> names_context(
            #[trigger] rs[i],
            paths_sent + (i - f - t) + 1,
            s.table.nodes[paths_sent + (i - f - t)],
        )
}

/// Where the first function that goes by a name stands, from a place on.
pub open spec fn function_place(s: Seq<SiteModel>, name: Seq<char>, from: int) -> Option<int>
    decreases s.len() - from,
{
    if from < 0 || from >= s.len() {
        None
    } else if Site::goes_by(s[from], name) {
        Some(from)
    } else {
        function_place(s, name, from + 1)
    }
}

/// Where the first type of a name stands, from a place on.
pub open spec fn type_place(s: Seq<SlotModel>, name: Seq<char>, from: int) -> Option<int>
    decreases s.len() - from,
{
    if from < 0 || from >= s.len() {
        None
    } else if s[from].name == name {
        Some(from)
    } else {
        type_place(s, name, from + 1)
    }
}

impl Symbols {
    /// Everything in it is sound.
    pub closed spec fn wf(&self) -> bool {
        self@.wf() && self.paths.wf()
    }

    /// Sound symbols say sound things.
    pub proof fn lemma_sound(&self)
        requires
            self.wf(),
        ensures
            self@.wf(),
    {
    }

    pub fn new() -> (r: Self)
        ensures
            r.wf(),
            r@.functions == Seq::<SiteModel>::empty(),
            r@.types == Seq::<SlotModel>::empty(),
            r@.table.nodes == Seq::<(u32, u32)>::empty(),
            r@.table.overflowed == 0,
    {
        let r = Symbols { functions: Vec::new(), types: Vec::new(), paths: PathTable::new() };
        proof {
            assert(r@.functions =~= Seq::<SiteModel>::empty());
            assert(r@.types =~= Seq::<SlotModel>::empty());
        }
        r
    }

    /// Names a function, unless it has been named already.
    pub fn intern_function(&mut self, site: &mut Site) -> (r: FunctionId)
        requires
            old(self).wf(),
            old(self)@.functions.len() < u32::MAX,
        ensures
            final(self).wf(),
            r.0 == if old(site)@.id == 0 {
                old(self)@.functions.len() + 1
            } else {
                old(site)@.id as nat
            },
            final(site)@ == (SiteModel { id: r.0, ..old(site)@ }),
            final(self)@ == if old(site)@.id == 0 {
                old(self)@.naming(old(site)@)
            } else {
                old(self)@
            },
    {
        if let Some(existing) = site.interned_id() {
            return existing;
        }
        let ghost before = self@;
        let id = FunctionId(self.functions.len() as u32 + 1);
        site.publish_id(id);
        self.functions.push(*site);
        proof {
            let after = before.naming(old(site)@);
            assert(self@.functions =~= after.functions);
            assert(self@ =~= after);
            assert forall|i: int| 0 <= i < self@.functions.len() implies (#[trigger]
            self@.functions[i]).id == i + 1 by {
                if i < before.functions.len() {
                    assert(self@.functions[i] == before.functions[i]);
                }
            }
        }
        id
    }

    /// Names a type.
    pub fn intern_type(&mut self, slot: TypeSlot) -> (r: TypeId)
        requires
            old(self).wf(),
            old(self)@.types.len() < u32::MAX,
            slot@.wf(),
        ensures
            final(self).wf(),
            r.0 == old(self)@.types.len() + 1,
            final(self)@ == (SymbolsModel { types: old(self)@.types.push(slot@), ..old(self)@ }),
    {
        let ghost before = self@;
        let ghost s = slot@;
        self.types.push(slot);
        proof {
            assert(self@.types =~= before.types.push(s));
            assert forall|i: int| 0 <= i < self@.types.len() implies (#[trigger]
            self@.types[i]).wf() by {
                if i < before.types.len() {
                    assert(self@.types[i] == before.types[i]);
                }
            }
        }
        TypeId(self.types.len() as u32)
    }

    /// A value of a tracked type has been constructed.
    pub fn constructed(&mut self, ty: TypeId, bytes: u64) -> (r: u16)
        requires
            old(self).wf(),
            1 <= ty.0 <= old(self)@.types.len(),
        ensures
            final(self).wf(),
            r == crate::dist::bucket_index(bytes),
            final(self)@ == (SymbolsModel {
                types: old(self)@.types.update(
                    ty.0 - 1,
                    old(self)@.types[ty.0 - 1].constructing(r),
                ),
                ..old(self)@
            }),
    {
        let ghost before = self@;
        let at: usize = (ty.0 - 1) as usize;
        proof {
            assert(before.types[at as int] == self.types@[at as int]@);
        }
        let bucket: u16 = self.types[at].constructed(bytes);
        proof {
            assert(self@.types =~= before.types.update(
                at as int,
                before.types[at as int].constructing(bucket),
            ));
        }
        bucket
    }

    /// A value of a tracked type has been dropped.
    pub fn dropped(&mut self, ty: TypeId, bucket: u16)
        requires
            old(self).wf(),
            1 <= ty.0 <= old(self)@.types.len(),
        ensures
            final(self).wf(),
            final(self)@ == (SymbolsModel {
                types: old(self)@.types.update(
                    ty.0 - 1,
                    old(self)@.types[ty.0 - 1].dropping(bucket),
                ),
                ..old(self)@
            }),
    {
        let ghost before = self@;
        let at: usize = (ty.0 - 1) as usize;
        proof {
            assert(before.types[at as int] == self.types@[at as int]@);
        }
        self.types[at].dropped(bucket);
        proof {
            assert(self@.types =~= before.types.update(
                at as int,
                before.types[at as int].dropping(bucket),
            ));
        }
    }

    /// Hands out the id of the context reached by calling `func` from `parent`.
    pub fn intern_path(&mut self, parent: u32, func: FunctionId, max: usize) -> (r: u32)
        requires
            old(self).wf(),
            parent <= old(self)@.table.nodes.len(),
            1 <= func.0 <= old(self)@.functions.len(),
        ensures
            final(self).wf(),
            r == old(self)@.table.handing_out(parent, func.0, max),
            final(self)@ == (SymbolsModel {
                table: old(self)@.table.interning(parent, func.0, max),
                ..old(self)@
            }),
    {
        let ghost before = self@;
        let id: u32 = self.paths.intern_path(parent, func.0, max);
        proof {
            self.paths.lemma_sound();
            assert(self@ =~= (SymbolsModel {
                table: before.table.interning(parent, func.0, max),
                ..before
            }));
            assert forall|i: int| 0 <= i < self@.table.nodes.len() implies 1 <= (#[trigger]
            self@.table.nodes[i]).1 <= self@.functions.len() by {
                if i < before.table.nodes.len() {
                    assert(self@.table.nodes[i] == before.table.nodes[i]);
                }
            }
        }
        id
    }

    /// Opens an activation of a named function on a thread.
    pub fn open(&mut self, thread: &mut ThreadState, func: FunctionId, max: usize, now: u64)
        requires
            old(self).wf(),
            1 <= func.0 <= old(self)@.functions.len(),
            old(thread)@.wf(),
            old(thread)@.stack.len() < u32::MAX,
            calls::agrees(old(thread)@, old(self)@.table),
            calls::rooted(old(thread)@, old(self)@.table),
        ensures
            final(self).wf(),
            final(thread)@.wf(),
            calls::agrees(final(thread)@, final(self)@.table),
            calls::rooted(final(thread)@, final(self)@.table),
            calls::entered(
                old(thread)@,
                old(self)@.table,
                func.0,
                max,
                now,
                final(thread)@,
                final(self)@.table,
            ),
            final(self)@.functions == old(self)@.functions,
            final(self)@.types == old(self)@.types,
    {
        let ghost before = self@;
        proof {
            self.paths.lemma_sound();
        }
        thread.open_in(&mut self.paths, max, func.0, now);
        proof {
            self.paths.lemma_sound();
            assert(self@.functions =~= before.functions);
            assert(self@.types =~= before.types);
            assert forall|i: int| 0 <= i < self@.table.nodes.len() implies 1 <= (#[trigger]
            self@.table.nodes[i]).1 <= self@.functions.len() by {
                if i < before.table.nodes.len() {
                    assert(self@.table.nodes[i] == before.table.nodes[i]);
                }
            }
        }
    }

    /// The `Register` entries for symbols interned since so many of each kind
    /// were sent, and the new counts to carry into the next window.
    ///
    /// Functions and types go first, and contexts in id order after them, so a
    /// frame never names a context before the function it stands for or the
    /// parent it extends. What does not fit one frame is left to the next.
    pub fn registers_since(
        &self,
        functions_sent: usize,
        types_sent: usize,
        paths_sent: usize,
    ) -> (r: (Vec<Register>, usize, usize, usize))
        requires
            self.wf(),
        ensures
            names_unsent(
                r.0@,
                self@,
                functions_sent as int,
                types_sent as int,
                paths_sent as int,
            ),
            r.0@.len() <= MAX_REGISTERS_PER_FRAME,
            r.1 == functions_sent + self@.names_due(functions_sent as int, types_sent as int).0,
            r.2 == types_sent + self@.names_due(functions_sent as int, types_sent as int).1,
            r.3 == paths_sent + self@.contexts_due(
                functions_sent as int,
                types_sent as int,
                paths_sent as int,
            ),
    {
        let ghost s = self@;
        let ghost (f, t) = s.names_due(functions_sent as int, types_sent as int);
        let mut out: Vec<Register> = Vec::new();
        let mut functions_now: usize = functions_sent;
        while functions_now < self.functions.len() && out.len() < MAX_REGISTERS_PER_FRAME
            invariant
                s == self@,
                s.wf(),
                self.functions@.len() == s.functions.len(),
                f == s.names_due(functions_sent as int, types_sent as int).0,
                functions_sent <= functions_now,
                functions_now <= s.functions.len() || functions_now == functions_sent,
                out@.len() == functions_now - functions_sent,
                out@.len() <= MAX_REGISTERS_PER_FRAME,
                forall|i: int|
                    0 <= i < out@.len() ==> names_function(
                        #[trigger] out@[i],
                        functions_sent + i + 1,
                        s.functions[functions_sent + i],
                    ),
            decreases s.functions.len() - functions_now,
        {
            let site = self.functions[functions_now];
            proof {
                assert(s.functions[functions_now as int] == site@);
            }
            out.push(
                Register::Function {
                    id: FunctionId(functions_now as u32 + 1),
                    name: site.name.to_owned(),
                    module: Some(site.module.to_owned()),
                    location: Some(
                        Location { file: site.file.to_owned(), line: site.line, column: None },
                    ),
                },
            );
            functions_now = functions_now + 1;
        }
        let mut types_now: usize = types_sent;
        while types_now < self.types.len() && out.len() < MAX_REGISTERS_PER_FRAME
            invariant
                s == self@,
                s.wf(),
                self.types@.len() == s.types.len(),
                (f, t) == s.names_due(functions_sent as int, types_sent as int),
                types_sent <= types_now,
                types_now <= s.types.len() || types_now == types_sent,
                out@.len() == f + (types_now - types_sent),
                out@.len() <= MAX_REGISTERS_PER_FRAME,
                forall|i: int|
                    0 <= i < f ==> names_function(
                        #[trigger] out@[i],
                        functions_sent + i + 1,
                        s.functions[functions_sent + i],
                    ),
                forall|i: int|
                    f <= i < out@.len() ==> names_type(
                        #[trigger] out@[i],
                        types_sent + (i - f) + 1,
                        s.types[types_sent + (i - f)],
                    ),
            decreases s.types.len() - types_now,
        {
            let slot = &self.types[types_now];
            proof {
                assert(s.types[types_now as int] == slot@);
            }
            out.push(
                Register::Type {
                    id: TypeId(types_now as u32 + 1),
                    name: slot.name().to_owned(),
                    location: Some(
                        Location {
                            file: slot.file().to_owned(),
                            line: slot.line(),
                            column: None,
                        },
                    ),
                },
            );
            types_now = types_now + 1;
        }
        let mut paths_now: usize = paths_sent;
        while paths_now < self.paths.len() && out.len() < MAX_REGISTERS_PER_FRAME
            invariant
                s == self@,
                s.wf(),
                s.table == self.paths@,
                (f, t) == s.names_due(functions_sent as int, types_sent as int),
                paths_sent <= paths_now,
                paths_now <= s.table.nodes.len() || paths_now == paths_sent,
                out@.len() <= MAX_REGISTERS_PER_FRAME,
                out@.len() == f + t + (paths_now - paths_sent),
                forall|i: int|
                    0 <= i < f ==> names_function(
                        #[trigger] out@[i],
                        functions_sent + i + 1,
                        s.functions[functions_sent + i],
                    ),
                forall|i: int|
                    f <= i < f + t ==> names_type(
                        #[trigger] out@[i],
                        types_sent + (i - f) + 1,
                        s.types[types_sent + (i - f)],
                    ),
                forall|i: int|
                    f + t <= i < out@.len() ==> names_context(
                        #[trigger] out@[i],
                        paths_sent + (i - f - t) + 1,
                        s.table.nodes[paths_sent + (i - f - t)],
                    ),
            decreases s.table.nodes.len() - paths_now,
        {
            let (parent, func) = self.paths.node(paths_now);
            out.push(
                Register::Path {
                    id: PathId(paths_now as u32 + 1),
                    parent: PathId(parent),
                    func: FunctionId(func),
                },
            );
            paths_now = paths_now + 1;
        }
        (out, functions_now, types_now, paths_now)
    }

    /// How many functions have been named.
    pub fn function_count(&self) -> (r: usize)
        ensures
            r == self@.functions.len(),
    {
        self.functions.len()
    }

    /// How many types have been named.
    pub fn type_count(&self) -> (r: usize)
        ensures
            r == self@.types.len(),
    {
        self.types.len()
    }

    /// The census of the type at a place.
    pub fn type_slot(&self, at: usize) -> (r: &TypeSlot)
        requires
            at < self@.types.len(),
        ensures
            r@ == self@.types[at as int],
    {
        &self.types[at]
    }

    /// Finds a named function by name, here or in full.
    pub fn function_id_by_name(&self, name: &str) -> (r: Option<FunctionId>)
        requires
            self.wf(),
        ensures
            r == match function_place(self@.functions, name@, 0) {
                Some(i) => Some(FunctionId((i + 1) as u32)),
                None => None,
            },
    {
        let ghost s = self@.functions;
        for n in 0..self.functions.len()
            invariant
                s == self@.functions,
                self.functions@.len() == s.len(),
                s.len() <= u32::MAX,
                function_place(s, name@, 0) == function_place(s, name@, n as int),
        {
            let site = self.functions[n];
            proof {
                assert(s[n as int] == site@);
            }
            if text::same(site.name, name) || text::same(site.qualified().as_str(), name) {
                return Some(FunctionId(n as u32 + 1));
            }
        }
        None
    }

    /// Finds a tracked type by name.
    pub fn type_place_by_name(&self, name: &str) -> (r: Option<usize>)
        ensures
            match r {
                Some(i) => type_place(self@.types, name@, 0) == Some(i as int) && i
                    < self@.types.len(),
                None => type_place(self@.types, name@, 0) is None,
            },
    {
        let ghost s = self@.types;
        for n in 0..self.types.len()
            invariant
                s == self@.types,
                self.types@.len() == s.len(),
                type_place(s, name@, 0) == type_place(s, name@, n as int),
        {
            proof {
                assert(s[n as int] == self.types@[n as int]@);
            }
            if text::same(self.types[n].name(), name) {
                return Some(n);
            }
        }
        None
    }

    /// The name of the function with an id.
    pub fn function_name(&self, id: u32) -> (r: Option<&'static str>)
        ensures
            match r {
                Some(name) => 1 <= id <= self@.functions.len() && name@
                    == self@.functions[id - 1].name,
                None => id == 0 || id > self@.functions.len(),
            },
    {
        if id == 0 || id as usize > self.functions.len() {
            return None;
        }
        let site = self.functions[id as usize - 1];
        proof {
            assert(self@.functions[id - 1] == site@);
        }
        Some(site.name)
    }

    /// Every context named so far, as `(id, parent, func)`.
    pub fn path_nodes(&self) -> (r: Vec<(u32, u32, u32)>)
        requires
            self.wf(),
        ensures
            r@.len() == self@.table.nodes.len(),
            forall|i: int|
                0 <= i < r@.len() ==> #[trigger] r@[i] == (
                    (i + 1) as u32,
                    self@.table.nodes[i].0,
                    self@.table.nodes[i].1,
                ),
    {
        self.paths.path_nodes()
    }

    /// How many contexts were refused because the table was full.
    pub fn paths_overflowed(&self) -> (r: u64)
        ensures
            r == self@.table.overflowed,
    {
        self.paths.overflowed()
    }
}

/// Closes the activation its [`Site::enter`] opened.
#[derive(Debug)]
pub struct Guard {
    opened: bool,
}

impl View for Guard {
    type V = bool;

    /// An activation was opened.
    closed spec fn view(&self) -> bool {
        self.opened
    }
}

impl Guard {
    /// Closes the activation. It runs as well when a panic unwinds past the
    /// call, so the stack stays balanced.
    pub fn close(self, thread: &mut ThreadState, accum: &mut Accum, now: u64)
        requires
            old(thread)@.wf(),
        ensures
            final(thread)@.wf(),
            final(thread)@ == if self@ && old(thread)@.stack.len() > 0 {
                old(thread)@.closing(now)
            } else {
                old(thread)@
            },
            final(accum)@ == if self@ && old(thread)@.stack.len() > 0 {
                calls::recording(old(accum)@, old(thread)@.report(now))
            } else {
                old(accum)@
            },
    {
        if self.opened {
            thread.close(accum, now);
        }
    }
}

impl Site {
    /// Opens an activation of this function, naming it first where that has not
    /// happened yet. The guard closes it. A thread as deep as can be counted
    /// opens no more.
    pub fn enter(
        &mut self,
        symbols: &mut Symbols,
        thread: &mut ThreadState,
        max: usize,
        now: u64,
    ) -> (r: Guard)
        requires
            old(symbols).wf(),
            old(symbols)@.functions.len() < u32::MAX,
            old(self)@.id <= old(symbols)@.functions.len(),
            old(thread)@.wf(),
            calls::agrees(old(thread)@, old(symbols)@.table),
            calls::rooted(old(thread)@, old(symbols)@.table),
        ensures
            final(symbols).wf(),
            final(thread)@.wf(),
            calls::agrees(final(thread)@, final(symbols)@.table),
            calls::rooted(final(thread)@, final(symbols)@.table),
            final(self)@ == if old(self)@.id == 0 {
                SiteModel { id: (old(symbols)@.functions.len() + 1) as u32, ..old(self)@ }
            } else {
                old(self)@
            },
            final(symbols)@.functions == if old(self)@.id == 0 {
                old(symbols)@.naming(old(self)@).functions
            } else {
                old(symbols)@.functions
            },
            final(symbols)@.types == old(symbols)@.types,
            r@ == (old(thread)@.stack.len() < u32::MAX),
            r@ ==> calls::entered(
                old(thread)@,
                old(symbols)@.table,
                final(self)@.id,
                max,
                now,
                final(thread)@,
                final(symbols)@.table,
            ),
            !r@ ==> final(thread)@ == old(thread)@ && final(symbols)@.table == old(symbols)@.table,
    {
        let id = symbols.intern_function(self);
        if thread.open_activations() >= u32::MAX as usize {
            return Guard { opened: false };
        }
        symbols.open(thread, id, max, now);
        Guard { opened: true }
    }
}

} // verus!
