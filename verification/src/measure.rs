//! What the attributes do to the code they stand on.
//!
//! `#[measure]` records a function's calls, `#[measure_all]` puts it on every
//! function of a module or an `impl` block, and `#[track]` counts the live
//! instances of a struct. Which functions can be measured, which structs can be
//! tracked, and what the code grows by is decided here, over the few things an
//! attribute looks at.
use vstd::prelude::*;
use vstd::string::*;

use crate::text;

verus! {

/// The field `#[track]` adds to a struct.
pub const CENSUS_FIELD: &'static str = "__lightwatch_census";

/// The name that leads to the probe crate where nothing renames it.
pub const PROBE_CRATE: &'static str = "lightwatch_probe";

/// Why an attribute will not go where it was put.
#[derive(Debug, Clone, Copy, PartialEq, Eq, Structural)]
pub enum Refusal {
    /// `#[measure]` was given an option it does not have.
    MeasureOption,
    /// A future resumed on another thread would be attributed to whatever that
    /// thread was doing.
    AsyncFunction,
    /// There is no clock during const evaluation.
    ConstFunction,
    /// `#[measure_all]` was given an option.
    MeasureAllOption,
    /// `#[measure_all]` was put on something that holds no functions.
    NoFunctions,
    /// `#[measure_all]` was put on a module whose body is elsewhere.
    NoBody,
    /// `#[track]` was given an option it does not have.
    TrackOption,
    /// Every instantiation would share one set of counters.
    GenericStruct,
    /// There are no named fields to add one to.
    UnnamedFields,
}

impl Refusal {
    /// What the compiler says of it.
    pub open spec fn wording(self) -> Seq<char> {
        match self {
            Refusal::MeasureOption => "expected `name = \"...\"` or `skip`"@,
            Refusal::AsyncFunction =>
                "lightwatch cannot measure an `async fn`: a future resumed on another thread would be attributed to whatever that thread was doing. Measure the synchronous body instead, by moving it into a plain fn that the async fn calls."@,
            Refusal::ConstFunction =>
                "lightwatch cannot measure a `const fn`: measuring needs a clock and a thread-local stack, neither of which exists during const evaluation."@,
            Refusal::MeasureAllOption => "`measure_all` takes no arguments"@,
            Refusal::NoFunctions =>
                "`measure_all` applies to a `mod` or an `impl` block. For one function, use `#[measure]`, which will also tell you when a function cannot be measured."@,
            Refusal::NoBody =>
                "`measure_all` needs the module's body, so it cannot go on `mod foo;`"@,
            Refusal::TrackOption => "expected `manual_measured`"@,
            Refusal::GenericStruct =>
                "lightwatch cannot track a generic struct: its counters live in one `static` per type, which every instantiation would share."@,
            Refusal::UnnamedFields =>
                "lightwatch can only track a struct with named fields, because it injects one."@,
        }
    }

    /// What the compiler says of it.
    pub fn message(&self) -> (r: &'static str)
        ensures
            r@ == self.wording(),
    {
        match self {
            Refusal::MeasureOption => "expected `name = \"...\"` or `skip`",
            Refusal::AsyncFunction =>
                "lightwatch cannot measure an `async fn`: a future resumed on another thread would be attributed to whatever that thread was doing. Measure the synchronous body instead, by moving it into a plain fn that the async fn calls.",
            Refusal::ConstFunction =>
                "lightwatch cannot measure a `const fn`: measuring needs a clock and a thread-local stack, neither of which exists during const evaluation.",
            Refusal::MeasureAllOption => "`measure_all` takes no arguments",
            Refusal::NoFunctions =>
                "`measure_all` applies to a `mod` or an `impl` block. For one function, use `#[measure]`, which will also tell you when a function cannot be measured.",
            Refusal::NoBody =>
                "`measure_all` needs the module's body, so it cannot go on `mod foo;`",
            Refusal::TrackOption => "expected `manual_measured`",
            Refusal::GenericStruct =>
                "lightwatch cannot track a generic struct: its counters live in one `static` per type, which every instantiation would share.",
            Refusal::UnnamedFields =>
                "lightwatch can only track a struct with named fields, because it injects one.",
        }
    }
}

/// The path the generated code calls the probe crate by. A consumer that
/// renames the dependency would otherwise get code referring to a crate name
/// that is not in scope. The probe crate knows itself by its own name, so that
/// one resolves wherever no other was found.
pub fn probe_crate(found: Option<&str>) -> (r: String)
    ensures
        r@ == "::"@ + match found {
            Some(name) => name@,
            None => PROBE_CRATE@,
        },
{
    let mut path = "::".to_owned();
    match found {
        Some(name) => path.append(name),
        None => path.append(PROBE_CRATE),
    }
    path
}

/// One option given to `#[measure]`.
#[derive(Debug, PartialEq, Eq)]
pub enum MeasureMeta {
    /// `name = "..."`.
    Name(String),
    /// `skip`.
    Skip,
    /// Anything else.
    Unknown,
}

/// One option given to `#[track]`.
#[derive(Debug, Clone, Copy, PartialEq, Eq, Structural)]
pub enum TrackMeta {
    /// `manual_measured`.
    ManualMeasured,
    /// Anything else.
    Unknown,
}

/// What the attributes look at in a function: what it is called, what kind it
/// is, and the last part of each path among its attributes.
#[derive(Debug, PartialEq, Eq)]
pub struct FunctionShape {
    pub ident: String,
    pub is_async: bool,
    pub is_const: bool,
    pub attributes: Vec<String>,
}

/// One item of a module or an `impl` block.
#[derive(Debug, PartialEq, Eq)]
pub enum Member {
    Function(FunctionShape),
    /// Anything else. A nested module says for itself whether it wants
    /// measuring, and an `impl` inside one is reached by putting the attribute
    /// on the `impl`.
    Other,
}

/// What `#[measure_all]` was put on.
#[derive(Debug, PartialEq, Eq)]
pub enum ItemShape {
    /// A module, and its body where it is here.
    Module(Option<Vec<Member>>),
    /// An `impl` block.
    Block(Vec<Member>),
    Other,
}

/// What becomes of a function under `#[measure]`.
#[derive(Debug, PartialEq, Eq)]
pub enum Measured {
    /// It stays as it is.
    AsWritten,
    /// It enters a site of that name before its own body runs.
    Site(String),
}

/// The options hold one that `#[measure]` does not have.
pub open spec fn measure_misled(options: Seq<MeasureMeta>) -> bool {
    exists|i: int| 0 <= i < options.len() && #[trigger] options[i] is Unknown
}

/// The options hold `skip`.
pub open spec fn skips(options: Seq<MeasureMeta>) -> bool {
    exists|i: int| 0 <= i < options.len() && #[trigger] options[i] is Skip
}

/// The name the options give, the last of them where there are several.
pub open spec fn name_given(options: Seq<MeasureMeta>) -> Option<Seq<char>>
    decreases options.len(),
{
    if options.len() == 0 {
        None
    } else {
        match options.last() {
            MeasureMeta::Name(name) => Some(name@),
            _ => name_given(options.drop_last()),
        }
    }
}

/// Records this function's caller, its call count and its wall duration.
///
/// Takes an optional `name = "..."` to give the function a distinct label,
/// which two trait implementations of the same method name need, and `skip` to
/// leave a function of a measured module out on purpose.
///
/// An async fn's body becomes a future that a runtime may poll on one thread
/// and resume on another. A thread-local activation stack cannot follow that,
/// and the edges it would record are not merely imprecise, they name the wrong
/// caller. Refusing is the only honest option.
pub fn measure(options: &Vec<MeasureMeta>, function: &FunctionShape, enabled: bool) -> (r: Result<
    Measured,
    Refusal,
>)
    ensures
        measure_misled(options@) ==> r == Err::<Measured, Refusal>(Refusal::MeasureOption),
        !measure_misled(options@) && skips(options@) ==> r == Ok::<Measured, Refusal>(
            Measured::AsWritten,
        ),
        !measure_misled(options@) && !skips(options@) ==> if function.is_async {
            r == Err::<Measured, Refusal>(Refusal::AsyncFunction)
        } else if function.is_const {
            r == Err::<Measured, Refusal>(Refusal::ConstFunction)
        } else if !enabled {
            r == Ok::<Measured, Refusal>(Measured::AsWritten)
        } else {
            r matches Ok(Measured::Site(name)) && name@ == match name_given(options@) {
                Some(given) => given,
                None => function.ident@,
            }
        },
{
    let mut skip = false;
    let mut given: Option<&String> = None;
    proof {
        assert(options@.take(0) =~= Seq::<MeasureMeta>::empty());
    }
    for n in 0..options.len()
        invariant
            forall|i: int| 0 <= i < n ==> !(#[trigger] options@[i] is Unknown),
            skip == exists|i: int| 0 <= i < n && #[trigger] options@[i] is Skip,
            match given {
                Some(name) => name_given(options@.take(n as int)) == Some(name@),
                None => name_given(options@.take(n as int)) is None,
            },
    {
        proof {
            assert(options@.take(n + 1).drop_last() =~= options@.take(n as int));
            assert(options@.take(n + 1).last() == options@[n as int]);
        }
        match &options[n] {
            MeasureMeta::Name(name) => {
                given = Some(name);
            },
            MeasureMeta::Skip => {
                assert(options@[n as int] is Skip);
                skip = true;
            },
            MeasureMeta::Unknown => {
                assert(options@[n as int] is Unknown);
                return Err(Refusal::MeasureOption);
            },
        }
    }
    proof {
        assert(options@.take(options@.len() as int) =~= options@);
    }
    if skip {
        return Ok(Measured::AsWritten);
    }
    if function.is_async {
        return Err(Refusal::AsyncFunction);
    }
    if function.is_const {
        return Err(Refusal::ConstFunction);
    }
    if !enabled {
        return Ok(Measured::AsWritten);
    }
    Ok(
        Measured::Site(
            match given {
                Some(name) => name.clone(),
                None => function.ident.clone(),
            },
        ),
    )
}

/// The function carries `#[measure]` already, by whatever path.
pub open spec fn carries_measure(f: FunctionShape) -> bool {
    exists|i: int| 0 <= i < f.attributes@.len() && (#[trigger] f.attributes@[i])@ == "measure"@
}

/// The function takes a `#[measure]`: it can, and has none yet.
pub open spec fn takes_measure(f: FunctionShape) -> bool {
    !f.is_async && !f.is_const && !carries_measure(f)
}

/// Whether a function gains `#[measure]`: it does unless it cannot take one or
/// already has.
pub fn measure_in_place(function: &FunctionShape) -> (r: bool)
    ensures
        r == takes_measure(*function),
{
    if function.is_async || function.is_const {
        return false;
    }
    for n in 0..function.attributes.len()
        invariant
            forall|i: int| 0 <= i < n ==> (#[trigger] function.attributes@[i])@ != "measure"@,
    {
        if text::same(function.attributes[n].as_str(), "measure") {
            assert(function.attributes@[n as int]@ == "measure"@);
            return false;
        }
    }
    true
}

/// The member is a function that gains `#[measure]`.
pub open spec fn gains(m: Member) -> bool {
    m matches Member::Function(f) && takes_measure(f)
}

/// The places of the members that gain `#[measure]`, in order.
pub open spec fn gaining(members: Seq<Member>) -> Seq<usize>
    decreases members.len(),
{
    if members.len() == 0 {
        Seq::empty()
    } else {
        let before = gaining(members.drop_last());
        if gains(members.last()) {
            before.push((members.len() - 1) as usize)
        } else {
            before
        }
    }
}

fn measurable(members: &Vec<Member>) -> (r: Vec<usize>)
    ensures
        r@ == gaining(members@),
{
    let mut places: Vec<usize> = Vec::new();
    proof {
        assert(members@.take(0) =~= Seq::<Member>::empty());
    }
    for n in 0..members.len()
        invariant
            places@ == gaining(members@.take(n as int)),
    {
        proof {
            assert(members@.take(n + 1).drop_last() =~= members@.take(n as int));
            assert(members@.take(n + 1).last() == members@[n as int]);
        }
        if let Member::Function(function) = &members[n] {
            if measure_in_place(function) {
                places.push(n);
            }
        }
    }
    proof {
        assert(members@.take(members@.len() as int) =~= members@);
    }
    places
}

/// The places that gain `#[measure]` where `#[measure_all]` stands, or why it
/// cannot stand there.
pub open spec fn measured_everywhere(bare: bool, item: ItemShape) -> Result<Seq<usize>, Refusal> {
    if !bare {
        Err(Refusal::MeasureAllOption)
    } else {
        match item {
            ItemShape::Module(Some(members)) => Ok(gaining(members@)),
            ItemShape::Module(None) => Err(Refusal::NoBody),
            ItemShape::Block(members) => Ok(gaining(members@)),
            ItemShape::Other => Err(Refusal::NoFunctions),
        }
    }
}

/// Measures every function in a `mod` or an `impl` block: gives the places of
/// the members that gain `#[measure]`.
///
/// Unlike [`measure`], this skips what it cannot measure — `async fn`,
/// `const fn`, and anything already carrying `#[measure]` — instead of
/// failing the build. Asking for one function to be measured and being told
/// no is useful; asking for a module and being told no because one function
/// in it is `async` is not.
pub fn measure_all(bare: bool, item: &ItemShape) -> (r: Result<Vec<usize>, Refusal>)
    ensures
        match r {
            Ok(places) => measured_everywhere(bare, *item) == Ok::<Seq<usize>, Refusal>(places@),
            Err(why) => measured_everywhere(bare, *item) == Err::<Seq<usize>, Refusal>(why),
        },
{
    if !bare {
        return Err(Refusal::MeasureAllOption);
    }
    match item {
        ItemShape::Module(Some(members)) => Ok(measurable(members)),
        ItemShape::Module(None) => Err(Refusal::NoBody),
        ItemShape::Block(members) => Ok(measurable(members)),
        ItemShape::Other => Err(Refusal::NoFunctions),
    }
}

/// One field of a struct: its visibility, its name and its type, as written.
#[derive(Debug, PartialEq, Eq)]
pub struct FieldShape {
    pub visibility: String,
    pub name: String,
    pub ty: String,
}

impl Clone for FieldShape {
    fn clone(&self) -> (r: Self)
        ensures
            r == *self,
    {
        FieldShape {
            visibility: self.visibility.clone(),
            name: self.name.clone(),
            ty: self.ty.clone(),
        }
    }
}

/// What `#[track]` looks at in a struct. Its fields are there where they have
/// names.
#[derive(Debug, PartialEq, Eq)]
pub struct StructShape {
    pub ident: String,
    pub is_generic: bool,
    pub fields: Option<Vec<FieldShape>>,
}

/// What the code grows by for a tracked struct: a census field after the
/// author's own, a companion struct with the author's fields alone, a slot by
/// the struct's name, perhaps a measure of its size, and a constructor that
/// takes the companion apart by name.
#[derive(Debug, PartialEq, Eq)]
pub struct TrackPlan {
    /// What the census knows the type by.
    pub slot_name: String,
    /// The companion struct.
    pub fields_ident: String,
    /// The companion's doc comment.
    pub fields_doc: String,
    /// The companion's fields: the author's, as declared.
    pub companion: Vec<FieldShape>,
    /// The names the constructor takes out of the companion and puts into the
    /// struct.
    pub carried: Vec<String>,
    /// The fields of the struct itself: the author's, as declared, and after
    /// them the private census field. Its type stands in the probe crate.
    pub members: Vec<FieldShape>,
    /// The struct gets the size of its own memory for a measure. Useless for a
    /// type that owns heap, which says its own.
    pub measures_itself: bool,
}

/// The options hold one that `#[track]` does not have.
pub open spec fn track_misled(options: Seq<TrackMeta>) -> bool {
    exists|i: int| 0 <= i < options.len() && #[trigger] options[i] is Unknown
}

/// The plan is the one for that struct, which may say its own size.
pub open spec fn tracks(p: TrackPlan, item: StructShape, manual_measured: bool) -> bool {
    &&& item.fields matches Some(declared)
    &&& p.slot_name@ == item.ident@
    &&& p.members@.len() == declared@.len() + 1
    &&& forall|i: int| 0 <= i < declared@.len() ==> #[trigger] p.members@[i] == declared@[i]
    &&& p.members@.last().visibility@ == ""@
    &&& p.members@.last().name@ == CENSUS_FIELD@
    &&& p.members@.last().ty@ == "Census<"@ + item.ident@ + ">"@
    &&& p.fields_ident@ == item.ident@ + "Fields"@
    &&& p.fields_doc@ == "Every field of [`"@ + item.ident@ + "`] except the census one."@
    &&& p.companion@ == declared@
    &&& p.carried@.len() == declared@.len()
    &&& forall|i: int|
        0 <= i < declared@.len() ==> (#[trigger] p.carried@[i])@ == declared@[i].name@
    &&& p.measures_itself == !manual_measured
}

/// Counts live instances of a struct and their sizes.
///
/// Adds a private census field, so an instance is built through the generated
/// `new_tracked` constructor rather than a struct literal. The constructor
/// takes a generated `{Ident}Fields` struct rather than a parameter per field:
/// converting a literal then keeps every field written by name, and two
/// same-typed neighbours like `width` and `height` cannot swap on the way
/// through.
///
/// Takes `manual_measured` for a type that says its own size, which any type
/// owning a heap buffer should.
pub fn track(options: &Vec<TrackMeta>, item: &StructShape) -> (r: Result<TrackPlan, Refusal>)
    ensures
        match r {
            Ok(plan) => !track_misled(options@) && !item.is_generic && tracks(
                plan,
                *item,
                options@.len() > 0,
            ),
            Err(why) => if track_misled(options@) {
                why == Refusal::TrackOption
            } else if item.is_generic {
                why == Refusal::GenericStruct
            } else {
                why == Refusal::UnnamedFields && item.fields is None
            },
        },
{
    for n in 0..options.len()
        invariant
            forall|i: int| 0 <= i < n ==> !(#[trigger] options@[i] is Unknown),
    {
        if let TrackMeta::Unknown = options[n] {
            assert(options@[n as int] is Unknown);
            return Err(Refusal::TrackOption);
        }
    }
    expand_track(item, options.len() > 0)
}

/// What [`track`] comes to once its options are read.
pub fn expand_track(item: &StructShape, manual_measured: bool) -> (r: Result<TrackPlan, Refusal>)
    ensures
        match r {
            Ok(plan) => !item.is_generic && tracks(plan, *item, manual_measured),
            Err(why) => if item.is_generic {
                why == Refusal::GenericStruct
            } else {
                why == Refusal::UnnamedFields && item.fields is None
            },
        },
{
    if item.is_generic {
        return Err(Refusal::GenericStruct);
    }
    let declared = match &item.fields {
        Some(declared) => declared,
        None => return Err(Refusal::UnnamedFields),
    };
    let mut companion: Vec<FieldShape> = Vec::new();
    let mut members: Vec<FieldShape> = Vec::new();
    let mut carried: Vec<String> = Vec::new();
    for n in 0..declared.len()
        invariant
            members@ == declared@.take(n as int),
            companion@ == declared@.take(n as int),
            carried@.len() == n,
            forall|i: int| 0 <= i < n ==> (#[trigger] carried@[i])@ == declared@[i].name@,
    {
        companion.push(declared[n].clone());
        members.push(declared[n].clone());
        carried.push(declared[n].name.clone());
        proof {
            assert(companion@ =~= declared@.take(n + 1));
            assert(members@ =~= declared@.take(n + 1));
        }
    }
    members.push(
        FieldShape {
            visibility: "".to_owned(),
            name: CENSUS_FIELD.to_owned(),
            ty: "Census<".to_owned().concat(item.ident.as_str()).concat(">"),
        },
    );
    proof {
        assert(declared@.take(declared@.len() as int) =~= declared@);
    }
    Ok(
        TrackPlan {
            slot_name: item.ident.clone(),
            fields_ident: item.ident.clone().concat("Fields"),
            fields_doc: "Every field of [`".to_owned().concat(item.ident.as_str()).concat(
                "`] except the census one.",
            ),
            companion,
            carried,
            members,
            measures_itself: !manual_measured,
        },
    )
}

/// A place is listed exactly where its member gains `#[measure]`: whatever can
/// be measured in a module is, and nothing else is touched.
pub proof fn lemma_every_function_that_can_be_is_measured(members: Seq<Member>, place: usize)
    requires
        members.len() <= usize::MAX,
    ensures
        gaining(members).contains(place) == (place < members.len() && gains(
            members[place as int],
        )),
    decreases members.len(),
{
    if members.len() > 0 {
        let rest = members.drop_last();
        let before = gaining(rest);
        lemma_every_function_that_can_be_is_measured(rest, place);
        if place < rest.len() {
            assert(rest[place as int] == members[place as int]);
        }
        if gains(members.last()) {
            let all = gaining(members);
            assert(all[before.len() as int] == members.len() - 1);
            if before.contains(place) {
                let i = choose|i: int| 0 <= i < before.len() && before[i] == place;
                assert(all[i] == place);
            }
            if all.contains(place) {
                let i = choose|i: int| 0 <= i < all.len() && all[i] == place;
                if i < before.len() {
                    assert(before[i] == place);
                }
            }
        }
    }
}

/// The function as it stands once it has gained `#[measure]`.
pub open spec fn gained(f: FunctionShape, after: FunctionShape) -> bool {
    &&& after.is_async == f.is_async
    &&& after.is_const == f.is_const
    &&& after.attributes@.len() > 0
    &&& after.attributes@[0]@ == "measure"@
}

/// Measuring a module twice measures it once: a function that has gained
/// `#[measure]` gains no other.
pub proof fn lemma_measuring_twice_adds_nothing(f: FunctionShape, after: FunctionShape)
    requires
        gained(f, after),
    ensures
        !takes_measure(after),
{
    assert(after.attributes@[0]@ == "measure"@);
}

} // verus!
