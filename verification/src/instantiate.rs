//! Walking the class tree: every component becomes variables, equations and
//! connections under its instance path.
use crate::class::{
    ClassDef, ClassKind, Component, ComponentV, Deselect, Extends, MAX_DEPTH, Redeclare, RedeclareV,
    Scope, Variability,
};
use crate::expr::{kids, lemma_kids_smaller, told, with_kids, Expr, ExprV};
use crate::flat::{begins_with_all, Checks, Flat, FlatV};
use crate::folding::{const_eval, evaluated, Worths};
use crate::functions::{gathered_over, with_inherited_components};
use crate::inheritance::{
    find_said, inherited_class, inherited_of, inherited_parameters, parameters_from, said_of,
};
use crate::lookup::{class_named, find_class, lookup, meaning, Pairs, Registry};
use crate::names::{prefix_expr, prefixed_whole, undotted, without_dots, Naming, NamingV};
use crate::number::Number;
use crate::reading::{Here, HereV};
use crate::restrictions::{class_reach, nothing_reaches_inside, reach_told, ViewV};
use crate::scoping::{
    bind_outers, collect_inners, collect_records, copy_inners, effective_imports, in_force,
    inners_of, outers_bound, over, put_texts, records_of, InnerInstance, InnerV, Inners, Site,
    SiteV, Walk, WalkV, Written,
};
use crate::sameness::{alike, are_alike};
use crate::shapes::{measured_in, measured_sizes, prefixed_sizes, Lengths};
use crate::sums::{is_steady, sums_of, Arith, Sums, SumsV};
use crate::table::{all_prefixed, entered, overlaid, overlay, prefix_all, Table};
use crate::text::{
    begins_with, comes_before, cut_last, dot, dotted, holds, join2, join3, join5, join7, precedes,
    same, split_last, starts, texts, without_head,
};
use vstd::prelude::*;

verus! {

/// How often a round may be gone through that stops where nothing moves: more
/// often than there is anything to move.
pub const ROUNDS: u64 = 0xFFFF_FFFF_FFFF_FFFF;

/// What is handed down to a class where it is instantiated.
#[derive(Debug)]
pub struct Env<'e> {
    /// The values its modifiers give, in the terms of the flat model.
    pub overrides: &'e Vec<(String, Expr)>,
    /// How long what those values name is.
    pub handed_shapes: &'e Table<Vec<i64>>,
    /// How long the arrays of the class above are.
    pub outer_sizes: &'e Table<Vec<i64>>,
    pub redeclares: &'e Vec<Redeclare>,
    /// The shared instances in view.
    pub inners: &'e Vec<(String, InnerInstance)>,
    /// What a selective `extends` leaves out.
    pub broken: &'e Vec<Deselect>,
    pub inside_a_parameter: bool,
    /// The package the class was asked under, where that is known.
    pub mark: &'e Option<String>,
}

pub ghost struct EnvV {
    pub overrides: Seq<(Seq<char>, ExprV)>,
    pub handed_shapes: Lengths,
    pub outer_sizes: Lengths,
    pub redeclares: Seq<RedeclareV>,
    pub inners: Inners,
    pub broken: Seq<Deselect>,
    pub inside_a_parameter: bool,
    pub mark: Option<Seq<char>>,
}

impl<'e> DeepView for Env<'e> {
    type V = EnvV;

    open spec fn deep_view(&self) -> EnvV {
        EnvV {
            overrides: self.overrides.deep_view(),
            handed_shapes: self.handed_shapes.deep_view(),
            outer_sizes: self.outer_sizes.deep_view(),
            redeclares: self.redeclares.deep_view(),
            inners: self.inners.deep_view(),
            broken: self.broken@,
            inside_a_parameter: self.inside_a_parameter,
            mark: self.mark.deep_view(),
        }
    }
}

/// What is gathered on the way through a class tree.
#[derive(Debug)]
pub struct Course {
    pub flat: Flat,
    /// Which instances are classes in their own right, and of what.
    pub instances: Table<String>,
    /// The classes whose restrictions were asked after already.
    pub checked: Vec<String>,
    /// The bases that each instance path has taken in.
    pub extended: Vec<(String, String)>,
    /// What parameters turned out to be worth, in the order they did.
    pub numbers: Vec<(String, Number)>,
    /// The inputs that aliases and redeclarations filled in.
    pub filled: Vec<(String, Vec<(String, Expr)>)>,
    /// The constants that aliases gave a value.
    pub given: Vec<(String, Vec<(String, Expr)>)>,
    /// Checks that a body set aside for the class being instantiated.
    pub aside: Vec<(Expr, String)>,
}

pub ghost struct CourseV {
    pub flat: FlatV,
    pub instances: Map<Seq<char>, Seq<char>>,
    pub checked: Seq<Seq<char>>,
    pub extended: Seq<(Seq<char>, Seq<char>)>,
    pub numbers: Seq<(Seq<char>, Number)>,
    pub filled: Written,
    pub given: Written,
    pub aside: Checks,
}

impl DeepView for Course {
    type V = CourseV;

    open spec fn deep_view(&self) -> CourseV {
        CourseV {
            flat: self.flat.deep_view(),
            instances: self.instances.deep_view(),
            checked: texts(self.checked@),
            extended: self.extended.deep_view(),
            numbers: self.numbers.deep_view(),
            filled: self.filled.deep_view(),
            given: self.given.deep_view(),
            aside: self.aside.deep_view(),
        }
    }
}

/// What building the components of a class reads and adds to.
#[derive(Debug)]
pub struct Built {
    /// How much of the model's list of measured arrays has been read.
    pub taken: usize,
    /// The same for its list of settled numbers.
    pub counted: usize,
    /// Record-valued declarations: the name, the value, and whether it is
    /// already prefixed.
    pub record_values: Vec<(String, Expr, bool)>,
    /// Array lengths by the class's own names.
    pub sizes: Table<Vec<i64>>,
    /// The same by the instance path.
    pub sizes_here: Table<Vec<i64>>,
    /// Parameter values in view.
    pub local_consts: Table<Number>,
    /// Which `break` of a selective `extends` matched something.
    pub broke: Vec<bool>,
}

pub ghost struct BuiltV {
    pub taken: nat,
    pub counted: nat,
    pub record_values: Seq<(Seq<char>, ExprV, bool)>,
    pub sizes: Lengths,
    pub sizes_here: Lengths,
    pub local_consts: Worths,
    pub broke: Seq<bool>,
}

impl DeepView for Built {
    type V = BuiltV;

    open spec fn deep_view(&self) -> BuiltV {
        BuiltV {
            taken: self.taken as nat,
            counted: self.counted as nat,
            record_values: self.record_values.deep_view(),
            sizes: self.sizes.deep_view(),
            sizes_here: self.sizes_here.deep_view(),
            local_consts: self.local_consts.deep_view(),
            broke: self.broke@,
        }
    }
}

/// What names mean inside one class.
#[derive(Debug)]
pub struct Stand {
    pub scope: String,
    pub naming: Naming,
    pub imports: Vec<(String, String)>,
    /// The component names that a constant brought in wholesale may not stand
    /// in for.
    pub shadow: Vec<String>,
}

pub ghost struct StandV {
    pub scope: Seq<char>,
    pub naming: NamingV,
    pub imports: Pairs,
    pub shadow: Seq<Seq<char>>,
}

impl DeepView for Stand {
    type V = StandV;

    open spec fn deep_view(&self) -> StandV {
        StandV {
            scope: self.scope@,
            naming: self.naming.deep_view(),
            imports: self.imports.deep_view(),
            shadow: texts(self.shadow@),
        }
    }
}

/// What is known of a class before its components are built.
#[derive(Debug)]
pub struct Floor {
    pub stand: Stand,
    pub inners: Vec<(String, InnerInstance)>,
    pub redeclares: Vec<Redeclare>,
    /// What its `String` parameters are worth.
    pub local_texts: Table<String>,
    /// Which instances are records, of this class and of the whole model.
    pub records: Table<String>,
    pub records_wider: Table<String>,
    pub depth: usize,
}

pub ghost struct FloorV {
    pub stand: StandV,
    pub inners: Inners,
    pub redeclares: Seq<RedeclareV>,
    pub local_texts: Map<Seq<char>, Seq<char>>,
    pub records: Map<Seq<char>, Seq<char>>,
    pub records_wider: Map<Seq<char>, Seq<char>>,
    pub depth: nat,
}

impl DeepView for Floor {
    type V = FloorV;

    open spec fn deep_view(&self) -> FloorV {
        FloorV {
            stand: self.stand.deep_view(),
            inners: self.inners.deep_view(),
            redeclares: self.redeclares.deep_view(),
            local_texts: self.local_texts.deep_view(),
            records: self.records.deep_view(),
            records_wider: self.records_wider.deep_view(),
            depth: self.depth as nat,
        }
    }
}

/// What instantiating a class leans on, handed in by whoever knows.
///
/// `put` puts the constants of classes into an expression read in a scope;
/// `measure` is how long the arrays of a class are; `text` is the text an
/// expression comes to; `resolve` works calls out, with the checks that their
/// bodies set aside beside it, and `fold` what is written on texts; `kept`
/// objects to a class that is kept back and named from outside; `build`
/// instantiates the components of a class and `state` gathers what it states
/// outright; and `raise` works a check out, with the checks that working it out
/// left behind.
pub struct Building<A1, A2, A3, A4, A5, A6, A7, A8, A9> {
    pub put: A1,
    pub measure: A2,
    pub text: A3,
    pub resolve: A4,
    pub fold: A5,
    pub kept: A6,
    pub build: A7,
    pub state: A8,
    pub raise: A9,
    /// What they answer, mathematically.
    pub model: Ghost<BuildingV>,
}

/// The same, mathematically.
pub ghost struct BuildingV {
    pub put: spec_fn(ExprV, Seq<char>, Pairs, Seq<Seq<char>>) -> ExprV,
    pub measure: spec_fn(ClassDef, Worths, Seq<(Seq<char>, ExprV)>) -> Lengths,
    pub text: spec_fn(ExprV, Map<Seq<char>, Seq<char>>) -> Option<Seq<char>>,
    pub resolve: spec_fn(ExprV, Worths, Seq<char>, Pairs) -> (Result<ExprV, Seq<char>>, Checks),
    pub fold: spec_fn(ExprV, Map<Seq<char>, Seq<char>>, Worths) -> Result<ExprV, Seq<char>>,
    pub kept: spec_fn(ClassDef, Pairs) -> Option<Seq<char>>,
    pub build: spec_fn(ClassDef, EnvV, FloorV, CourseV, BuiltV) -> Result<(CourseV, BuiltV), Seq<char>>,
    pub state: spec_fn(ClassDef, EnvV, HereV, Lengths, BuiltV, CourseV) -> Result<(CourseV, Seq<bool>), Seq<char>>,
    pub raise: spec_fn(ExprV, HereV) -> Result<(ExprV, Checks), Seq<char>>,
}

/// Whether each of them may be asked anything, and answers as `m` says.
pub open spec fn builds_true_to<
    A1: Fn(&Expr, &str, &Vec<(String, String)>, &Vec<String>) -> Expr,
    A2: Fn(&ClassDef, &Table<Number>, &Vec<(String, Expr)>) -> Table<Vec<i64>>,
    A3: Fn(&Expr, &Table<String>) -> Option<String>,
    A4: Fn(&Expr, &Table<Number>, &str, &Vec<(String, String)>) -> (Result<Expr, String>, Vec<(Expr, String)>),
    A5: Fn(&Expr, &Table<String>, &Table<Number>) -> Result<Expr, String>,
    A6: Fn(&ClassDef, &Vec<(String, String)>) -> Option<String>,
    A7: Fn(&ClassDef, &Env, &Floor, Course, Built) -> Result<(Course, Built), String>,
    A8: Fn(&ClassDef, &Env, &Here, &Table<Vec<i64>>, &Built, Course) -> Result<(Course, Vec<bool>), String>,
    A9: Fn(&Expr, &Here) -> Result<(Expr, Vec<(Expr, String)>), String>,
>(
    put: A1,
    measure: A2,
    text: A3,
    resolve: A4,
    fold: A5,
    kept: A6,
    build: A7,
    state: A8,
    raise: A9,
    m: BuildingV,
) -> bool {
    &&& forall|
        e: &Expr,
        scope: &str,
        imports: &Vec<(String, String)>,
        shadow: &Vec<String>,
    | #[trigger] call_requires(put, (e, scope, imports, shadow))
    &&& forall|
        e: &Expr,
        scope: &str,
        imports: &Vec<(String, String)>,
        shadow: &Vec<String>,
        r: Expr,
    | #[trigger]
        call_ensures(
            put,
            (e, scope, imports, shadow),
            r,
        ) ==> r.deep_view() == (m.put)(e.deep_view(), scope@, imports.deep_view(), texts(shadow@))
    &&& forall|
        class: &ClassDef,
        consts: &Table<Number>,
        handed: &Vec<(String, Expr)>,
    | #[trigger] call_requires(measure, (class, consts, handed))
    &&& forall|
        class: &ClassDef,
        consts: &Table<Number>,
        handed: &Vec<(String, Expr)>,
        r: Table<Vec<i64>>,
    | #[trigger]
        call_ensures(
            measure,
            (class, consts, handed),
            r,
        ) ==> r.deep_view() == (m.measure)(*class, consts.deep_view(), handed.deep_view())
    &&& forall|e: &Expr, texts: &Table<String>| #[trigger] call_requires(text, (e, texts))
    &&& forall|e: &Expr, texts: &Table<String>, r: Option<String>| #[trigger]
        call_ensures(
            text,
            (e, texts),
            r,
        ) ==> r.deep_view() == (m.text)(e.deep_view(), texts.deep_view())
    &&& forall|
        e: &Expr,
        consts: &Table<Number>,
        scope: &str,
        imports: &Vec<(String, String)>,
    | #[trigger] call_requires(resolve, (e, consts, scope, imports))
    &&& forall|
        e: &Expr,
        consts: &Table<Number>,
        scope: &str,
        imports: &Vec<(String, String)>,
        r: (Result<Expr, String>, Vec<(Expr, String)>),
    | #[trigger]
        call_ensures(
            resolve,
            (e, consts, scope, imports),
            r,
        ) ==> (told(r.0), r.1.deep_view()) == (m.resolve)(e.deep_view(), consts.deep_view(), scope@, imports.deep_view())
    &&& forall|
        e: &Expr,
        texts: &Table<String>,
        consts: &Table<Number>,
    | #[trigger] call_requires(fold, (e, texts, consts))
    &&& forall|
        e: &Expr,
        texts: &Table<String>,
        consts: &Table<Number>,
        r: Result<Expr, String>,
    | #[trigger]
        call_ensures(
            fold,
            (e, texts, consts),
            r,
        ) ==> told(r) == (m.fold)(e.deep_view(), texts.deep_view(), consts.deep_view())
    &&& forall|
        class: &ClassDef,
        imports: &Vec<(String, String)>,
    | #[trigger] call_requires(kept, (class, imports))
    &&& forall|class: &ClassDef, imports: &Vec<(String, String)>, r: Option<String>| #[trigger]
        call_ensures(
            kept,
            (class, imports),
            r,
        ) ==> r.deep_view() == (m.kept)(*class, imports.deep_view())
    &&& forall|
        class: &ClassDef,
        env: &Env,
        floor: &Floor,
        course: Course,
        built: Built,
    | #[trigger] call_requires(build, (class, env, floor, course, built))
    &&& forall|
        class: &ClassDef,
        env: &Env,
        floor: &Floor,
        course: Course,
        built: Built,
        r: Result<(Course, Built), String>,
    | #[trigger]
        call_ensures(
            build,
            (class, env, floor, course, built),
            r,
        ) ==> told(r) == (m.build)(*class, env.deep_view(), floor.deep_view(), course.deep_view(), built.deep_view())
    &&& forall|
        class: &ClassDef,
        env: &Env,
        here: &Here,
        sizes: &Table<Vec<i64>>,
        built: &Built,
        course: Course,
    | #[trigger] call_requires(state, (class, env, here, sizes, built, course))
    &&& forall|
        class: &ClassDef,
        env: &Env,
        here: &Here,
        sizes: &Table<Vec<i64>>,
        built: &Built,
        course: Course,
        r: Result<(Course, Vec<bool>), String>,
    | #[trigger]
        call_ensures(
            state,
            (class, env, here, sizes, built, course),
            r,
        ) ==> told(r) == (m.state)(*class, env.deep_view(), here.deep_view(), sizes.deep_view(), built.deep_view(), course.deep_view())
    &&& forall|e: &Expr, here: &Here| #[trigger] call_requires(raise, (e, here))
    &&& forall|e: &Expr, here: &Here, r: Result<(Expr, Vec<(Expr, String)>), String>| #[trigger]
        call_ensures(raise, (e, here), r) ==> told(r) == (m.raise)(e.deep_view(), here.deep_view())
}

/// Whether each of them may be asked anything, and answers as its model says.
pub open spec fn builds_true<
    A1: Fn(&Expr, &str, &Vec<(String, String)>, &Vec<String>) -> Expr,
    A2: Fn(&ClassDef, &Table<Number>, &Vec<(String, Expr)>) -> Table<Vec<i64>>,
    A3: Fn(&Expr, &Table<String>) -> Option<String>,
    A4: Fn(&Expr, &Table<Number>, &str, &Vec<(String, String)>) -> (Result<Expr, String>, Vec<(Expr, String)>),
    A5: Fn(&Expr, &Table<String>, &Table<Number>) -> Result<Expr, String>,
    A6: Fn(&ClassDef, &Vec<(String, String)>) -> Option<String>,
    A7: Fn(&ClassDef, &Env, &Floor, Course, Built) -> Result<(Course, Built), String>,
    A8: Fn(&ClassDef, &Env, &Here, &Table<Vec<i64>>, &Built, Course) -> Result<(Course, Vec<bool>), String>,
    A9: Fn(&Expr, &Here) -> Result<(Expr, Vec<(Expr, String)>), String>,
>(s: Building<A1, A2, A3, A4, A5, A6, A7, A8, A9>) -> bool {
    builds_true_to(
        s.put,
        s.measure,
        s.text,
        s.resolve,
        s.fold,
        s.kept,
        s.build,
        s.state,
        s.raise,
        s.model@,
    )
}

/// What they answer, mathematically.
pub open spec fn building_of<
    A1: Fn(&Expr, &str, &Vec<(String, String)>, &Vec<String>) -> Expr,
    A2: Fn(&ClassDef, &Table<Number>, &Vec<(String, Expr)>) -> Table<Vec<i64>>,
    A3: Fn(&Expr, &Table<String>) -> Option<String>,
    A4: Fn(&Expr, &Table<Number>, &str, &Vec<(String, String)>) -> (Result<Expr, String>, Vec<(Expr, String)>),
    A5: Fn(&Expr, &Table<String>, &Table<Number>) -> Result<Expr, String>,
    A6: Fn(&ClassDef, &Vec<(String, String)>) -> Option<String>,
    A7: Fn(&ClassDef, &Env, &Floor, Course, Built) -> Result<(Course, Built), String>,
    A8: Fn(&ClassDef, &Env, &Here, &Table<Vec<i64>>, &Built, Course) -> Result<(Course, Vec<bool>), String>,
    A9: Fn(&Expr, &Here) -> Result<(Expr, Vec<(Expr, String)>), String>,
>(s: Building<A1, A2, A3, A4, A5, A6, A7, A8, A9>) -> BuildingV {
    s.model@
}

impl<
    A1: Fn(&Expr, &str, &Vec<(String, String)>, &Vec<String>) -> Expr,
    A2: Fn(&ClassDef, &Table<Number>, &Vec<(String, Expr)>) -> Table<Vec<i64>>,
    A3: Fn(&Expr, &Table<String>) -> Option<String>,
    A4: Fn(&Expr, &Table<Number>, &str, &Vec<(String, String)>) -> (Result<Expr, String>, Vec<(Expr, String)>),
    A5: Fn(&Expr, &Table<String>, &Table<Number>) -> Result<Expr, String>,
    A6: Fn(&ClassDef, &Vec<(String, String)>) -> Option<String>,
    A7: Fn(&ClassDef, &Env, &Floor, Course, Built) -> Result<(Course, Built), String>,
    A8: Fn(&ClassDef, &Env, &Here, &Table<Vec<i64>>, &Built, Course) -> Result<(Course, Vec<bool>), String>,
    A9: Fn(&Expr, &Here) -> Result<(Expr, Vec<(Expr, String)>), String>,
> Building<A1, A2, A3, A4, A5, A6, A7, A8, A9> {
    /// The bundle of such functions, where there is anything they answer at all.
    pub fn new(
        put: A1,
        measure: A2,
        text: A3,
        resolve: A4,
        fold: A5,
        kept: A6,
        build: A7,
        state: A8,
        raise: A9,
        ) -> (r: Self)
        requires
            exists|m: BuildingV| #[trigger] builds_true_to(
                put,
                measure,
                text,
                resolve,
                fold,
                kept,
                build,
                state,
                raise,
                m,
            ),
        ensures
            builds_true(r),
            r.put == put,
            r.measure == measure,
            r.text == text,
            r.resolve == resolve,
            r.fold == fold,
            r.kept == kept,
            r.build == build,
            r.state == state,
            r.raise == raise,
    {
        Building {
            put,
            measure,
            text,
            resolve,
            fold,
            kept,
            build,
            state,
            raise,
            model: Ghost(choose|m: BuildingV| #[trigger] builds_true_to(put, measure, text, resolve, fold, kept, build, state, raise, m)),
        }
    }

    pub fn do_put(
        &self,
        e: &Expr,
        scope: &str,
        imports: &Vec<(String, String)>,
        shadow: &Vec<String>,
    ) -> (r: Expr)
        requires
            builds_true(*self),
        ensures
            r.deep_view() == (building_of(*self).put)(e.deep_view(), scope@, imports.deep_view(), texts(shadow@)),
    {
        let f = &self.put;
        f(e, scope, imports, shadow)
    }

    pub fn do_measure(
        &self,
        class: &ClassDef,
        consts: &Table<Number>,
        handed: &Vec<(String, Expr)>,
    ) -> (r: Table<Vec<i64>>)
        requires
            builds_true(*self),
        ensures
            r.deep_view() == (building_of(*self).measure)(*class, consts.deep_view(), handed.deep_view()),
    {
        let f = &self.measure;
        f(class, consts, handed)
    }

    pub fn do_text(&self, e: &Expr, texts: &Table<String>) -> (r: Option<String>)
        requires
            builds_true(*self),
        ensures
            r.deep_view() == (building_of(*self).text)(e.deep_view(), texts.deep_view()),
    {
        let f = &self.text;
        f(e, texts)
    }

    pub fn do_resolve(
        &self,
        e: &Expr,
        consts: &Table<Number>,
        scope: &str,
        imports: &Vec<(String, String)>,
    ) -> (r: (Result<Expr, String>, Vec<(Expr, String)>))
        requires
            builds_true(*self),
        ensures
            (told(r.0), r.1.deep_view()) == (building_of(*self).resolve)(e.deep_view(), consts.deep_view(), scope@, imports.deep_view()),
    {
        let f = &self.resolve;
        f(e, consts, scope, imports)
    }

    pub fn do_fold(
        &self,
        e: &Expr,
        texts: &Table<String>,
        consts: &Table<Number>,
    ) -> (r: Result<Expr, String>)
        requires
            builds_true(*self),
        ensures
            told(
                r,
            ) == (building_of(*self).fold)(e.deep_view(), texts.deep_view(), consts.deep_view()),
    {
        let f = &self.fold;
        f(e, texts, consts)
    }

    pub fn do_kept(&self, class: &ClassDef, imports: &Vec<(String, String)>) -> (r: Option<String>)
        requires
            builds_true(*self),
        ensures
            r.deep_view() == (building_of(*self).kept)(*class, imports.deep_view()),
    {
        let f = &self.kept;
        f(class, imports)
    }

    pub fn do_build(
        &self,
        class: &ClassDef,
        env: &Env,
        floor: &Floor,
        course: Course,
        built: Built,
    ) -> (r: Result<(Course, Built), String>)
        requires
            builds_true(*self),
        ensures
            told(
                r,
            ) == (building_of(*self).build)(*class, env.deep_view(), floor.deep_view(), course.deep_view(), built.deep_view()),
    {
        let f = &self.build;
        f(class, env, floor, course, built)
    }

    pub fn do_state(
        &self,
        class: &ClassDef,
        env: &Env,
        here: &Here,
        sizes: &Table<Vec<i64>>,
        built: &Built,
        course: Course,
    ) -> (r: Result<(Course, Vec<bool>), String>)
        requires
            builds_true(*self),
        ensures
            told(
                r,
            ) == (building_of(*self).state)(*class, env.deep_view(), here.deep_view(), sizes.deep_view(), built.deep_view(), course.deep_view()),
    {
        let f = &self.state;
        f(class, env, here, sizes, built, course)
    }

    pub fn do_raise(
        &self,
        e: &Expr,
        here: &Here,
    ) -> (r: Result<(Expr, Vec<(Expr, String)>), String>)
        requires
            builds_true(*self),
        ensures
            told(r) == (building_of(*self).raise)(e.deep_view(), here.deep_view()),
    {
        let f = &self.raise;
        f(e, here)
    }
}

/// What is the same for every class of a tree.
#[derive(Debug)]
pub struct Ground<'q, 'a> {
    pub registry: &'q Registry<'a>,
    /// Constants that are names of the flat model already.
    pub minted: &'q Vec<String>,
    /// Whether what a redeclaration filled in takes the prefix a second time.
    pub twice: bool,
}

pub ghost struct GroundV<'a> {
    pub h: BuildingV,
    pub v: SumsV,
    pub classes: Seq<&'a ClassDef>,
    pub minted: Seq<Seq<char>>,
    pub twice: bool,
}

pub open spec fn ground_of<'q, 'a,
    A1: Fn(&Expr, &str, &Vec<(String, String)>, &Vec<String>) -> Expr,
    A2: Fn(&ClassDef, &Table<Number>, &Vec<(String, Expr)>) -> Table<Vec<i64>>,
    A3: Fn(&Expr, &Table<String>) -> Option<String>,
    A4: Fn(&Expr, &Table<Number>, &str, &Vec<(String, String)>) -> (Result<Expr, String>, Vec<(Expr, String)>),
    A5: Fn(&Expr, &Table<String>, &Table<Number>) -> Result<Expr, String>,
    A6: Fn(&ClassDef, &Vec<(String, String)>) -> Option<String>,
    A7: Fn(&ClassDef, &Env, &Floor, Course, Built) -> Result<(Course, Built), String>,
    A8: Fn(&ClassDef, &Env, &Here, &Table<Vec<i64>>, &Built, Course) -> Result<(Course, Vec<bool>), String>,
    A9: Fn(&Expr, &Here) -> Result<(Expr, Vec<(Expr, String)>), String>,
    W: Fn(Arith, Number, Number) -> Number,
    O: Fn(&str, &Vec<Number>) -> Option<Vec<Number>>,
    N: Fn(&str) -> String,
>(
    h: Building<A1, A2, A3, A4, A5, A6, A7, A8, A9>,
    sums: Sums<W, O, N>,
    q: Ground<'q, 'a>,
) -> GroundV<'a> {
    GroundV {
        h: building_of(h),
        v: sums_of(sums),
        classes: q.registry@,
        minted: texts(q.minted@),
        twice: q.twice,
    }
}

/// A value written inside a class, in the terms of the flat model.
pub open spec fn put_here(g: GroundV, s: StandV, e: ExprV) -> ExprV {
    prefixed_whole((g.h.put)(e, s.scope, s.imports, s.shadow), s.naming)
}

fn write_here<
    A1: Fn(&Expr, &str, &Vec<(String, String)>, &Vec<String>) -> Expr,
    A2: Fn(&ClassDef, &Table<Number>, &Vec<(String, Expr)>) -> Table<Vec<i64>>,
    A3: Fn(&Expr, &Table<String>) -> Option<String>,
    A4: Fn(&Expr, &Table<Number>, &str, &Vec<(String, String)>) -> (Result<Expr, String>, Vec<(Expr, String)>),
    A5: Fn(&Expr, &Table<String>, &Table<Number>) -> Result<Expr, String>,
    A6: Fn(&ClassDef, &Vec<(String, String)>) -> Option<String>,
    A7: Fn(&ClassDef, &Env, &Floor, Course, Built) -> Result<(Course, Built), String>,
    A8: Fn(&ClassDef, &Env, &Here, &Table<Vec<i64>>, &Built, Course) -> Result<(Course, Vec<bool>), String>,
    A9: Fn(&Expr, &Here) -> Result<(Expr, Vec<(Expr, String)>), String>,
    W: Fn(Arith, Number, Number) -> Number,
    O: Fn(&str, &Vec<Number>) -> Option<Vec<Number>>,
    N: Fn(&str) -> String,
>(
    h: &Building<A1, A2, A3, A4, A5, A6, A7, A8, A9>,
    sums: &Sums<W, O, N>,
    q: &Ground,
    s: &Stand,
    e: &Expr,
) -> (r: Expr)
    requires
        builds_true(*h),
        is_steady(*sums),
    ensures
        r.deep_view() == put_here(ground_of(*h, *sums, *q), s.deep_view(), e.deep_view()),
{
    let made = h.do_put(e, s.scope.as_str(), &s.imports, &s.shadow);
    prefix_expr(&made, &s.naming)
}

/// What a declaration is given: what was handed down, or what it says itself.
pub open spec fn own_value(binding: Option<ExprV>, start: Option<ExprV>) -> Option<ExprV> {
    match binding {
        Some(value) => Some(value),
        None => start,
    }
}

pub fn find_own<'c>(c: &'c Component) -> (r: Option<&'c Expr>)
    ensures
        match r {
            Some(e) => own_value(c.binding.deep_view(), c.start.deep_view()) == Some(
                e.deep_view(),
            ),
            None => own_value(c.binding.deep_view(), c.start.deep_view()) is None,
        },
{
    match &c.binding {
        Some(value) => Some(value),
        None => match &c.start {
            Some(value) => Some(value),
            None => None,
        },
    }
}

/// What a list of modifiers, or else the declaration itself, gives a
/// declaration.
pub open spec fn value_said(said: Seq<(Seq<char>, ExprV)>, c: ComponentV) -> Option<ExprV> {
    match said_of(said, c.name) {
        Some(value) => Some(value),
        None => own_value(c.binding, c.start),
    }
}

fn find_value<'c>(said: &'c Vec<(String, Expr)>, c: &'c Component) -> (r: Option<&'c Expr>)
    ensures
        match r {
            Some(e) => value_said(said.deep_view(), c.deep_view()) == Some(e.deep_view()),
            None => value_said(said.deep_view(), c.deep_view()) is None,
        },
{
    match find_said(said, c.name.as_str()) {
        Some(value) => Some(value),
        None => find_own(c),
    }
}

/// Whether a declaration is settled before the run.
pub open spec fn is_fixed(v: Variability) -> bool {
    v == Variability::Parameter || v == Variability::Constant
}

/// Every modifier of a redeclaration in the terms of the flat model.
pub open spec fn all_put(
    g: GroundV,
    list: Seq<(Seq<char>, ExprV)>,
    s: StandV,
) -> Seq<(Seq<char>, ExprV)> {
    Seq::new(list.len(), |i: int| (list[i].0, put_here(g, s, list[i].1)))
}

fn put_all<
    A1: Fn(&Expr, &str, &Vec<(String, String)>, &Vec<String>) -> Expr,
    A2: Fn(&ClassDef, &Table<Number>, &Vec<(String, Expr)>) -> Table<Vec<i64>>,
    A3: Fn(&Expr, &Table<String>) -> Option<String>,
    A4: Fn(&Expr, &Table<Number>, &str, &Vec<(String, String)>) -> (Result<Expr, String>, Vec<(Expr, String)>),
    A5: Fn(&Expr, &Table<String>, &Table<Number>) -> Result<Expr, String>,
    A6: Fn(&ClassDef, &Vec<(String, String)>) -> Option<String>,
    A7: Fn(&ClassDef, &Env, &Floor, Course, Built) -> Result<(Course, Built), String>,
    A8: Fn(&ClassDef, &Env, &Here, &Table<Vec<i64>>, &Built, Course) -> Result<(Course, Vec<bool>), String>,
    A9: Fn(&Expr, &Here) -> Result<(Expr, Vec<(Expr, String)>), String>,
    W: Fn(Arith, Number, Number) -> Number,
    O: Fn(&str, &Vec<Number>) -> Option<Vec<Number>>,
    N: Fn(&str) -> String,
>(
    h: &Building<A1, A2, A3, A4, A5, A6, A7, A8, A9>,
    sums: &Sums<W, O, N>,
    q: &Ground,
    list: &Vec<(String, Expr)>,
    s: &Stand,
) -> (r: Vec<(String, Expr)>)
    requires
        builds_true(*h),
        is_steady(*sums),
    ensures
        r.deep_view() == all_put(ground_of(*h, *sums, *q), list.deep_view(), s.deep_view()),
{
    let ghost g = ground_of(*h, *sums, *q);
    let ghost sv = s.deep_view();
    let ghost whole = all_put(g, list.deep_view(), sv);
    let mut out: Vec<(String, Expr)> = Vec::new();
    let mut i: usize = 0;
    assert(out.deep_view() =~= whole.take(0));
    while i < list.len()
        invariant
            i <= list.len(),
            builds_true(*h),
            is_steady(*sums),
            g == ground_of(*h, *sums, *q),
            sv == s.deep_view(),
            whole == all_put(g, list.deep_view(), sv),
            out.deep_view() == whole.take(i as int),
        decreases list.len() - i,
    {
        let ghost before = out.deep_view();
        assert(list.deep_view()[i as int] == list@[i as int].deep_view());
        out.push((list[i].0.clone(), write_here(h, sums, q, s, &list[i].1)));
        assert(out.deep_view() =~= before.push(whole[i as int]));
        assert(before.push(whole[i as int]) =~= whole.take(i + 1));
        i = i + 1;
    }
    assert(whole.take(i as int) =~= whole);
    out
}

/// Where a redeclaration is read: under the class's own imports, with nothing
/// standing before the constants.
pub open spec fn bare_stand(class: ClassDef, naming: NamingV) -> StandV {
    StandV {
        scope: class.name@,
        naming,
        imports: class.imports.deep_view(),
        shadow: Seq::empty(),
    }
}

fn copy_naming(n: &Naming) -> (r: Naming)
    ensures
        r.deep_view() == n.deep_view(),
{
    let mut outers: Table<String> = Table::new();
    put_texts(&mut outers, &n.outers);
    assert(outers.deep_view() =~= n.outers.deep_view());
    Naming {
        prefix: n.prefix.clone(),
        outers,
        minted: copy_texts(&n.minted),
    }
}

/// A copy of a list of texts.
pub fn copy_texts(list: &Vec<String>) -> (r: Vec<String>)
    ensures
        texts(r@) == texts(list@),
{
    let mut out: Vec<String> = Vec::new();
    let mut i: usize = 0;
    while i < list.len()
        invariant
            i <= list.len(),
            out.len() == i,
            forall|k: int| 0 <= k < i ==> (#[trigger] out@[k])@ == list@[k]@,
        decreases list.len() - i,
    {
        out.push(list[i].clone());
        i = i + 1;
    }
    assert(texts(out@) =~= texts(list@));
    out
}

fn make_bare_stand(class: &ClassDef, naming: &Naming) -> (r: Stand)
    ensures
        r.deep_view() == bare_stand(*class, naming.deep_view()),
{
    let shadow: Vec<String> = Vec::new();
    assert(texts(shadow@) =~= Seq::empty());
    Stand {
        scope: class.name.clone(),
        naming: copy_naming(naming),
        imports: crate::inheritance::same_pairs(&class.imports),
        shadow,
    }
}

/// A redeclaration written for use further down: its type is resolved where
/// it is written, and its modifiers are in the terms of the flat model.
pub open spec fn qualified(
    g: GroundV,
    redeclare: RedeclareV,
    class: ClassDef,
    naming: NamingV,
) -> Result<RedeclareV, Seq<char>> {
    match meaning(g.classes, redeclare.of_type, class.name@, class.imports.deep_view()) {
        None => Err(
            "unknown type `"@ + redeclare.of_type + "` in the redeclaration of `"@ + redeclare.name
                + "`"@,
        ),
        Some(target) => Ok(
            RedeclareV {
                name: redeclare.name,
                of_type: target.name@,
                class_level: redeclare.class_level,
                modifiers: all_put(g, redeclare.modifiers, bare_stand(class, naming)),
            },
        ),
    }
}

/// Prepare a redeclaration for use further down: its type is resolved in the
/// scope where the redeclaration is written, and its modifier expressions are
/// prefixed with the instance path they belong to.
pub fn qualify_redeclare<
    A1: Fn(&Expr, &str, &Vec<(String, String)>, &Vec<String>) -> Expr,
    A2: Fn(&ClassDef, &Table<Number>, &Vec<(String, Expr)>) -> Table<Vec<i64>>,
    A3: Fn(&Expr, &Table<String>) -> Option<String>,
    A4: Fn(&Expr, &Table<Number>, &str, &Vec<(String, String)>) -> (Result<Expr, String>, Vec<(Expr, String)>),
    A5: Fn(&Expr, &Table<String>, &Table<Number>) -> Result<Expr, String>,
    A6: Fn(&ClassDef, &Vec<(String, String)>) -> Option<String>,
    A7: Fn(&ClassDef, &Env, &Floor, Course, Built) -> Result<(Course, Built), String>,
    A8: Fn(&ClassDef, &Env, &Here, &Table<Vec<i64>>, &Built, Course) -> Result<(Course, Vec<bool>), String>,
    A9: Fn(&Expr, &Here) -> Result<(Expr, Vec<(Expr, String)>), String>,
    W: Fn(Arith, Number, Number) -> Number,
    O: Fn(&str, &Vec<Number>) -> Option<Vec<Number>>,
    N: Fn(&str) -> String,
>(
    h: &Building<A1, A2, A3, A4, A5, A6, A7, A8, A9>,
    sums: &Sums<W, O, N>,
    q: &Ground,
    redeclare: &Redeclare,
    class: &ClassDef,
    naming: &Naming,
) -> (r: Result<Redeclare, String>)
    requires
        builds_true(*h),
        is_steady(*sums),
    ensures
        told(r) == qualified(
            ground_of(*h, *sums, *q),
            redeclare.deep_view(),
            *class,
            naming.deep_view(),
        ),
{
    match lookup(
        q.registry,
        redeclare.of_type.as_str(),
        class.name.as_str(),
        &class.imports,
    ) {
        None => Err(
            join5(
                "unknown type `",
                redeclare.of_type.as_str(),
                "` in the redeclaration of `",
                redeclare.name.as_str(),
                "`",
            ),
        ),
        Some(target) => {
            let s = make_bare_stand(class, naming);
            Ok(
                Redeclare {
                    name: redeclare.name.clone(),
                    of_type: target.name.clone(),
                    modifiers: put_all(h, sums, q, &redeclare.modifiers, &s),
                    class_level: redeclare.class_level,
                },
            )
        },
    }
}

/// The redeclarations among the first `n` declarations of a class, written for
/// use further down.
pub open spec fn own_redeclared(
    g: GroundV,
    class: ClassDef,
    naming: NamingV,
    n: nat,
) -> Result<Seq<RedeclareV>, Seq<char>>
    decreases n,
{
    if n == 0 || n > class.components@.len() {
        Ok(Seq::empty())
    } else {
        match own_redeclared(g, class, naming, (n - 1) as nat) {
            Err(why) => Err(why),
            Ok(before) => {
                let c = class.components@[n - 1].deep_view();
                if c.redeclaration {
                    match qualified(
                        g,
                        RedeclareV {
                            name: c.name,
                            of_type: c.of_type,
                            modifiers: c.modifiers,
                            class_level: false,
                        },
                        class,
                        naming,
                    ) {
                        Err(why) => Err(why),
                        Ok(made) => Ok(before.push(made)),
                    }
                } else {
                    Ok(before)
                }
            },
        }
    }
}

proof fn lemma_own_redeclared_stops(g: GroundV, class: ClassDef, naming: NamingV, n: nat, all: nat)
    requires
        n <= all <= class.components@.len(),
        own_redeclared(g, class, naming, n) is Err,
    ensures
        own_redeclared(g, class, naming, all) == own_redeclared(g, class, naming, n),
    decreases all,
{
    if n < all {
        lemma_own_redeclared_stops(g, class, naming, n, (all - 1) as nat);
    }
}

fn redeclare_own<
    A1: Fn(&Expr, &str, &Vec<(String, String)>, &Vec<String>) -> Expr,
    A2: Fn(&ClassDef, &Table<Number>, &Vec<(String, Expr)>) -> Table<Vec<i64>>,
    A3: Fn(&Expr, &Table<String>) -> Option<String>,
    A4: Fn(&Expr, &Table<Number>, &str, &Vec<(String, String)>) -> (Result<Expr, String>, Vec<(Expr, String)>),
    A5: Fn(&Expr, &Table<String>, &Table<Number>) -> Result<Expr, String>,
    A6: Fn(&ClassDef, &Vec<(String, String)>) -> Option<String>,
    A7: Fn(&ClassDef, &Env, &Floor, Course, Built) -> Result<(Course, Built), String>,
    A8: Fn(&ClassDef, &Env, &Here, &Table<Vec<i64>>, &Built, Course) -> Result<(Course, Vec<bool>), String>,
    A9: Fn(&Expr, &Here) -> Result<(Expr, Vec<(Expr, String)>), String>,
    W: Fn(Arith, Number, Number) -> Number,
    O: Fn(&str, &Vec<Number>) -> Option<Vec<Number>>,
    N: Fn(&str) -> String,
>(
    h: &Building<A1, A2, A3, A4, A5, A6, A7, A8, A9>,
    sums: &Sums<W, O, N>,
    q: &Ground,
    class: &ClassDef,
    naming: &Naming,
) -> (r: Result<Vec<Redeclare>, String>)
    requires
        builds_true(*h),
        is_steady(*sums),
    ensures
        told(r) == own_redeclared(
            ground_of(*h, *sums, *q),
            *class,
            naming.deep_view(),
            class.components@.len(),
        ),
{
    let ghost g = ground_of(*h, *sums, *q);
    let ghost nv = naming.deep_view();
    let mut out: Vec<Redeclare> = Vec::new();
    let mut i: usize = 0;
    assert(out.deep_view() =~= Seq::empty());
    while i < class.components.len()
        invariant
            i <= class.components.len(),
            builds_true(*h),
            is_steady(*sums),
            g == ground_of(*h, *sums, *q),
            nv == naming.deep_view(),
            told(Ok::<Vec<Redeclare>, String>(out)) == own_redeclared(g, *class, nv, i as nat),
        decreases class.components.len() - i,
    {
        let ghost before = out.deep_view();
        let c = &class.components[i];
        if c.redeclaration {
            let written = Redeclare {
                name: c.name.clone(),
                of_type: c.of_type.clone(),
                modifiers: crate::class::copied_named(&c.modifiers),
                class_level: false,
            };
            match qualify_redeclare(h, sums, q, &written, class, naming) {
                Ok(made) => {
                    let ghost mv = made.deep_view();
                    out.push(made);
                    assert(out.deep_view() =~= before.push(mv));
                },
                Err(why) => {
                    proof {
                        lemma_own_redeclared_stops(
                            g,
                            *class,
                            nv,
                            (i + 1) as nat,
                            class.components@.len(),
                        );
                    }
                    return Err(why);
                },
            }
        }
        i = i + 1;
    }
    Ok(out)
}

/// Every one of a list of redeclarations, written for use further down.
pub open spec fn all_qualified(
    g: GroundV,
    list: Seq<Redeclare>,
    class: ClassDef,
    naming: NamingV,
    n: nat,
) -> Result<Seq<RedeclareV>, Seq<char>>
    decreases n,
{
    if n == 0 || n > list.len() {
        Ok(Seq::empty())
    } else {
        match all_qualified(g, list, class, naming, (n - 1) as nat) {
            Err(why) => Err(why),
            Ok(before) => match qualified(g, list[n - 1].deep_view(), class, naming) {
                Err(why) => Err(why),
                Ok(made) => Ok(before.push(made)),
            },
        }
    }
}

proof fn lemma_all_qualified_stops(
    g: GroundV,
    list: Seq<Redeclare>,
    class: ClassDef,
    naming: NamingV,
    n: nat,
    all: nat,
)
    requires
        n <= all <= list.len(),
        all_qualified(g, list, class, naming, n) is Err,
    ensures
        all_qualified(g, list, class, naming, all) == all_qualified(g, list, class, naming, n),
    decreases all,
{
    if n < all {
        lemma_all_qualified_stops(g, list, class, naming, n, (all - 1) as nat);
    }
}

fn qualify_all<
    A1: Fn(&Expr, &str, &Vec<(String, String)>, &Vec<String>) -> Expr,
    A2: Fn(&ClassDef, &Table<Number>, &Vec<(String, Expr)>) -> Table<Vec<i64>>,
    A3: Fn(&Expr, &Table<String>) -> Option<String>,
    A4: Fn(&Expr, &Table<Number>, &str, &Vec<(String, String)>) -> (Result<Expr, String>, Vec<(Expr, String)>),
    A5: Fn(&Expr, &Table<String>, &Table<Number>) -> Result<Expr, String>,
    A6: Fn(&ClassDef, &Vec<(String, String)>) -> Option<String>,
    A7: Fn(&ClassDef, &Env, &Floor, Course, Built) -> Result<(Course, Built), String>,
    A8: Fn(&ClassDef, &Env, &Here, &Table<Vec<i64>>, &Built, Course) -> Result<(Course, Vec<bool>), String>,
    A9: Fn(&Expr, &Here) -> Result<(Expr, Vec<(Expr, String)>), String>,
    W: Fn(Arith, Number, Number) -> Number,
    O: Fn(&str, &Vec<Number>) -> Option<Vec<Number>>,
    N: Fn(&str) -> String,
>(
    h: &Building<A1, A2, A3, A4, A5, A6, A7, A8, A9>,
    sums: &Sums<W, O, N>,
    q: &Ground,
    list: &Vec<Redeclare>,
    class: &ClassDef,
    naming: &Naming,
) -> (r: Result<Vec<Redeclare>, String>)
    requires
        builds_true(*h),
        is_steady(*sums),
    ensures
        told(r) == all_qualified(
            ground_of(*h, *sums, *q),
            list@,
            *class,
            naming.deep_view(),
            list@.len(),
        ),
{
    let ghost g = ground_of(*h, *sums, *q);
    let ghost nv = naming.deep_view();
    let mut out: Vec<Redeclare> = Vec::new();
    let mut i: usize = 0;
    assert(out.deep_view() =~= Seq::empty());
    while i < list.len()
        invariant
            i <= list.len(),
            builds_true(*h),
            is_steady(*sums),
            g == ground_of(*h, *sums, *q),
            nv == naming.deep_view(),
            told(Ok::<Vec<Redeclare>, String>(out)) == all_qualified(
                g,
                list@,
                *class,
                nv,
                i as nat,
            ),
        decreases list.len() - i,
    {
        let ghost before = out.deep_view();
        match qualify_redeclare(h, sums, q, &list[i], class, naming) {
            Ok(made) => {
                let ghost mv = made.deep_view();
                out.push(made);
                assert(out.deep_view() =~= before.push(mv));
            },
            Err(why) => {
                proof {
                    lemma_all_qualified_stops(g, list@, *class, nv, (i + 1) as nat, list@.len());
                }
                return Err(why);
            },
        }
        i = i + 1;
    }
    Ok(out)
}

/// The redeclarations with those that the first `n` aliases of a class are.
pub open spec fn body_redeclared(
    g: GroundV,
    class: ClassDef,
    start: Seq<RedeclareV>,
    n: nat,
) -> Result<Seq<RedeclareV>, Seq<char>>
    decreases n,
{
    if n == 0 || n > class.class_aliases@.len() {
        Ok(start)
    } else {
        match body_redeclared(g, class, start, (n - 1) as nat) {
            Err(why) => Err(why),
            Ok(before) => {
                let alias = class.class_aliases@[n - 1];
                if alias.redeclaration {
                    match meaning(
                        g.classes,
                        alias.target@,
                        class.name@,
                        class.imports.deep_view(),
                    ) {
                        None => Err(
                            "unknown class `"@ + alias.target@ + "` in the redeclaration of `"@
                                + alias.name@ + "`"@,
                        ),
                        Some(target) => Ok(
                            before.push(
                                RedeclareV {
                                    name: alias.name@,
                                    of_type: target.name@,
                                    modifiers: alias.modifiers.deep_view(),
                                    class_level: true,
                                },
                            ),
                        ),
                    }
                } else {
                    Ok(before)
                }
            },
        }
    }
}

proof fn lemma_body_redeclared_stops(
    g: GroundV,
    class: ClassDef,
    start: Seq<RedeclareV>,
    n: nat,
    all: nat,
)
    requires
        n <= all <= class.class_aliases@.len(),
        body_redeclared(g, class, start, n) is Err,
    ensures
        body_redeclared(g, class, start, all) == body_redeclared(g, class, start, n),
    decreases all,
{
    if n < all {
        lemma_body_redeclared_stops(g, class, start, n, (all - 1) as nat);
    }
}

fn redeclare_body<
    A1: Fn(&Expr, &str, &Vec<(String, String)>, &Vec<String>) -> Expr,
    A2: Fn(&ClassDef, &Table<Number>, &Vec<(String, Expr)>) -> Table<Vec<i64>>,
    A3: Fn(&Expr, &Table<String>) -> Option<String>,
    A4: Fn(&Expr, &Table<Number>, &str, &Vec<(String, String)>) -> (Result<Expr, String>, Vec<(Expr, String)>),
    A5: Fn(&Expr, &Table<String>, &Table<Number>) -> Result<Expr, String>,
    A6: Fn(&ClassDef, &Vec<(String, String)>) -> Option<String>,
    A7: Fn(&ClassDef, &Env, &Floor, Course, Built) -> Result<(Course, Built), String>,
    A8: Fn(&ClassDef, &Env, &Here, &Table<Vec<i64>>, &Built, Course) -> Result<(Course, Vec<bool>), String>,
    A9: Fn(&Expr, &Here) -> Result<(Expr, Vec<(Expr, String)>), String>,
    W: Fn(Arith, Number, Number) -> Number,
    O: Fn(&str, &Vec<Number>) -> Option<Vec<Number>>,
    N: Fn(&str) -> String,
>(
    h: &Building<A1, A2, A3, A4, A5, A6, A7, A8, A9>,
    sums: &Sums<W, O, N>,
    q: &Ground,
    class: &ClassDef,
    start: Vec<Redeclare>,
) -> (r: Result<Vec<Redeclare>, String>)
    requires
        builds_true(*h),
        is_steady(*sums),
    ensures
        told(r) == body_redeclared(
            ground_of(*h, *sums, *q),
            *class,
            start.deep_view(),
            class.class_aliases@.len(),
        ),
{
    let ghost g = ground_of(*h, *sums, *q);
    let ghost sv = start.deep_view();
    let mut out = start;
    let mut i: usize = 0;
    while i < class.class_aliases.len()
        invariant
            i <= class.class_aliases.len(),
            builds_true(*h),
            is_steady(*sums),
            g == ground_of(*h, *sums, *q),
            sv == start.deep_view(),
            told(Ok::<Vec<Redeclare>, String>(out)) == body_redeclared(g, *class, sv, i as nat),
        decreases class.class_aliases.len() - i,
    {
        let ghost before = out.deep_view();
        let alias = &class.class_aliases[i];
        if alias.redeclaration {
            match lookup(
                q.registry,
                alias.target.as_str(),
                class.name.as_str(),
                &class.imports,
            ) {
                Some(target) => {
                    let made = Redeclare {
                        name: alias.name.clone(),
                        of_type: target.name.clone(),
                        modifiers: crate::class::copied_named(&alias.modifiers),
                        class_level: true,
                    };
                    let ghost mv = made.deep_view();
                    out.push(made);
                    assert(out.deep_view() =~= before.push(mv));
                },
                None => {
                    proof {
                        lemma_body_redeclared_stops(
                            g,
                            *class,
                            sv,
                            (i + 1) as nat,
                            class.class_aliases@.len(),
                        );
                    }
                    return Err(
                        join5(
                            "unknown class `",
                            alias.target.as_str(),
                            "` in the redeclaration of `",
                            alias.name.as_str(),
                            "`",
                        ),
                    );
                },
            }
        }
        i = i + 1;
    }
    Ok(out)
}

/// The declarations of a class, and those its bases hand down with what the
/// clause that brought each said of it.
pub open spec fn parts_of(classes: Seq<&ClassDef>, class: ClassDef) -> Seq<
    (ComponentV, Option<ExprV>),
> {
    Seq::new(
        class.components@.len(),
        |i: int| (class.components@[i].deep_view(), None::<ExprV>),
    ) + parameters_from(classes, class, class.extends@.len(), 0)
}

fn list_parts(registry: &Registry, class: &ClassDef) -> (r: Vec<(Component, Option<Expr>)>)
    ensures
        r.deep_view() == parts_of(registry@, *class),
{
    let ghost whole = Seq::new(
        class.components@.len(),
        |i: int| (class.components@[i].deep_view(), None::<ExprV>),
    );
    let mut out: Vec<(Component, Option<Expr>)> = Vec::new();
    let mut i: usize = 0;
    assert(out.deep_view() =~= whole.take(0));
    while i < class.components.len()
        invariant
            i <= class.components.len(),
            whole == Seq::new(
                class.components@.len(),
                |i: int| (class.components@[i].deep_view(), None::<ExprV>),
            ),
            out.deep_view() == whole.take(i as int),
        decreases class.components.len() - i,
    {
        let ghost before = out.deep_view();
        out.push((class.components[i].clone(), None));
        assert(out.deep_view() =~= before.push(whole[i as int]));
        assert(before.push(whole[i as int]) =~= whole.take(i + 1));
        i = i + 1;
    }
    assert(whole.take(i as int) =~= whole);
    let mut more = inherited_parameters(registry, class, 0);
    let ghost mv = more.deep_view();
    out.append(&mut more);
    assert(out.deep_view() =~= whole + mv);
    out
}

/// The texts known, and whether one of them is new.
pub ghost struct TextsV {
    pub known: Map<Seq<char>, Seq<char>>,
    pub moved: bool,
}

/// The texts known once a declaration is asked.
pub open spec fn text_asked(
    g: GroundV,
    s: StandV,
    said: Seq<(Seq<char>, ExprV)>,
    c: ComponentV,
    so_far: TextsV,
) -> TextsV {
    if c.of_type != "String"@ || so_far.known.contains_key(c.name) {
        so_far
    } else {
        match value_said(said, c) {
            None => so_far,
            Some(value) => match (g.h.text)(
                (g.h.put)(value, s.scope, s.imports, s.shadow),
                so_far.known,
            ) {
                None => so_far,
                Some(text) => TextsV {
                    known: so_far.known.insert(c.name, text).insert(
                        s.naming.prefix + c.name,
                        text,
                    ),
                    moved: true,
                },
            },
        }
    }
}

/// The texts known once the first `n` declarations are asked.
pub open spec fn texts_asked(
    g: GroundV,
    s: StandV,
    said: Seq<(Seq<char>, ExprV)>,
    parts: Seq<(ComponentV, Option<ExprV>)>,
    start: Map<Seq<char>, Seq<char>>,
    n: nat,
) -> TextsV
    decreases n,
{
    if n == 0 || n > parts.len() {
        TextsV { known: start, moved: false }
    } else {
        text_asked(
            g,
            s,
            said,
            parts[n - 1].0,
            texts_asked(g, s, said, parts, start, (n - 1) as nat),
        )
    }
}

/// What the `String` parameters are worth, asked round after round until
/// nothing is new.
pub open spec fn texts_settled(
    g: GroundV,
    s: StandV,
    said: Seq<(Seq<char>, ExprV)>,
    parts: Seq<(ComponentV, Option<ExprV>)>,
    known: Map<Seq<char>, Seq<char>>,
    rounds: nat,
) -> Map<Seq<char>, Seq<char>>
    decreases rounds,
{
    if rounds == 0 {
        known
    } else {
        let next = texts_asked(g, s, said, parts, known, parts.len());
        if next.moved {
            texts_settled(g, s, said, parts, next.known, (rounds - 1) as nat)
        } else {
            next.known
        }
    }
}

fn settle_texts<
    A1: Fn(&Expr, &str, &Vec<(String, String)>, &Vec<String>) -> Expr,
    A2: Fn(&ClassDef, &Table<Number>, &Vec<(String, Expr)>) -> Table<Vec<i64>>,
    A3: Fn(&Expr, &Table<String>) -> Option<String>,
    A4: Fn(&Expr, &Table<Number>, &str, &Vec<(String, String)>) -> (Result<Expr, String>, Vec<(Expr, String)>),
    A5: Fn(&Expr, &Table<String>, &Table<Number>) -> Result<Expr, String>,
    A6: Fn(&ClassDef, &Vec<(String, String)>) -> Option<String>,
    A7: Fn(&ClassDef, &Env, &Floor, Course, Built) -> Result<(Course, Built), String>,
    A8: Fn(&ClassDef, &Env, &Here, &Table<Vec<i64>>, &Built, Course) -> Result<(Course, Vec<bool>), String>,
    A9: Fn(&Expr, &Here) -> Result<(Expr, Vec<(Expr, String)>), String>,
    W: Fn(Arith, Number, Number) -> Number,
    O: Fn(&str, &Vec<Number>) -> Option<Vec<Number>>,
    N: Fn(&str) -> String,
>(
    h: &Building<A1, A2, A3, A4, A5, A6, A7, A8, A9>,
    sums: &Sums<W, O, N>,
    q: &Ground,
    s: &Stand,
    said: &Vec<(String, Expr)>,
    parts: &Vec<(Component, Option<Expr>)>,
) -> (r: Table<String>)
    requires
        builds_true(*h),
        is_steady(*sums),
    ensures
        r.deep_view() == texts_settled(
            ground_of(*h, *sums, *q),
            s.deep_view(),
            said.deep_view(),
            parts.deep_view(),
            Map::empty(),
            MAX_DEPTH as nat,
        ),
{
    let ghost g = ground_of(*h, *sums, *q);
    let ghost sv = s.deep_view();
    let ghost av = said.deep_view();
    let ghost pv = parts.deep_view();
    let mut known: Table<String> = Table::new();
    let mut rounds: usize = MAX_DEPTH;
    while rounds > 0
        invariant
            builds_true(*h),
            is_steady(*sums),
            g == ground_of(*h, *sums, *q),
            sv == s.deep_view(),
            av == said.deep_view(),
            pv == parts.deep_view(),
            texts_settled(g, sv, av, pv, Map::empty(), MAX_DEPTH as nat) == texts_settled(
                g,
                sv,
                av,
                pv,
                known.deep_view(),
                rounds as nat,
            ),
        decreases rounds,
    {
        let ghost start = known.deep_view();
        let mut moved = false;
        let mut i: usize = 0;
        while i < parts.len()
            invariant
                i <= parts.len(),
            builds_true(*h),
            is_steady(*sums),
            g == ground_of(*h, *sums, *q),
                sv == s.deep_view(),
                av == said.deep_view(),
                pv == parts.deep_view(),
                texts_asked(g, sv, av, pv, start, i as nat) == (TextsV {
                    known: known.deep_view(),
                    moved,
                }),
            decreases parts.len() - i,
        {
            assert(pv[i as int] == parts@[i as int].deep_view());
            let c = &parts[i].0;
            if same(c.of_type.as_str(), "String") && !known.has(c.name.as_str()) {
                if let Some(value) = find_value(said, c) {
                    let put = h.do_put(value, s.scope.as_str(), &s.imports, &s.shadow);
                    if let Some(text) = h.do_text(&put, &known) {
                        known.put(c.name.clone(), text.clone());
                        known.put(join2(s.naming.prefix.as_str(), c.name.as_str()), text);
                        moved = true;
                    }
                }
            }
            i = i + 1;
        }
        assert(pv.len() == parts@.len());
        if !moved {
            return known;
        }
        rounds = rounds - 1;
    }
    known
}

/// A list of shared instances with one put where its path says: after every
/// one that does not come after it.
pub open spec fn placed(list: Inners, one: (Seq<char>, InnerV)) -> Inners
    decreases list.len(),
{
    if list.len() == 0 {
        seq![one]
    } else if precedes(one.1.path, list[0].1.path) {
        seq![one] + list
    } else {
        seq![list[0]] + placed(list.drop_first(), one)
    }
}

/// The first `n` shared instances in the order of their paths.
pub open spec fn by_path(list: Inners, n: nat) -> Inners
    decreases n,
{
    if n == 0 || n > list.len() {
        Seq::empty()
    } else {
        placed(by_path(list, (n - 1) as nat), list[n - 1])
    }
}

fn place(list: &mut Vec<(String, InnerInstance)>, one: (String, InnerInstance))
    ensures
        final(list).deep_view() == placed(old(list).deep_view(), one.deep_view()),
{
    let ghost all = list.deep_view();
    let ghost ov = one.deep_view();
    let mut i: usize = 0;
    assert(all.skip(0) =~= all);
    assert(all.take(0) + placed(all, ov) =~= placed(all, ov));
    while i < list.len()
        invariant
            i <= list.len(),
            all == list.deep_view(),
            all == old(list).deep_view(),
            ov == one.deep_view(),
            placed(all, ov) == all.take(i as int) + placed(all.skip(i as int), ov),
        decreases list.len() - i,
    {
        assert(all.skip(i as int)[0] == list@[i as int].deep_view());
        assert(all.skip(i as int).drop_first() =~= all.skip(i + 1));
        if comes_before(one.1.path.as_str(), list[i].1.path.as_str()) {
            list.insert(i, one);
            assert(list.deep_view() =~= all.take(i as int) + (seq![ov] + all.skip(i as int)));
            return;
        }
        assert(all.take(i + 1) =~= all.take(i as int) + seq![all[i as int]]);
        assert(all.take(i as int) + (seq![all[i as int]] + placed(all.skip(i + 1), ov))
            =~= all.take(i + 1) + placed(all.skip(i + 1), ov));
        i = i + 1;
    }
    assert(all.skip(i as int) =~= Seq::empty());
    list.push(one);
    assert(list.deep_view() =~= all.take(i as int) + seq![ov]);
}

fn order_by_path(list: &Vec<(String, InnerInstance)>) -> (r: Vec<(String, InnerInstance)>)
    ensures
        r.deep_view() == by_path(list.deep_view(), list@.len()),
{
    let ghost all = list.deep_view();
    let mut out: Vec<(String, InnerInstance)> = Vec::new();
    let mut i: usize = 0;
    assert(out.deep_view() =~= Seq::empty());
    while i < list.len()
        invariant
            i <= list.len(),
            all == list.deep_view(),
            out.deep_view() == by_path(all, i as nat),
        decreases list.len() - i,
    {
        assert(all[i as int] == list@[i as int].deep_view());
        place(&mut out, (list[i].0.clone(), list[i].1.clone()));
        i = i + 1;
    }
    out
}

/// What a shared instance settled under its own short names, and what the
/// model knows.
pub ghost struct SharedV {
    pub here: Worths,
    pub consts: Worths,
}

/// The numbers known once a declaration of a shared instance is asked.
pub open spec fn shared_asked(
    g: GroundV,
    s: StandV,
    instance: InnerV,
    shared: ClassDef,
    c: Component,
    so_far: SharedV,
) -> SharedV {
    if !is_fixed(c.variability) || c.dimensions@.len() > 0 {
        so_far
    } else {
        match value_said(instance.modifiers, c.deep_view()) {
            None => so_far,
            Some(value) => {
                let e = (g.h.put)(value, shared.name@, s.imports, s.shadow);
                let worth = match evaluated(e, so_far.consts, g.v) {
                    Some(worth) => Some(worth),
                    None => evaluated(e, so_far.here, g.v),
                };
                match worth {
                    None => so_far,
                    Some(worth) => SharedV {
                        here: so_far.here.insert(c.name@, worth),
                        consts: so_far.consts.insert(dotted(instance.path, c.name@), worth),
                    },
                }
            },
        }
    }
}

/// The numbers known once the first `n` declarations of a shared instance are
/// asked.
pub open spec fn shared_settled(
    g: GroundV,
    s: StandV,
    instance: InnerV,
    shared: ClassDef,
    start: Worths,
    n: nat,
) -> SharedV
    decreases n,
{
    if n == 0 || n > shared.components@.len() {
        SharedV { here: Map::empty(), consts: start }
    } else {
        shared_asked(
            g,
            s,
            instance,
            shared,
            shared.components@[n - 1],
            shared_settled(g, s, instance, shared, start, (n - 1) as nat),
        )
    }
}

/// The numbers known once the first `n` shared instances are settled.
pub open spec fn inners_settled(
    g: GroundV,
    s: StandV,
    list: Inners,
    start: Worths,
    n: nat,
) -> Worths
    decreases n,
{
    if n == 0 || n > list.len() {
        start
    } else {
        let before = inners_settled(g, s, list, start, (n - 1) as nat);
        match class_named(g.classes, list[n - 1].1.class) {
            None => before,
            Some(shared) => shared_settled(
                g,
                s,
                list[n - 1].1,
                shared,
                before,
                shared.components@.len(),
            ).consts,
        }
    }
}

fn settle_shared<
    A1: Fn(&Expr, &str, &Vec<(String, String)>, &Vec<String>) -> Expr,
    A2: Fn(&ClassDef, &Table<Number>, &Vec<(String, Expr)>) -> Table<Vec<i64>>,
    A3: Fn(&Expr, &Table<String>) -> Option<String>,
    A4: Fn(&Expr, &Table<Number>, &str, &Vec<(String, String)>) -> (Result<Expr, String>, Vec<(Expr, String)>),
    A5: Fn(&Expr, &Table<String>, &Table<Number>) -> Result<Expr, String>,
    A6: Fn(&ClassDef, &Vec<(String, String)>) -> Option<String>,
    A7: Fn(&ClassDef, &Env, &Floor, Course, Built) -> Result<(Course, Built), String>,
    A8: Fn(&ClassDef, &Env, &Here, &Table<Vec<i64>>, &Built, Course) -> Result<(Course, Vec<bool>), String>,
    A9: Fn(&Expr, &Here) -> Result<(Expr, Vec<(Expr, String)>), String>,
    W: Fn(Arith, Number, Number) -> Number,
    O: Fn(&str, &Vec<Number>) -> Option<Vec<Number>>,
    N: Fn(&str) -> String,
>(
    h: &Building<A1, A2, A3, A4, A5, A6, A7, A8, A9>,
    sums: &Sums<W, O, N>,
    q: &Ground,
    s: &Stand,
    instance: &InnerInstance,
    shared: &ClassDef,
    consts: &mut Table<Number>,
)
    requires
        builds_true(*h),
        is_steady(*sums),
    ensures
        final(consts).deep_view() == shared_settled(
            ground_of(*h, *sums, *q),
            s.deep_view(),
            instance.deep_view(),
            *shared,
            old(consts).deep_view(),
            shared.components@.len(),
        ).consts,
{
    let ghost g = ground_of(*h, *sums, *q);
    let ghost sv = s.deep_view();
    let ghost iv = instance.deep_view();
    let ghost start = consts.deep_view();
    let mut here: Table<Number> = Table::new();
    let mut i: usize = 0;
    while i < shared.components.len()
        invariant
            i <= shared.components.len(),
            builds_true(*h),
            is_steady(*sums),
            g == ground_of(*h, *sums, *q),
            sv == s.deep_view(),
            iv == instance.deep_view(),
            shared_settled(g, sv, iv, *shared, start, i as nat) == (SharedV {
                here: here.deep_view(),
                consts: consts.deep_view(),
            }),
        decreases shared.components.len() - i,
    {
        let c = &shared.components[i];
        if (c.variability == Variability::Parameter || c.variability == Variability::Constant)
            && c.dimensions.len() == 0 {
            if let Some(value) = find_value(&instance.modifiers, c) {
                let e = h.do_put(value, shared.name.as_str(), &s.imports, &s.shadow);
                let worth = match const_eval(&e, consts, sums) {
                    Some(worth) => Some(worth),
                    None => const_eval(&e, &here, sums),
                };
                if let Some(worth) = worth {
                    here.put(c.name.clone(), worth);
                    consts.put(dot(instance.path.as_str(), c.name.as_str()), worth);
                }
            }
        }
        i = i + 1;
    }
}

/// Settle the parameters of the shared instances in view, in the order of
/// their paths: one may read its neighbour by the short name the class writes.
fn settle_the_inner_instances<
    A1: Fn(&Expr, &str, &Vec<(String, String)>, &Vec<String>) -> Expr,
    A2: Fn(&ClassDef, &Table<Number>, &Vec<(String, Expr)>) -> Table<Vec<i64>>,
    A3: Fn(&Expr, &Table<String>) -> Option<String>,
    A4: Fn(&Expr, &Table<Number>, &str, &Vec<(String, String)>) -> (Result<Expr, String>, Vec<(Expr, String)>),
    A5: Fn(&Expr, &Table<String>, &Table<Number>) -> Result<Expr, String>,
    A6: Fn(&ClassDef, &Vec<(String, String)>) -> Option<String>,
    A7: Fn(&ClassDef, &Env, &Floor, Course, Built) -> Result<(Course, Built), String>,
    A8: Fn(&ClassDef, &Env, &Here, &Table<Vec<i64>>, &Built, Course) -> Result<(Course, Vec<bool>), String>,
    A9: Fn(&Expr, &Here) -> Result<(Expr, Vec<(Expr, String)>), String>,
    W: Fn(Arith, Number, Number) -> Number,
    O: Fn(&str, &Vec<Number>) -> Option<Vec<Number>>,
    N: Fn(&str) -> String,
>(
    h: &Building<A1, A2, A3, A4, A5, A6, A7, A8, A9>,
    sums: &Sums<W, O, N>,
    q: &Ground,
    s: &Stand,
    inners: &Vec<(String, InnerInstance)>,
    consts: &mut Table<Number>,
)
    requires
        builds_true(*h),
        is_steady(*sums),
    ensures
        final(consts).deep_view() == ({
            let list = by_path(inners.deep_view(), inners.deep_view().len());
            inners_settled(
                ground_of(*h, *sums, *q),
                s.deep_view(),
                list,
                old(consts).deep_view(),
                list.len(),
            )
        }),
{
    let ghost g = ground_of(*h, *sums, *q);
    let ghost sv = s.deep_view();
    let ghost start = consts.deep_view();
    let list = order_by_path(inners);
    let ghost lv = list.deep_view();
    assert(inners.deep_view().len() == inners@.len());
    let mut i: usize = 0;
    while i < list.len()
        invariant
            i <= list.len(),
            builds_true(*h),
            is_steady(*sums),
            g == ground_of(*h, *sums, *q),
            sv == s.deep_view(),
            lv == list.deep_view(),
            consts.deep_view() == inners_settled(g, sv, lv, start, i as nat),
        decreases list.len() - i,
    {
        assert(lv[i as int] == list@[i as int].deep_view());
        if let Some(shared) = find_class(q.registry, list[i].1.class.as_str()) {
            settle_shared(h, sums, q, s, &list[i].1, shared, consts);
        }
        i = i + 1;
    }
    assert(lv.len() == list@.len());
}

/// What has settled early: the model's numbers, the list of them in the order
/// they settled, and whose declarations they are.
pub ghost struct EarlyV {
    pub consts: Worths,
    pub numbers: Seq<(Seq<char>, Number)>,
    pub settled: Seq<Seq<char>>,
    pub moved: bool,
}

/// What a declaration is given before the bases of its class are built.
pub open spec fn early_value(
    g: GroundV,
    s: StandV,
    said: Seq<(Seq<char>, ExprV)>,
    c: ComponentV,
) -> Option<ExprV> {
    match said_of(said, c.name) {
        Some(value) => Some(value),
        None => match own_value(c.binding, c.start) {
            Some(value) => Some(put_here(g, s, value)),
            None => None,
        },
    }
}

/// What has settled once a declaration is asked.
pub open spec fn early_asked(
    g: GroundV,
    s: StandV,
    said: Seq<(Seq<char>, ExprV)>,
    c: ComponentV,
    so_far: EarlyV,
) -> EarlyV {
    let named = s.naming.prefix + c.name;
    if !is_fixed(c.variability) || so_far.settled.contains(named) {
        so_far
    } else {
        match early_value(g, s, said, c) {
            None => so_far,
            Some(value) => match evaluated(value, so_far.consts, g.v) {
                None => so_far,
                Some(worth) => EarlyV {
                    consts: so_far.consts.insert(named, worth),
                    numbers: so_far.numbers.push((named, worth)),
                    settled: so_far.settled.push(named),
                    moved: true,
                },
            },
        }
    }
}

/// What has settled once the first `n` declarations of a class are asked.
pub open spec fn early_round(
    g: GroundV,
    s: StandV,
    said: Seq<(Seq<char>, ExprV)>,
    class: ClassDef,
    start: EarlyV,
    n: nat,
) -> EarlyV
    decreases n,
{
    if n == 0 || n > class.components@.len() {
        EarlyV { moved: false, ..start }
    } else {
        early_asked(
            g,
            s,
            said,
            class.components@[n - 1].deep_view(),
            early_round(g, s, said, class, start, (n - 1) as nat),
        )
    }
}

/// What has settled once nothing more does.
pub open spec fn early_settled(
    g: GroundV,
    s: StandV,
    said: Seq<(Seq<char>, ExprV)>,
    class: ClassDef,
    start: EarlyV,
    rounds: nat,
) -> EarlyV
    decreases rounds,
{
    if rounds == 0 {
        start
    } else {
        let next = early_round(g, s, said, class, start, class.components@.len());
        if next.moved {
            early_settled(g, s, said, class, next, (rounds - 1) as nat)
        } else {
            next
        }
    }
}

fn find_early<
    A1: Fn(&Expr, &str, &Vec<(String, String)>, &Vec<String>) -> Expr,
    A2: Fn(&ClassDef, &Table<Number>, &Vec<(String, Expr)>) -> Table<Vec<i64>>,
    A3: Fn(&Expr, &Table<String>) -> Option<String>,
    A4: Fn(&Expr, &Table<Number>, &str, &Vec<(String, String)>) -> (Result<Expr, String>, Vec<(Expr, String)>),
    A5: Fn(&Expr, &Table<String>, &Table<Number>) -> Result<Expr, String>,
    A6: Fn(&ClassDef, &Vec<(String, String)>) -> Option<String>,
    A7: Fn(&ClassDef, &Env, &Floor, Course, Built) -> Result<(Course, Built), String>,
    A8: Fn(&ClassDef, &Env, &Here, &Table<Vec<i64>>, &Built, Course) -> Result<(Course, Vec<bool>), String>,
    A9: Fn(&Expr, &Here) -> Result<(Expr, Vec<(Expr, String)>), String>,
    W: Fn(Arith, Number, Number) -> Number,
    O: Fn(&str, &Vec<Number>) -> Option<Vec<Number>>,
    N: Fn(&str) -> String,
>(
    h: &Building<A1, A2, A3, A4, A5, A6, A7, A8, A9>,
    sums: &Sums<W, O, N>,
    q: &Ground,
    s: &Stand,
    said: &Vec<(String, Expr)>,
    c: &Component,
) -> (r: Option<Expr>)
    requires
        builds_true(*h),
        is_steady(*sums),
    ensures
        r.deep_view() == early_value(
            ground_of(*h, *sums, *q),
            s.deep_view(),
            said.deep_view(),
            c.deep_view(),
        ),
{
    match find_said(said, c.name.as_str()) {
        Some(value) => Some(value.clone()),
        None => match find_own(c) {
            Some(value) => Some(write_here(h, sums, q, s, value)),
            None => None,
        },
    }
}

/// Settle what this class's own parameters are worth before its bases are
/// built, for the bases that are given values written down here. Only what
/// folds on its own is settled; anything that needs a base's value waits.
fn settle_parameters_early<
    A1: Fn(&Expr, &str, &Vec<(String, String)>, &Vec<String>) -> Expr,
    A2: Fn(&ClassDef, &Table<Number>, &Vec<(String, Expr)>) -> Table<Vec<i64>>,
    A3: Fn(&Expr, &Table<String>) -> Option<String>,
    A4: Fn(&Expr, &Table<Number>, &str, &Vec<(String, String)>) -> (Result<Expr, String>, Vec<(Expr, String)>),
    A5: Fn(&Expr, &Table<String>, &Table<Number>) -> Result<Expr, String>,
    A6: Fn(&ClassDef, &Vec<(String, String)>) -> Option<String>,
    A7: Fn(&ClassDef, &Env, &Floor, Course, Built) -> Result<(Course, Built), String>,
    A8: Fn(&ClassDef, &Env, &Here, &Table<Vec<i64>>, &Built, Course) -> Result<(Course, Vec<bool>), String>,
    A9: Fn(&Expr, &Here) -> Result<(Expr, Vec<(Expr, String)>), String>,
    W: Fn(Arith, Number, Number) -> Number,
    O: Fn(&str, &Vec<Number>) -> Option<Vec<Number>>,
    N: Fn(&str) -> String,
>(
    h: &Building<A1, A2, A3, A4, A5, A6, A7, A8, A9>,
    sums: &Sums<W, O, N>,
    q: &Ground,
    s: &Stand,
    said: &Vec<(String, Expr)>,
    class: &ClassDef,
    consts: &mut Table<Number>,
    numbers: &mut Vec<(String, Number)>,
)
    requires
        builds_true(*h),
        is_steady(*sums),
    ensures
        ({
            let done = early_settled(
                ground_of(*h, *sums, *q),
                s.deep_view(),
                said.deep_view(),
                *class,
                EarlyV {
                    consts: old(consts).deep_view(),
                    numbers: old(numbers).deep_view(),
                    settled: Seq::empty(),
                    moved: false,
                },
                ROUNDS as nat,
            );
            &&& final(consts).deep_view() == done.consts
            &&& final(numbers).deep_view() == done.numbers
        }),
{
    let ghost g = ground_of(*h, *sums, *q);
    let ghost sv = s.deep_view();
    let ghost av = said.deep_view();
    let ghost first = EarlyV {
        consts: consts.deep_view(),
        numbers: numbers.deep_view(),
        settled: Seq::empty(),
        moved: false,
    };
    let mut settled: Vec<String> = Vec::new();
    assert(texts(settled@) =~= Seq::empty());
    let mut rounds: u64 = ROUNDS;
    let ghost mut was: bool = false;
    while rounds > 0
        invariant
            builds_true(*h),
            is_steady(*sums),
            g == ground_of(*h, *sums, *q),
            sv == s.deep_view(),
            av == said.deep_view(),
            first == (EarlyV {
                consts: old(consts).deep_view(),
                numbers: old(numbers).deep_view(),
                settled: Seq::empty(),
                moved: false,
            }),
            early_settled(g, sv, av, *class, first, ROUNDS as nat) == early_settled(
                g,
                sv,
                av,
                *class,
                EarlyV {
                    consts: consts.deep_view(),
                    numbers: numbers.deep_view(),
                    settled: texts(settled@),
                    moved: was,
                },
                rounds as nat,
            ),
        decreases rounds,
    {
        let ghost start = EarlyV {
            consts: consts.deep_view(),
            numbers: numbers.deep_view(),
            settled: texts(settled@),
            moved: was,
        };
        let mut moved = false;
        let mut i: usize = 0;
        while i < class.components.len()
            invariant
                i <= class.components.len(),
            builds_true(*h),
            is_steady(*sums),
            g == ground_of(*h, *sums, *q),
                sv == s.deep_view(),
                av == said.deep_view(),
                early_round(g, sv, av, *class, start, i as nat) == (EarlyV {
                    consts: consts.deep_view(),
                    numbers: numbers.deep_view(),
                    settled: texts(settled@),
                    moved,
                }),
            decreases class.components.len() - i,
        {
            let ghost listed = numbers.deep_view();
            let ghost named_so_far = texts(settled@);
            let c = &class.components[i];
            let named = join2(s.naming.prefix.as_str(), c.name.as_str());
            if (c.variability == Variability::Parameter || c.variability == Variability::Constant)
                && !holds(&settled, named.as_str()) {
                if let Some(value) = find_early(h, sums, q, s, said, c) {
                    if let Some(worth) = const_eval(&value, consts, sums) {
                        settled.push(named.clone());
                        consts.put(named.clone(), worth);
                        numbers.push((named, worth));
                        assert(texts(settled@) =~= named_so_far.push(sv.naming.prefix + c.name@));
                        assert(numbers.deep_view() =~= listed.push(
                            (sv.naming.prefix + c.name@, worth),
                        ));
                        moved = true;
                    }
                }
            }
            i = i + 1;
        }
        if !moved {
            return;
        }
        proof {
            was = true;
        }
        rounds = rounds - 1;
    }
}

/// [`texts_put`] of every child.
pub open spec fn kids_with_texts(e: ExprV, known: Map<Seq<char>, Seq<char>>) -> Seq<ExprV>
    decreases e, 0int,
{
    proof {
        lemma_kids_smaller(e);
    }
    Seq::new(
        kids(e).len(),
        |i: int|
            if 0 <= i < kids(e).len() {
                texts_put(kids(e)[i], known)
            } else {
                e
            },
    )
}

/// An expression with every `String` name put back as the text it stands for.
pub open spec fn texts_put(e: ExprV, known: Map<Seq<char>, Seq<char>>) -> ExprV
    decreases e, 1int,
{
    match e {
        ExprV::Ref(name) => if known.contains_key(name) {
            ExprV::Str(known[name])
        } else {
            e
        },
        _ => with_kids(e, kids_with_texts(e, known)),
    }
}

/// Put every `String` name of an expression back as the text it stands for: a
/// name is nothing that the body of a function can measure.
pub fn substitute_texts(expr: &Expr, known: &Table<String>) -> (r: Expr)
    ensures
        r.deep_view() == texts_put(expr.deep_view(), known.deep_view()),
    decreases expr.deep_view(),
{
    if let Expr::Ref(name) = expr {
        return match known.get(name.as_str()) {
            Some(text) => Expr::Str(text.clone()),
            None => expr.clone(),
        };
    }
    let ghost held = known.deep_view();
    let ghost shape = expr.deep_view();
    let parts = expr.children();
    let mut new: Vec<Expr> = Vec::new();
    let mut i: usize = 0;
    proof {
        lemma_kids_smaller(shape);
    }
    while i < parts.len()
        invariant
            i <= parts.len(),
            shape == expr.deep_view(),
            parts.deep_view() == kids(shape),
            forall|k: int|
                0 <= k < kids(shape).len() ==> (#[trigger] decreases_to!(shape => kids(shape)[k])),
            new.len() == i,
            forall|k: int|
                0 <= k < i ==> (#[trigger] new@[k]).deep_view() == texts_put(kids(shape)[k], held),
            held == known.deep_view(),
        decreases parts.len() - i,
    {
        assert(parts.deep_view()[i as int] == parts@[i as int].deep_view());
        assert(decreases_to!(shape => kids(shape)[i as int]));
        let part: &Expr = parts[i];
        new.push(substitute_texts(part, known));
        i = i + 1;
    }
    assert(new.deep_view() =~= kids_with_texts(shape, held));
    expr.with_children(new)
}

/// The numbers a parameter round reads and adds to: those of this class under
/// its own names, those in view, and those of the model; beside them what the
/// bodies called on the way check.
#[derive(Debug)]
pub struct Purse {
    pub local: Table<Number>,
    pub view: Table<Number>,
    pub consts: Table<Number>,
    pub aside: Vec<(Expr, String)>,
}

pub ghost struct PurseV {
    pub local: Worths,
    pub view: Worths,
    pub consts: Worths,
    pub aside: Checks,
}

impl DeepView for Purse {
    type V = PurseV;

    open spec fn deep_view(&self) -> PurseV {
        PurseV {
            local: self.local.deep_view(),
            view: self.view.deep_view(),
            consts: self.consts.deep_view(),
            aside: self.aside.deep_view(),
        }
    }
}

/// The numbers once one more is settled under a name of the class.
pub open spec fn purse_put(p: PurseV, prefix: Seq<char>, name: Seq<char>, worth: Number) -> PurseV {
    PurseV {
        local: p.local.insert(name, worth),
        view: p.view.insert(name, worth).insert(prefix + name, worth),
        consts: p.consts.insert(prefix + name, worth),
        ..p
    }
}

fn put_worth(p: &mut Purse, prefix: &str, name: &str, worth: Number)
    ensures
        final(p).deep_view() == purse_put(old(p).deep_view(), prefix@, name@, worth),
{
    p.local.put(name.to_owned(), worth);
    p.view.put(name.to_owned(), worth);
    p.view.put(join2(prefix, name), worth);
    p.consts.put(join2(prefix, name), worth);
}

/// What a record's field is settled as, and whether anything was.
pub ghost struct MovedV {
    pub purse: PurseV,
    pub moved: bool,
}

/// The numbers once a field of a parameter record is asked: what the model
/// wrote on the declaration beats what the record declares.
pub open spec fn field_asked(
    g: GroundV,
    s: StandV,
    c: ComponentV,
    field: ComponentV,
    so_far: MovedV,
) -> MovedV {
    let named = dotted(c.name, field.name);
    if !is_fixed(field.variability) || so_far.purse.local.contains_key(named) {
        so_far
    } else {
        match value_said(c.modifiers, field) {
            None => so_far,
            Some(value) => match evaluated(
                put_here(g, StandV { shadow: Seq::empty(), ..s }, value),
                so_far.purse.view,
                g.v,
            ) {
                None => so_far,
                Some(worth) => MovedV {
                    purse: purse_put(so_far.purse, s.naming.prefix, named, worth),
                    moved: true,
                },
            },
        }
    }
}

/// The numbers once the first `n` fields of a parameter record are asked.
pub open spec fn fields_asked(
    g: GroundV,
    s: StandV,
    c: ComponentV,
    fields: Seq<ComponentV>,
    start: MovedV,
    n: nat,
) -> MovedV
    decreases n,
{
    if n == 0 || n > fields.len() {
        start
    } else {
        field_asked(
            g,
            s,
            c,
            fields[n - 1],
            fields_asked(g, s, c, fields, start, (n - 1) as nat),
        )
    }
}

/// The numbers once the fields of a declaration are settled, where it is a
/// parameter record of one element.
pub open spec fn record_asked(
    g: GroundV,
    s: StandV,
    c: ComponentV,
    from_extends: Option<ExprV>,
    start: MovedV,
) -> MovedV {
    if c.dimensions.len() > 0 || from_extends is Some {
        start
    } else {
        match meaning(g.classes, c.of_type, s.scope, s.imports) {
            None => start,
            Some(record) => if record.kind == ClassKind::Record {
                let fields = gathered_over(g.classes, record, Seq::empty(), 0);
                fields_asked(g, s, c, fields, start, fields.len())
            } else {
                start
            },
        }
    }
}

fn without_shadow(s: &Stand) -> (r: Stand)
    ensures
        r.deep_view() == (StandV { shadow: Seq::empty(), ..s.deep_view() }),
{
    let shadow: Vec<String> = Vec::new();
    assert(texts(shadow@) =~= Seq::empty());
    Stand {
        scope: s.scope.clone(),
        naming: copy_naming(&s.naming),
        imports: crate::inheritance::same_pairs(&s.imports),
        shadow,
    }
}

/// Settle the fields of a parameter record, by name, in the parameter round
/// that turns until nothing moves: a record declared after what reads it would
/// otherwise leave a live name looking dead.
fn fields_of_a_record<
    A1: Fn(&Expr, &str, &Vec<(String, String)>, &Vec<String>) -> Expr,
    A2: Fn(&ClassDef, &Table<Number>, &Vec<(String, Expr)>) -> Table<Vec<i64>>,
    A3: Fn(&Expr, &Table<String>) -> Option<String>,
    A4: Fn(&Expr, &Table<Number>, &str, &Vec<(String, String)>) -> (Result<Expr, String>, Vec<(Expr, String)>),
    A5: Fn(&Expr, &Table<String>, &Table<Number>) -> Result<Expr, String>,
    A6: Fn(&ClassDef, &Vec<(String, String)>) -> Option<String>,
    A7: Fn(&ClassDef, &Env, &Floor, Course, Built) -> Result<(Course, Built), String>,
    A8: Fn(&ClassDef, &Env, &Here, &Table<Vec<i64>>, &Built, Course) -> Result<(Course, Vec<bool>), String>,
    A9: Fn(&Expr, &Here) -> Result<(Expr, Vec<(Expr, String)>), String>,
    W: Fn(Arith, Number, Number) -> Number,
    O: Fn(&str, &Vec<Number>) -> Option<Vec<Number>>,
    N: Fn(&str) -> String,
>(
    h: &Building<A1, A2, A3, A4, A5, A6, A7, A8, A9>,
    sums: &Sums<W, O, N>,
    q: &Ground,
    s: &Stand,
    c: &Component,
    from_extends: &Option<Expr>,
    purse: &mut Purse,
) -> (moved: bool)
    requires
        builds_true(*h),
        is_steady(*sums),
    ensures
        ({
            let done = record_asked(
                ground_of(*h, *sums, *q),
                s.deep_view(),
                c.deep_view(),
                from_extends.deep_view(),
                MovedV { purse: old(purse).deep_view(), moved: false },
            );
            &&& final(purse).deep_view() == done.purse
            &&& moved == done.moved
        }),
{
    assert(c.dimensions.deep_view().len() == c.dimensions@.len());
    if c.dimensions.len() > 0 || from_extends.is_some() {
        return false;
    }
    let record = match lookup(q.registry, c.of_type.as_str(), s.scope.as_str(), &s.imports) {
        Some(record) => record,
        None => {
            return false;
        },
    };
    if record.kind != ClassKind::Record {
        return false;
    }
    let ghost g = ground_of(*h, *sums, *q);
    let ghost sv = s.deep_view();
    let ghost cv = c.deep_view();
    let ghost start = MovedV { purse: purse.deep_view(), moved: false };
    let fields = with_inherited_components(q.registry, record);
    let ghost fv = fields.deep_view();
    let bare = without_shadow(s);
    let mut moved = false;
    let mut i: usize = 0;
    while i < fields.len()
        invariant
            i <= fields.len(),
            builds_true(*h),
            is_steady(*sums),
            g == ground_of(*h, *sums, *q),
            sv == s.deep_view(),
            bare.deep_view() == (StandV { shadow: Seq::empty(), ..sv }),
            cv == c.deep_view(),
            fv == fields.deep_view(),
            fields_asked(g, sv, cv, fv, start, i as nat) == (MovedV {
                purse: purse.deep_view(),
                moved,
            }),
        decreases fields.len() - i,
    {
        assert(fv[i as int] == fields@[i as int].deep_view());
        let field = &fields[i];
        let named = dot(c.name.as_str(), field.name.as_str());
        if (field.variability == Variability::Parameter || field.variability
            == Variability::Constant) && !purse.local.has(named.as_str()) {
            if let Some(value) = find_value(&c.modifiers, field) {
                let written = write_here(h, sums, q, &bare, value);
                if let Some(worth) = const_eval(&written, &purse.view, sums) {
                    put_worth(purse, s.naming.prefix.as_str(), named.as_str(), worth);
                    moved = true;
                }
            }
        }
        i = i + 1;
    }
    assert(fv.len() == fields@.len());
    moved
}

/// What a parameter is given: what was handed down, what the `extends` said
/// with the lengths it asks after, or what it says itself.
pub open spec fn part_value(
    g: GroundV,
    s: StandV,
    said: Seq<(Seq<char>, ExprV)>,
    shapes: Lengths,
    local: Worths,
    part: (ComponentV, Option<ExprV>),
) -> Option<ExprV> {
    match said_of(said, part.0.name) {
        Some(value) => Some(value),
        None => match part.1 {
            Some(value) => Some(measured_in(value, local, shapes, g.v)),
            None => match own_value(part.0.binding, part.0.start) {
                Some(value) => Some(put_here(g, s, value)),
                None => None,
            },
        },
    }
}

/// What a value comes to: as it stands, with its calls worked out, or with
/// what is written on texts folded after that.
pub open spec fn worth_of(
    g: GroundV,
    s: StandV,
    e: ExprV,
    known: Map<Seq<char>, Seq<char>>,
    view: Worths,
) -> Option<Number> {
    match evaluated(e, view, g.v) {
        Some(worth) => Some(worth),
        None => match (g.h.resolve)(e, view, s.scope, s.imports).0 {
            Err(_) => None,
            Ok(inlined) => match evaluated(inlined, view, g.v) {
                Some(worth) => Some(worth),
                None => match (g.h.fold)(inlined, known, view) {
                    Err(_) => None,
                    Ok(folded) => evaluated(folded, view, g.v),
                },
            },
        },
    }
}

/// What the bodies called for a value check: none is called where it is a number
/// as it stands.
pub open spec fn worth_leaves(g: GroundV, s: StandV, e: ExprV, view: Worths) -> Checks {
    match evaluated(e, view, g.v) {
        Some(_) => Seq::empty(),
        None => (g.h.resolve)(e, view, s.scope, s.imports).1,
    }
}

/// The numbers with more checks set aside.
pub open spec fn purse_with(p: PurseV, more: Checks) -> PurseV {
    PurseV { aside: p.aside + more, ..p }
}

/// The numbers once a parameter is asked.
pub open spec fn part_asked(
    g: GroundV,
    s: StandV,
    said: Seq<(Seq<char>, ExprV)>,
    known: Map<Seq<char>, Seq<char>>,
    shapes: Lengths,
    part: (ComponentV, Option<ExprV>),
    so_far: MovedV,
) -> MovedV {
    if !is_fixed(part.0.variability) {
        so_far
    } else {
        let with_fields = record_asked(g, s, part.0, part.1, so_far);
        if with_fields.purse.local.contains_key(part.0.name) {
            with_fields
        } else {
            match part_value(g, s, said, shapes, with_fields.purse.local, part) {
                None => with_fields,
                Some(value) => {
                    let e = texts_put(value, known);
                    let purse = purse_with(
                        with_fields.purse,
                        worth_leaves(g, s, e, with_fields.purse.view),
                    );
                    match worth_of(g, s, e, known, with_fields.purse.view) {
                        None => MovedV { purse, ..with_fields },
                        Some(worth) => MovedV {
                            purse: purse_put(purse, s.naming.prefix, part.0.name, worth),
                            moved: true,
                        },
                    }
                },
            }
        }
    }
}

/// The numbers once the first `n` parameters are asked.
pub open spec fn parts_asked(
    g: GroundV,
    s: StandV,
    said: Seq<(Seq<char>, ExprV)>,
    known: Map<Seq<char>, Seq<char>>,
    shapes: Lengths,
    parts: Seq<(ComponentV, Option<ExprV>)>,
    start: PurseV,
    n: nat,
) -> MovedV
    decreases n,
{
    if n == 0 || n > parts.len() {
        MovedV { purse: start, moved: false }
    } else {
        part_asked(
            g,
            s,
            said,
            known,
            shapes,
            parts[n - 1],
            parts_asked(g, s, said, known, shapes, parts, start, (n - 1) as nat),
        )
    }
}

/// The numbers once nothing more settles; a value settled in one round may be
/// a length in the next.
pub open spec fn purse_settled(
    g: GroundV,
    s: StandV,
    said: Seq<(Seq<char>, ExprV)>,
    known: Map<Seq<char>, Seq<char>>,
    class: ClassDef,
    parts: Seq<(ComponentV, Option<ExprV>)>,
    start: PurseV,
    rounds: nat,
) -> PurseV
    decreases rounds,
{
    if rounds == 0 {
        start
    } else {
        let shapes = (g.h.measure)(class, start.local, said);
        let next = parts_asked(g, s, said, known, shapes, parts, start, parts.len());
        if next.moved {
            purse_settled(g, s, said, known, class, parts, next.purse, (rounds - 1) as nat)
        } else {
            next.purse
        }
    }
}

/// What every parameter in view of a class is worth, and what the model knows
/// after: the class's own under its own names and under the instance path, and
/// every number of the model that the class says nothing about. Last is what the
/// bodies called on the way check.
pub open spec fn parameters_settled(
    g: GroundV,
    s: StandV,
    said: Seq<(Seq<char>, ExprV)>,
    known: Map<Seq<char>, Seq<char>>,
    class: ClassDef,
    consts: Worths,
) -> (Worths, Worths, Checks) {
    let done = purse_settled(
        g,
        s,
        said,
        known,
        class,
        parts_of(g.classes, class),
        nothing_settled(consts),
        ROUNDS as nat,
    );
    let both = if s.naming.prefix.len() > 0 {
        overlaid(done.local, all_prefixed(done.local, s.naming.prefix))
    } else {
        done.local
    };
    (overlaid(done.consts, both), done.consts, done.aside)
}

fn find_part_value<
    A1: Fn(&Expr, &str, &Vec<(String, String)>, &Vec<String>) -> Expr,
    A2: Fn(&ClassDef, &Table<Number>, &Vec<(String, Expr)>) -> Table<Vec<i64>>,
    A3: Fn(&Expr, &Table<String>) -> Option<String>,
    A4: Fn(&Expr, &Table<Number>, &str, &Vec<(String, String)>) -> (Result<Expr, String>, Vec<(Expr, String)>),
    A5: Fn(&Expr, &Table<String>, &Table<Number>) -> Result<Expr, String>,
    A6: Fn(&ClassDef, &Vec<(String, String)>) -> Option<String>,
    A7: Fn(&ClassDef, &Env, &Floor, Course, Built) -> Result<(Course, Built), String>,
    A8: Fn(&ClassDef, &Env, &Here, &Table<Vec<i64>>, &Built, Course) -> Result<(Course, Vec<bool>), String>,
    A9: Fn(&Expr, &Here) -> Result<(Expr, Vec<(Expr, String)>), String>,
    W: Fn(Arith, Number, Number) -> Number,
    O: Fn(&str, &Vec<Number>) -> Option<Vec<Number>>,
    N: Fn(&str) -> String,
>(
    h: &Building<A1, A2, A3, A4, A5, A6, A7, A8, A9>,
    sums: &Sums<W, O, N>,
    q: &Ground,
    s: &Stand,
    said: &Vec<(String, Expr)>,
    shapes: &Table<Vec<i64>>,
    local: &Table<Number>,
    part: &(Component, Option<Expr>),
) -> (r: Option<Expr>)
    requires
        builds_true(*h),
        is_steady(*sums),
    ensures
        r.deep_view() == part_value(
            ground_of(*h, *sums, *q),
            s.deep_view(),
            said.deep_view(),
            shapes.deep_view(),
            local.deep_view(),
            part.deep_view(),
        ),
{
    match find_said(said, part.0.name.as_str()) {
        Some(value) => Some(value.clone()),
        None => match &part.1 {
            Some(value) => Some(measured_sizes(sums, value, shapes, local)),
            None => match find_own(&part.0) {
                Some(value) => Some(write_here(h, sums, q, s, value)),
                None => None,
            },
        },
    }
}

fn find_worth<
    A1: Fn(&Expr, &str, &Vec<(String, String)>, &Vec<String>) -> Expr,
    A2: Fn(&ClassDef, &Table<Number>, &Vec<(String, Expr)>) -> Table<Vec<i64>>,
    A3: Fn(&Expr, &Table<String>) -> Option<String>,
    A4: Fn(&Expr, &Table<Number>, &str, &Vec<(String, String)>) -> (Result<Expr, String>, Vec<(Expr, String)>),
    A5: Fn(&Expr, &Table<String>, &Table<Number>) -> Result<Expr, String>,
    A6: Fn(&ClassDef, &Vec<(String, String)>) -> Option<String>,
    A7: Fn(&ClassDef, &Env, &Floor, Course, Built) -> Result<(Course, Built), String>,
    A8: Fn(&ClassDef, &Env, &Here, &Table<Vec<i64>>, &Built, Course) -> Result<(Course, Vec<bool>), String>,
    A9: Fn(&Expr, &Here) -> Result<(Expr, Vec<(Expr, String)>), String>,
    W: Fn(Arith, Number, Number) -> Number,
    O: Fn(&str, &Vec<Number>) -> Option<Vec<Number>>,
    N: Fn(&str) -> String,
>(
    h: &Building<A1, A2, A3, A4, A5, A6, A7, A8, A9>,
    sums: &Sums<W, O, N>,
    q: &Ground,
    s: &Stand,
    e: &Expr,
    known: &Table<String>,
    view: &Table<Number>,
) -> (r: (Option<Number>, Vec<(Expr, String)>))
    requires
        builds_true(*h),
        is_steady(*sums),
    ensures
        r.0 == worth_of(
            ground_of(*h, *sums, *q),
            s.deep_view(),
            e.deep_view(),
            known.deep_view(),
            view.deep_view(),
        ),
        r.1.deep_view() == worth_leaves(
            ground_of(*h, *sums, *q),
            s.deep_view(),
            e.deep_view(),
            view.deep_view(),
        ),
{
    if let Some(worth) = const_eval(e, view, sums) {
        let none: Vec<(Expr, String)> = Vec::new();
        assert(none.deep_view() =~= Seq::empty());
        return (Some(worth), none);
    }
    let (done, left) = h.do_resolve(e, view, s.scope.as_str(), &s.imports);
    let inlined = match done {
        Ok(inlined) => inlined,
        Err(_) => {
            return (None, left);
        },
    };
    if let Some(worth) = const_eval(&inlined, view, sums) {
        return (Some(worth), left);
    }
    match h.do_fold(&inlined, known, view) {
        Ok(folded) => (const_eval(&folded, view, sums), left),
        Err(_) => (None, left),
    }
}

fn ask_part<
    A1: Fn(&Expr, &str, &Vec<(String, String)>, &Vec<String>) -> Expr,
    A2: Fn(&ClassDef, &Table<Number>, &Vec<(String, Expr)>) -> Table<Vec<i64>>,
    A3: Fn(&Expr, &Table<String>) -> Option<String>,
    A4: Fn(&Expr, &Table<Number>, &str, &Vec<(String, String)>) -> (Result<Expr, String>, Vec<(Expr, String)>),
    A5: Fn(&Expr, &Table<String>, &Table<Number>) -> Result<Expr, String>,
    A6: Fn(&ClassDef, &Vec<(String, String)>) -> Option<String>,
    A7: Fn(&ClassDef, &Env, &Floor, Course, Built) -> Result<(Course, Built), String>,
    A8: Fn(&ClassDef, &Env, &Here, &Table<Vec<i64>>, &Built, Course) -> Result<(Course, Vec<bool>), String>,
    A9: Fn(&Expr, &Here) -> Result<(Expr, Vec<(Expr, String)>), String>,
    W: Fn(Arith, Number, Number) -> Number,
    O: Fn(&str, &Vec<Number>) -> Option<Vec<Number>>,
    N: Fn(&str) -> String,
>(
    h: &Building<A1, A2, A3, A4, A5, A6, A7, A8, A9>,
    sums: &Sums<W, O, N>,
    q: &Ground,
    s: &Stand,
    said: &Vec<(String, Expr)>,
    known: &Table<String>,
    shapes: &Table<Vec<i64>>,
    part: &(Component, Option<Expr>),
    purse: &mut Purse,
    moved: bool,
) -> (r: bool)
    requires
        builds_true(*h),
        is_steady(*sums),
    ensures
        part_asked(
            ground_of(*h, *sums, *q),
            s.deep_view(),
            said.deep_view(),
            known.deep_view(),
            shapes.deep_view(),
            part.deep_view(),
            MovedV { purse: old(purse).deep_view(), moved },
        ) == (MovedV { purse: final(purse).deep_view(), moved: r }),
{
    let c = &part.0;
    if c.variability != Variability::Parameter && c.variability != Variability::Constant {
        return moved;
    }
    proof {
        lemma_record_moves(
            ground_of(*h, *sums, *q),
            s.deep_view(),
            c.deep_view(),
            part.1.deep_view(),
            purse.deep_view(),
            moved,
        );
    }
    let fields = fields_of_a_record(h, sums, q, s, c, &part.1, purse);
    let so_far = moved || fields;
    if purse.local.has(c.name.as_str()) {
        return so_far;
    }
    let value = match find_part_value(h, sums, q, s, said, shapes, &purse.local, part) {
        Some(value) => value,
        None => {
            return so_far;
        },
    };
    let e = substitute_texts(&value, known);
    let (found, mut left) = find_worth(h, sums, q, s, &e, known, &purse.view);
    let ghost before = purse.deep_view();
    let ghost more = left.deep_view();
    purse.aside.append(&mut left);
    assert(purse.aside.deep_view() =~= before.aside + more);
    assert(purse.deep_view() == purse_with(before, more));
    match found {
        Some(worth) => {
            put_worth(purse, s.naming.prefix.as_str(), c.name.as_str(), worth);
            true
        },
        None => so_far,
    }
}

/// What the fields of a record settle to does not depend on whether anything
/// moved before them.
proof fn lemma_fields_move(
    g: GroundV,
    s: StandV,
    c: ComponentV,
    fields: Seq<ComponentV>,
    purse: PurseV,
    moved: bool,
    n: nat,
)
    ensures
        ({
            let fresh = fields_asked(g, s, c, fields, MovedV { purse, moved: false }, n);
            let after = fields_asked(g, s, c, fields, MovedV { purse, moved }, n);
            after.purse == fresh.purse && after.moved == (moved || fresh.moved)
        }),
    decreases n,
{
    if n > 0 && n <= fields.len() {
        lemma_fields_move(g, s, c, fields, purse, moved, (n - 1) as nat);
    }
}

proof fn lemma_record_moves(
    g: GroundV,
    s: StandV,
    c: ComponentV,
    from_extends: Option<ExprV>,
    purse: PurseV,
    moved: bool,
)
    ensures
        ({
            let fresh = record_asked(g, s, c, from_extends, MovedV { purse, moved: false });
            let after = record_asked(g, s, c, from_extends, MovedV { purse, moved });
            after.purse == fresh.purse && after.moved == (moved || fresh.moved)
        }),
{
    match meaning(g.classes, c.of_type, s.scope, s.imports) {
        Some(record) => {
            let fields = gathered_over(g.classes, record, Seq::empty(), 0);
            lemma_fields_move(g, s, c, fields, purse, moved, fields.len());
        },
        None => {},
    }
}

fn copy_numbers(table: &Table<Number>) -> (r: Table<Number>)
    ensures
        r.deep_view() == table.deep_view(),
{
    let none: Table<Number> = Table::new();
    let out = overlay(&none, table);
    assert(out.deep_view() =~= table.deep_view());
    out
}

/// Work out what every parameter in view is worth, run until nothing moves:
/// this class's own declarations and the ones its bases hand down, then the
/// same values under the instance path and everything the model has settled so
/// far.
fn settle_parameters<
    A1: Fn(&Expr, &str, &Vec<(String, String)>, &Vec<String>) -> Expr,
    A2: Fn(&ClassDef, &Table<Number>, &Vec<(String, Expr)>) -> Table<Vec<i64>>,
    A3: Fn(&Expr, &Table<String>) -> Option<String>,
    A4: Fn(&Expr, &Table<Number>, &str, &Vec<(String, String)>) -> (Result<Expr, String>, Vec<(Expr, String)>),
    A5: Fn(&Expr, &Table<String>, &Table<Number>) -> Result<Expr, String>,
    A6: Fn(&ClassDef, &Vec<(String, String)>) -> Option<String>,
    A7: Fn(&ClassDef, &Env, &Floor, Course, Built) -> Result<(Course, Built), String>,
    A8: Fn(&ClassDef, &Env, &Here, &Table<Vec<i64>>, &Built, Course) -> Result<(Course, Vec<bool>), String>,
    A9: Fn(&Expr, &Here) -> Result<(Expr, Vec<(Expr, String)>), String>,
    W: Fn(Arith, Number, Number) -> Number,
    O: Fn(&str, &Vec<Number>) -> Option<Vec<Number>>,
    N: Fn(&str) -> String,
>(
    h: &Building<A1, A2, A3, A4, A5, A6, A7, A8, A9>,
    sums: &Sums<W, O, N>,
    q: &Ground,
    s: &Stand,
    said: &Vec<(String, Expr)>,
    known: &Table<String>,
    class: &ClassDef,
    parts: &Vec<(Component, Option<Expr>)>,
    consts: Table<Number>,
) -> (r: (Table<Number>, Table<Number>, Vec<(Expr, String)>))
    requires
        builds_true(*h),
        is_steady(*sums),
        parts.deep_view() == parts_of(q.registry@, *class),
    ensures
        r.deep_view() == parameters_settled(
            ground_of(*h, *sums, *q),
            s.deep_view(),
            said.deep_view(),
            known.deep_view(),
            *class,
            consts.deep_view(),
        ),
{
    let ghost g = ground_of(*h, *sums, *q);
    let ghost sv = s.deep_view();
    let ghost av = said.deep_view();
    let ghost kv = known.deep_view();
    let ghost pv = parts.deep_view();
    let view = copy_numbers(&consts);
    let aside: Vec<(Expr, String)> = Vec::new();
    assert(aside.deep_view() =~= Seq::empty());
    let mut purse = Purse { local: Table::new(), view, consts, aside };
    let ghost first = purse.deep_view();
    let ghost done = purse_settled(g, sv, av, kv, *class, pv, first, ROUNDS as nat);
    let mut rounds: u64 = ROUNDS;
    let mut going = true;
    while going && rounds > 0
        invariant
            builds_true(*h),
            is_steady(*sums),
            g == ground_of(*h, *sums, *q),
            sv == s.deep_view(),
            av == said.deep_view(),
            kv == known.deep_view(),
            pv == parts.deep_view(),
            going ==> done == purse_settled(
                g,
                sv,
                av,
                kv,
                *class,
                pv,
                purse.deep_view(),
                rounds as nat,
            ),
            !going ==> done == purse.deep_view(),
        decreases rounds,
    {
        let ghost start = purse.deep_view();
        let shapes = h.do_measure(class, &purse.local, said);
        let ghost hv = shapes.deep_view();
        let mut moved = false;
        let mut i: usize = 0;
        while i < parts.len()
            invariant
                i <= parts.len(),
            builds_true(*h),
            is_steady(*sums),
            g == ground_of(*h, *sums, *q),
                sv == s.deep_view(),
                av == said.deep_view(),
                kv == known.deep_view(),
                pv == parts.deep_view(),
                hv == shapes.deep_view(),
                parts_asked(g, sv, av, kv, hv, pv, start, i as nat) == (MovedV {
                    purse: purse.deep_view(),
                    moved,
                }),
            decreases parts.len() - i,
        {
            assert(pv[i as int] == parts@[i as int].deep_view());
            moved = ask_part(h, sums, q, s, said, known, &shapes, &parts[i], &mut purse, moved);
            i = i + 1;
        }
        assert(pv.len() == parts@.len());
        going = moved;
        rounds = rounds - 1;
    }
    assert(done == purse.deep_view());
    let both = if s.naming.prefix.as_str().unicode_len() > 0 {
        let under = prefix_all(&purse.local, s.naming.prefix.as_str());
        overlay(&purse.local, &under)
    } else {
        purse.local
    };
    let all = overlay(&purse.consts, &both);
    (all, purse.consts, purse.aside)
}

/// What a table holds under the names that a prefix is put before.
pub open spec fn stripped<V>(table: Map<Seq<char>, V>, prefix: Seq<char>) -> Map<Seq<char>, V> {
    Map::new(
        |name: Seq<char>| table.contains_key(prefix + name),
        |name: Seq<char>| table[prefix + name],
    )
}

/// Of those, the names of the class itself.
pub open spec fn near(table: Worths, prefix: Seq<char>) -> Worths {
    Map::new(
        |name: Seq<char>| !name.contains('.') && table.contains_key(prefix + name),
        |name: Seq<char>| table[prefix + name],
    )
}

proof fn lemma_prefixed_name(full: Seq<char>, prefix: Seq<char>, short: Seq<char>)
    requires
        full == prefix + short,
    ensures
        forall|n: Seq<char>| (#[trigger] (prefix + n)) == full <==> n == short,
{
    assert forall|n: Seq<char>| (#[trigger] (prefix + n)) == full <==> n == short by {
        if prefix + n == full {
            assert((prefix + n).skip(prefix.len() as int) =~= n);
            assert(full.skip(prefix.len() as int) =~= short);
        }
    }
}

pub fn has_dot(s: &str) -> (r: bool)
    ensures
        r == s@.contains('.'),
{
    match split_last(s, '.') {
        Some((head, tail)) => {
            proof {
                crate::text::law_cut_last_joins_back(s@, '.');
                crate::text::lemma_last_of(s@, '.');
                assert(s@[crate::text::last_of(s@, '.')] == '.');
            }
            true
        },
        None => {
            proof {
                crate::text::lemma_last_of(s@, '.');
            }
            false
        },
    }
}

fn find_near(table: &Table<Number>, prefix: &str) -> (r: Table<Number>)
    ensures
        r.deep_view() == near(table.deep_view(), prefix@),
{
    let ghost all = table.entries.deep_view();
    let mut out: Table<Number> = Table::new();
    let mut i: usize = 0;
    assert(all.take(0) =~= Seq::empty());
    assert(out.deep_view() =~= near(entered(all.take(0)), prefix@));
    while i < table.entries.len()
        invariant
            i <= table.entries.len(),
            all == table.entries.deep_view(),
            out.deep_view() == near(entered(all.take(i as int)), prefix@),
        decreases table.entries.len() - i,
    {
        assert(all[i as int] == table.entries@[i as int].deep_view());
        assert(all.take(i + 1).drop_last() =~= all.take(i as int));
        let ghost full = table.entries@[i as int].0@;
        match without_head(table.entries[i].0.as_str(), prefix) {
            Some(short) => {
                proof {
                    assert(full =~= prefix@ + short@);
                    lemma_prefixed_name(full, prefix@, short@);
                }
                let ghost sv = short@;
                if !has_dot(short.as_str()) {
                    out.put(short, table.entries[i].1);
                }
                assert(out.deep_view() =~= near(entered(all.take(i + 1)), prefix@));
            },
            None => {
                proof {
                    assert forall|n: Seq<char>| (#[trigger] (prefix@ + n)) != full by {
                        if prefix@ + n == full {
                            assert(full.take(prefix@.len() as int) =~= prefix@);
                        }
                    }
                }
                assert(out.deep_view() =~= near(entered(all.take(i + 1)), prefix@));
            },
        }
        i = i + 1;
    }
    assert(all.take(i as int) =~= all);
    out
}

/// Put under its local name every length that a prefix is put before.
fn put_stripped(under: &mut Table<Vec<i64>>, more: &Table<Vec<i64>>, prefix: &str)
    ensures
        final(under).deep_view() == overlaid(
            old(under).deep_view(),
            stripped(more.deep_view(), prefix@),
        ),
{
    let ghost start = under.deep_view();
    let ghost all = more.entries.deep_view();
    let mut i: usize = 0;
    assert(all.take(0) =~= Seq::empty());
    assert(under.deep_view() =~= overlaid(start, stripped(entered(all.take(0)), prefix@)));
    while i < more.entries.len()
        invariant
            i <= more.entries.len(),
            all == more.entries.deep_view(),
            under.deep_view() == overlaid(start, stripped(entered(all.take(i as int)), prefix@)),
        decreases more.entries.len() - i,
    {
        assert(all[i as int] == more.entries@[i as int].deep_view());
        assert(all.take(i + 1).drop_last() =~= all.take(i as int));
        let ghost full = more.entries@[i as int].0@;
        match without_head(more.entries[i].0.as_str(), prefix) {
            Some(short) => {
                proof {
                    assert(full =~= prefix@ + short@);
                    lemma_prefixed_name(full, prefix@, short@);
                }
                let shape = crate::names::same_indices(&more.entries[i].1);
                assert(shape.deep_view() =~= more.entries@[i as int].1.deep_view());
                under.put(short, shape);
                assert(under.deep_view() =~= overlaid(
                    start,
                    stripped(entered(all.take(i + 1)), prefix@),
                ));
            },
            None => {
                proof {
                    assert forall|n: Seq<char>| (#[trigger] (prefix@ + n)) != full by {
                        if prefix@ + n == full {
                            assert(full.take(prefix@.len() as int) =~= prefix@);
                        }
                    }
                }
                assert(under.deep_view() =~= overlaid(
                    start,
                    stripped(entered(all.take(i + 1)), prefix@),
                ));
            },
        }
        i = i + 1;
    }
    assert(all.take(i as int) =~= all);
}

/// Put every length of a table into another.
fn put_lengths(under: &mut Table<Vec<i64>>, more: &Table<Vec<i64>>)
    ensures
        final(under).deep_view() == overlaid(old(under).deep_view(), more.deep_view()),
{
    let ghost start = under.deep_view();
    let ghost all = more.entries.deep_view();
    let mut i: usize = 0;
    assert(all.take(0) =~= Seq::empty());
    assert(under.deep_view() =~= overlaid(start, entered(all.take(0))));
    while i < more.entries.len()
        invariant
            i <= more.entries.len(),
            all == more.entries.deep_view(),
            under.deep_view() == overlaid(start, entered(all.take(i as int))),
        decreases more.entries.len() - i,
    {
        assert(all[i as int] == more.entries@[i as int].deep_view());
        assert(all.take(i + 1).drop_last() =~= all.take(i as int));
        let shape = crate::names::same_indices(&more.entries[i].1);
        assert(shape.deep_view() =~= more.entries@[i as int].1.deep_view());
        under.put(more.entries[i].0.clone(), shape);
        assert(under.deep_view() =~= overlaid(start, entered(all.take(i + 1))));
        i = i + 1;
    }
    assert(all.take(i as int) =~= all);
}

/// Whether one of a class's own declarations is a shared instance.
pub open spec fn shares(class: ClassDef) -> bool {
    exists|i: int|
        0 <= i < class.components@.len() && (#[trigger] class.components@[i]).scope == Scope::Inner
}

fn does_share(class: &ClassDef) -> (r: bool)
    ensures
        r == shares(*class),
{
    let mut i: usize = 0;
    while i < class.components.len()
        invariant
            i <= class.components.len(),
            forall|k: int| 0 <= k < i ==> (#[trigger] class.components@[k]).scope != Scope::Inner,
        decreases class.components.len() - i,
    {
        if class.components[i].scope == Scope::Inner {
            assert(class.components@[i as int].scope == Scope::Inner);
            return true;
        }
        i = i + 1;
    }
    false
}

/// What names mean inside a class, and what was settled to say so.
#[derive(Debug)]
pub struct Prepared {
    pub course: Course,
    pub stand: Stand,
    pub inners: Vec<(String, InnerInstance)>,
    pub redeclares: Vec<Redeclare>,
    pub local_texts: Table<String>,
}

pub ghost struct PreparedV {
    pub course: CourseV,
    pub stand: StandV,
    pub inners: Inners,
    pub redeclares: Seq<RedeclareV>,
    pub local_texts: Map<Seq<char>, Seq<char>>,
}

impl DeepView for Prepared {
    type V = PreparedV;

    open spec fn deep_view(&self) -> PreparedV {
        PreparedV {
            course: self.course.deep_view(),
            stand: self.stand.deep_view(),
            inners: self.inners.deep_view(),
            redeclares: self.redeclares.deep_view(),
            local_texts: self.local_texts.deep_view(),
        }
    }
}

/// The course with the instance it has come to opened: every equation the
/// class puts in is stamped with it.
pub open spec fn opened(class: ClassDef, prefix: Seq<char>, course: CourseV) -> CourseV {
    let origin = undotted(prefix);
    CourseV {
        flat: FlatV { origin, ..course.flat },
        instances: if class.kind.is_modelled() {
            course.instances.insert(origin, class.name@)
        } else {
            course.instances
        },
        ..course
    }
}

/// What stands against a class being read at all, asked once of each.
pub open spec fn restricted(
    g: GroundV,
    class: ClassDef,
    imports: Pairs,
    checked: Seq<Seq<char>>,
) -> Option<Seq<char>> {
    if checked.contains(class.name@) {
        None
    } else {
        let view = ViewV { classes: g.classes, class: &class, imports };
        match class_reach(view) {
            Some(reach) => Some(reach_told(view, reach)),
            None => (g.h.kept)(class, imports),
        }
    }
}

/// The names of a class's own declarations.
pub open spec fn own_names(class: ClassDef) -> Seq<Seq<char>> {
    Seq::new(class.components@.len(), |i: int| class.components@[i].name@)
}

pub fn list_names(class: &ClassDef) -> (r: Vec<String>)
    ensures
        texts(r@) == own_names(*class),
{
    let mut out: Vec<String> = Vec::new();
    let mut i: usize = 0;
    while i < class.components.len()
        invariant
            i <= class.components.len(),
            out.len() == i,
            forall|k: int| 0 <= k < i ==> (#[trigger] out@[k])@ == class.components@[k].name@,
        decreases class.components.len() - i,
    {
        out.push(class.components[i].name.clone());
        i = i + 1;
    }
    assert(texts(out@) =~= own_names(*class));
    out
}

/// What names mean in a class, the redeclarations that reach it, and the text
/// of its `String` parameters.
pub open spec fn naming_settled(
    g: GroundV,
    class: ClassDef,
    env: EnvV,
    naming: NamingV,
    inners: Inners,
    course: CourseV,
) -> Result<PreparedV, Seq<char>> {
    match own_redeclared(g, class, naming, class.components@.len()) {
        Err(why) => Err(why),
        Ok(own) => match body_redeclared(
            g,
            class,
            own + env.redeclares,
            class.class_aliases@.len(),
        ) {
            Err(why) => Err(why),
            Ok(redeclares) => match in_force(
                g.classes,
                class,
                SiteV { scope: class.name@, redeclares, naming, twice: g.twice },
                0,
            ) {
                Err(why) => Err(why),
                Ok(force) => match restricted(g, class, force.imports, course.checked) {
                    Some(why) => Err(why),
                    None => {
                        let stand = StandV {
                            scope: class.name@,
                            naming,
                            imports: force.imports,
                            shadow: own_names(class),
                        };
                        Ok(
                            PreparedV {
                                course: CourseV {
                                    checked: if course.checked.contains(class.name@) {
                                        course.checked
                                    } else {
                                        course.checked.push(class.name@)
                                    },
                                    filled: course.filled + force.filled,
                                    given: course.given + force.given,
                                    ..course
                                },
                                stand,
                                inners,
                                redeclares,
                                local_texts: texts_settled(
                                    g,
                                    stand,
                                    env.overrides,
                                    parts_of(g.classes, class),
                                    Map::empty(),
                                    MAX_DEPTH as nat,
                                ),
                            },
                        )
                    },
                },
            },
        },
    }
}

/// The course once the shared instances of a class and its own parameters are
/// settled as far as they are before its bases are built.
pub open spec fn early_course(
    g: GroundV,
    class: ClassDef,
    env: EnvV,
    p: PreparedV,
) -> CourseV {
    let list = by_path(p.inners, p.inners.len());
    let consts = if shares(class) {
        inners_settled(g, p.stand, list, p.course.flat.const_values, list.len())
    } else {
        p.course.flat.const_values
    };
    let done = early_settled(
        g,
        p.stand,
        env.overrides,
        class,
        EarlyV { consts, numbers: p.course.numbers, settled: Seq::empty(), moved: false },
        ROUNDS as nat,
    );
    CourseV {
        flat: FlatV { const_values: done.consts, ..p.course.flat },
        numbers: done.numbers,
        ..p.course
    }
}

/// Everything that is settled of a class before its bases are built.
pub open spec fn prepared(
    g: GroundV,
    class: ClassDef,
    prefix: Seq<char>,
    env: EnvV,
    course: CourseV,
) -> Result<PreparedV, Seq<char>> {
    let inners = inners_of(g.classes, class, prefix, env.inners, 0);
    match outers_bound(g.classes, class, inners, 0) {
        Err(why) => Err(why),
        Ok(outers) => match naming_settled(
            g,
            class,
            env,
            NamingV { prefix, outers, minted: g.minted },
            inners,
            opened(class, prefix, course),
        ) {
            Err(why) => Err(why),
            Ok(p) => Ok(PreparedV { course: early_course(g, class, env, p), ..p }),
        },
    }
}

fn open_instance(class: &ClassDef, prefix: &str, course: Course) -> (r: Course)
    ensures
        r.deep_view() == opened(*class, prefix@, course.deep_view()),
{
    let mut next = course;
    let origin = without_dots(prefix);
    if class.kind.is_model() {
        next.instances.put(origin.clone(), class.name.clone());
    }
    let mut flat = next.flat;
    flat.origin = origin;
    next.flat = flat;
    next
}

fn check_restrictions<'a,
    A1: Fn(&Expr, &str, &Vec<(String, String)>, &Vec<String>) -> Expr,
    A2: Fn(&ClassDef, &Table<Number>, &Vec<(String, Expr)>) -> Table<Vec<i64>>,
    A3: Fn(&Expr, &Table<String>) -> Option<String>,
    A4: Fn(&Expr, &Table<Number>, &str, &Vec<(String, String)>) -> (Result<Expr, String>, Vec<(Expr, String)>),
    A5: Fn(&Expr, &Table<String>, &Table<Number>) -> Result<Expr, String>,
    A6: Fn(&ClassDef, &Vec<(String, String)>) -> Option<String>,
    A7: Fn(&ClassDef, &Env, &Floor, Course, Built) -> Result<(Course, Built), String>,
    A8: Fn(&ClassDef, &Env, &Here, &Table<Vec<i64>>, &Built, Course) -> Result<(Course, Vec<bool>), String>,
    A9: Fn(&Expr, &Here) -> Result<(Expr, Vec<(Expr, String)>), String>,
    W: Fn(Arith, Number, Number) -> Number,
    O: Fn(&str, &Vec<Number>) -> Option<Vec<Number>>,
    N: Fn(&str) -> String,
>(
    h: &Building<A1, A2, A3, A4, A5, A6, A7, A8, A9>,
    sums: &Sums<W, O, N>,
    q: &Ground<'_, 'a>,
    class: &'a ClassDef,
    imports: &Vec<(String, String)>,
    checked: &Vec<String>,
) -> (r: Option<String>)
    requires
        builds_true(*h),
        is_steady(*sums),
    ensures
        r.deep_view() == restricted(
            ground_of(*h, *sums, *q),
            *class,
            imports.deep_view(),
            texts(checked@),
        ),
{
    if holds(checked, class.name.as_str()) {
        return None;
    }
    if let Err(why) = nothing_reaches_inside(q.registry, class, imports) {
        return Some(why);
    }
    h.do_kept(class, imports)
}

/// Settle what names mean inside one class: the redeclarations that reach it,
/// the imports in force once they are applied, the component names a wildcard
/// import may not stand in for, and what its `String` parameters are worth.
fn settle_naming<'a,
    A1: Fn(&Expr, &str, &Vec<(String, String)>, &Vec<String>) -> Expr,
    A2: Fn(&ClassDef, &Table<Number>, &Vec<(String, Expr)>) -> Table<Vec<i64>>,
    A3: Fn(&Expr, &Table<String>) -> Option<String>,
    A4: Fn(&Expr, &Table<Number>, &str, &Vec<(String, String)>) -> (Result<Expr, String>, Vec<(Expr, String)>),
    A5: Fn(&Expr, &Table<String>, &Table<Number>) -> Result<Expr, String>,
    A6: Fn(&ClassDef, &Vec<(String, String)>) -> Option<String>,
    A7: Fn(&ClassDef, &Env, &Floor, Course, Built) -> Result<(Course, Built), String>,
    A8: Fn(&ClassDef, &Env, &Here, &Table<Vec<i64>>, &Built, Course) -> Result<(Course, Vec<bool>), String>,
    A9: Fn(&Expr, &Here) -> Result<(Expr, Vec<(Expr, String)>), String>,
    W: Fn(Arith, Number, Number) -> Number,
    O: Fn(&str, &Vec<Number>) -> Option<Vec<Number>>,
    N: Fn(&str) -> String,
>(
    h: &Building<A1, A2, A3, A4, A5, A6, A7, A8, A9>,
    sums: &Sums<W, O, N>,
    q: &Ground<'_, 'a>,
    class: &'a ClassDef,
    env: &Env,
    naming: Naming,
    inners: Vec<(String, InnerInstance)>,
    course: Course,
) -> (r: Result<Prepared, String>)
    requires
        builds_true(*h),
        is_steady(*sums),
    ensures
        told(r) == naming_settled(
            ground_of(*h, *sums, *q),
            *class,
            env.deep_view(),
            naming.deep_view(),
            inners.deep_view(),
            course.deep_view(),
        ),
{
    let ghost cv = course.deep_view();
    let mut start = match redeclare_own(h, sums, q, class, &naming) {
        Ok(own) => own,
        Err(why) => {
            return Err(why);
        },
    };
    let ghost ov = start.deep_view();
    let mut more = crate::class::copied(env.redeclares);
    start.append(&mut more);
    assert(start.deep_view() =~= ov + env.deep_view().redeclares);
    let redeclares = match redeclare_body(h, sums, q, class, start) {
        Ok(redeclares) => redeclares,
        Err(why) => {
            return Err(why);
        },
    };
    let site = Site {
        scope: class.name.as_str(),
        redeclares: &redeclares,
        naming: &naming,
        twice: q.twice,
    };
    let force = match effective_imports(q.registry, class, &site, 0) {
        Ok(force) => force,
        Err(why) => {
            return Err(why);
        },
    };
    if let Some(why) = check_restrictions(h, sums, q, class, &force.imports, &course.checked) {
        return Err(why);
    }
    let ghost fv = force.deep_view();
    let mut next = course;
    if !holds(&next.checked, class.name.as_str()) {
        let ghost before = texts(next.checked@);
        next.checked.push(class.name.clone());
        assert(texts(next.checked@) =~= before.push(class.name@));
    }
    let mut filled = force.filled;
    let mut given = force.given;
    next.filled.append(&mut filled);
    next.given.append(&mut given);
    assert(next.filled.deep_view() =~= cv.filled + fv.filled);
    assert(next.given.deep_view() =~= cv.given + fv.given);
    let stand = Stand {
        scope: class.name.clone(),
        naming,
        imports: force.imports,
        shadow: list_names(class),
    };
    let parts = list_parts(q.registry, class);
    let local_texts = settle_texts(h, sums, q, &stand, env.overrides, &parts);
    Ok(Prepared { course: next, stand, inners, redeclares, local_texts })
}

fn settle_early<
    A1: Fn(&Expr, &str, &Vec<(String, String)>, &Vec<String>) -> Expr,
    A2: Fn(&ClassDef, &Table<Number>, &Vec<(String, Expr)>) -> Table<Vec<i64>>,
    A3: Fn(&Expr, &Table<String>) -> Option<String>,
    A4: Fn(&Expr, &Table<Number>, &str, &Vec<(String, String)>) -> (Result<Expr, String>, Vec<(Expr, String)>),
    A5: Fn(&Expr, &Table<String>, &Table<Number>) -> Result<Expr, String>,
    A6: Fn(&ClassDef, &Vec<(String, String)>) -> Option<String>,
    A7: Fn(&ClassDef, &Env, &Floor, Course, Built) -> Result<(Course, Built), String>,
    A8: Fn(&ClassDef, &Env, &Here, &Table<Vec<i64>>, &Built, Course) -> Result<(Course, Vec<bool>), String>,
    A9: Fn(&Expr, &Here) -> Result<(Expr, Vec<(Expr, String)>), String>,
    W: Fn(Arith, Number, Number) -> Number,
    O: Fn(&str, &Vec<Number>) -> Option<Vec<Number>>,
    N: Fn(&str) -> String,
>(
    h: &Building<A1, A2, A3, A4, A5, A6, A7, A8, A9>,
    sums: &Sums<W, O, N>,
    q: &Ground,
    class: &ClassDef,
    env: &Env,
    p: Prepared,
) -> (r: Prepared)
    requires
        builds_true(*h),
        is_steady(*sums),
    ensures
        r.deep_view() == (PreparedV {
            course: early_course(ground_of(*h, *sums, *q), *class, env.deep_view(), p.deep_view()),
            ..p.deep_view()
        }),
{
    let mut course = p.course;
    let mut flat = course.flat;
    let mut consts = flat.const_values;
    let mut numbers = course.numbers;
    if does_share(class) {
        settle_the_inner_instances(h, sums, q, &p.stand, &p.inners, &mut consts);
    }
    settle_parameters_early(
        h,
        sums,
        q,
        &p.stand,
        env.overrides,
        class,
        &mut consts,
        &mut numbers,
    );
    flat.const_values = consts;
    course.flat = flat;
    course.numbers = numbers;
    Prepared {
        course,
        stand: p.stand,
        inners: p.inners,
        redeclares: p.redeclares,
        local_texts: p.local_texts,
    }
}

fn prepare<'a,
    A1: Fn(&Expr, &str, &Vec<(String, String)>, &Vec<String>) -> Expr,
    A2: Fn(&ClassDef, &Table<Number>, &Vec<(String, Expr)>) -> Table<Vec<i64>>,
    A3: Fn(&Expr, &Table<String>) -> Option<String>,
    A4: Fn(&Expr, &Table<Number>, &str, &Vec<(String, String)>) -> (Result<Expr, String>, Vec<(Expr, String)>),
    A5: Fn(&Expr, &Table<String>, &Table<Number>) -> Result<Expr, String>,
    A6: Fn(&ClassDef, &Vec<(String, String)>) -> Option<String>,
    A7: Fn(&ClassDef, &Env, &Floor, Course, Built) -> Result<(Course, Built), String>,
    A8: Fn(&ClassDef, &Env, &Here, &Table<Vec<i64>>, &Built, Course) -> Result<(Course, Vec<bool>), String>,
    A9: Fn(&Expr, &Here) -> Result<(Expr, Vec<(Expr, String)>), String>,
    W: Fn(Arith, Number, Number) -> Number,
    O: Fn(&str, &Vec<Number>) -> Option<Vec<Number>>,
    N: Fn(&str) -> String,
>(
    h: &Building<A1, A2, A3, A4, A5, A6, A7, A8, A9>,
    sums: &Sums<W, O, N>,
    q: &Ground<'_, 'a>,
    class: &'a ClassDef,
    prefix: &str,
    env: &Env,
    course: Course,
) -> (r: Result<Prepared, String>)
    requires
        builds_true(*h),
        is_steady(*sums),
    ensures
        told(r) == prepared(
            ground_of(*h, *sums, *q),
            *class,
            prefix@,
            env.deep_view(),
            course.deep_view(),
        ),
{
    let next = open_instance(class, prefix, course);
    let mut inners = copy_inners(env.inners);
    collect_inners(q.registry, class, prefix, &mut inners, 0);
    let outers = match bind_outers(q.registry, class, &inners) {
        Ok(outers) => outers,
        Err(why) => {
            return Err(why);
        },
    };
    let naming = Naming { prefix: prefix.to_owned(), outers, minted: copy_texts(q.minted) };
    match settle_naming(h, sums, q, class, env, naming, inners, next) {
        Ok(p) => Ok(settle_early(h, sums, q, class, env, p)),
        Err(why) => Err(why),
    }
}

/// The base that the `i`-th `extends` of a class names.
pub open spec fn base_meant(g: GroundV, class: ClassDef, i: int, imports: Pairs) -> Result<
    ClassDef,
    Seq<char>,
> {
    let extend = class.extends@[i];
    if extend.from_base {
        match inherited_of(g.classes, class, extend.base@, 0) {
            Some(base) => Ok(base),
            None => Err(
                "`"@ + class.name@ + "` redeclares `"@ + extend.base@
                    + "` by extending it, and no base of `"@ + (match cut_last(class.name@, '.') {
                    Some((head, _)) => head,
                    None => ""@,
                }) + "` declares one"@,
            ),
        }
    } else {
        match meaning(g.classes, extend.base@, class.name@, imports) {
            Some(base) => Ok(base),
            None => Err("unknown base class `"@ + extend.base@ + "`"@),
        }
    }
}

fn find_base_meant<'a,
    A1: Fn(&Expr, &str, &Vec<(String, String)>, &Vec<String>) -> Expr,
    A2: Fn(&ClassDef, &Table<Number>, &Vec<(String, Expr)>) -> Table<Vec<i64>>,
    A3: Fn(&Expr, &Table<String>) -> Option<String>,
    A4: Fn(&Expr, &Table<Number>, &str, &Vec<(String, String)>) -> (Result<Expr, String>, Vec<(Expr, String)>),
    A5: Fn(&Expr, &Table<String>, &Table<Number>) -> Result<Expr, String>,
    A6: Fn(&ClassDef, &Vec<(String, String)>) -> Option<String>,
    A7: Fn(&ClassDef, &Env, &Floor, Course, Built) -> Result<(Course, Built), String>,
    A8: Fn(&ClassDef, &Env, &Here, &Table<Vec<i64>>, &Built, Course) -> Result<(Course, Vec<bool>), String>,
    A9: Fn(&Expr, &Here) -> Result<(Expr, Vec<(Expr, String)>), String>,
    W: Fn(Arith, Number, Number) -> Number,
    O: Fn(&str, &Vec<Number>) -> Option<Vec<Number>>,
    N: Fn(&str) -> String,
>(
    h: &Building<A1, A2, A3, A4, A5, A6, A7, A8, A9>,
    sums: &Sums<W, O, N>,
    q: &Ground<'_, 'a>,
    class: &ClassDef,
    i: usize,
    imports: &Vec<(String, String)>,
) -> (r: Result<&'a ClassDef, String>)
    requires
        i < class.extends@.len(),
    ensures
        match (r, base_meant(ground_of(*h, *sums, *q), *class, i as int, imports.deep_view())) {
            (Ok(found), Ok(meant)) => *found == meant,
            (Err(why), Err(said)) => why@ == said,
            _ => false,
        },
{
    let extend = &class.extends[i];
    if extend.from_base {
        match inherited_class(q.registry, class, extend.base.as_str(), 0) {
            Some(base) => Ok(base),
            None => {
                let head = match split_last(class.name.as_str(), '.') {
                    Some((head, _)) => head,
                    None => "".to_owned(),
                };
                Err(
                    join7(
                        "`",
                        class.name.as_str(),
                        "` redeclares `",
                        extend.base.as_str(),
                        "` by extending it, and no base of `",
                        head.as_str(),
                        "` declares one",
                    ),
                )
            },
        }
    } else {
        match lookup(q.registry, extend.base.as_str(), class.name.as_str(), imports) {
            Some(base) => Ok(base),
            None => Err(join3("unknown base class `", extend.base.as_str(), "`")),
        }
    }
}

/// What the values handed to a base name, measured where those names still
/// mean something.
pub open spec fn handed_shapes(
    g: GroundV,
    class: ClassDef,
    env: EnvV,
    s: StandV,
    consts: Worths,
) -> Lengths {
    all_prefixed(
        (g.h.measure)(class, near(consts, s.naming.prefix), env.overrides),
        s.naming.prefix,
    )
}

/// The values handed to a base: what the site wrote outranks what the
/// `extends` says, and a length that is asked after is answered here.
pub open spec fn base_values(
    g: GroundV,
    class: ClassDef,
    env: EnvV,
    s: StandV,
    consts: Worths,
    extend: Extends,
) -> Seq<(Seq<char>, ExprV)> {
    let said = all_put(g, extend.modifiers.deep_view(), s);
    env.overrides + Seq::new(
        said.len(),
        |i: int|
            (
                said[i].0,
                measured_in(
                    said[i].1,
                    near(consts, s.naming.prefix),
                    handed_shapes(g, class, env, s, consts),
                    g.v,
                ),
            ),
    )
}

/// The course once the `i`-th base of a class is taken in; a base that another
/// road brought in under the same path already is taken in once.
pub open spec fn base_taken(
    g: GroundV,
    class: ClassDef,
    env: EnvV,
    p: PreparedV,
    course: CourseV,
    depth: nat,
    i: int,
) -> Result<CourseV, Seq<char>>
    decreases MAX_DEPTH + 1 - depth, 0int, 0nat,
{
    let prefix = p.stand.naming.prefix;
    if depth > MAX_DEPTH {
        Ok(course)
    } else {
        match base_meant(g, class, i, p.stand.imports) {
            Err(why) => Err(why),
            Ok(base) => if course.extended.contains((prefix, base.name@)) {
                Ok(course)
            } else {
                let extend = class.extends@[i];
                match all_qualified(
                    g,
                    extend.redeclares@,
                    class,
                    p.stand.naming,
                    extend.redeclares@.len(),
                ) {
                    Err(why) => Err(why),
                    Ok(own) => instantiated(
                        g,
                        base,
                        prefix,
                        EnvV {
                            overrides: base_values(
                                g,
                                class,
                                env,
                                p.stand,
                                course.flat.const_values,
                                extend,
                            ),
                            handed_shapes: handed_shapes(
                                g,
                                class,
                                env,
                                p.stand,
                                course.flat.const_values,
                            ),
                            outer_sizes: env.outer_sizes,
                            redeclares: own + p.redeclares,
                            inners: p.inners,
                            broken: extend.broken@,
                            inside_a_parameter: env.inside_a_parameter,
                            mark: env.mark,
                        },
                        CourseV {
                            extended: course.extended.push((prefix, base.name@)),
                            ..course
                        },
                        depth + 1,
                    ),
                }
            },
        }
    }
}

/// The course once the first `n` bases of a class are taken in.
pub open spec fn bases_taken(
    g: GroundV,
    class: ClassDef,
    env: EnvV,
    p: PreparedV,
    depth: nat,
    n: nat,
) -> Result<CourseV, Seq<char>>
    decreases MAX_DEPTH + 1 - depth, 1int, n,
{
    if n == 0 || n > class.extends@.len() || depth > MAX_DEPTH {
        Ok(p.course)
    } else {
        match bases_taken(g, class, env, p, depth, (n - 1) as nat) {
            Err(why) => Err(why),
            Ok(before) => base_taken(g, class, env, p, before, depth, n - 1),
        }
    }
}

/// The model's lengths with the constant arrays among the first `n`
/// declarations of a class offered, those nothing else has measured.
pub open spec fn constants_offered(
    class: ClassDef,
    prefix: Seq<char>,
    here: Lengths,
    start: Seq<(Seq<char>, Seq<i64>)>,
    n: nat,
) -> Seq<(Seq<char>, Seq<i64>)>
    decreases n,
{
    if n == 0 || n > class.components@.len() {
        start
    } else {
        let before = constants_offered(class, prefix, here, start, (n - 1) as nat);
        let c = class.components@[n - 1];
        let named = prefix + c.name@;
        if c.variability == Variability::Constant && c.dimensions@.len() > 0 && !is_measured(
            before,
            named,
        ) && here.contains_key(named) {
            before.push((named, here[named]))
        } else {
            before
        }
    }
}

/// Whether a list of lengths has one for a name.
pub open spec fn is_measured(list: Seq<(Seq<char>, Seq<i64>)>, name: Seq<char>) -> bool {
    exists|i: int| 0 <= i < list.len() && (#[trigger] list[i]).0 == name
}

fn has_length(list: &Vec<(String, Vec<i64>)>, name: &str) -> (r: bool)
    ensures
        r == is_measured(list.deep_view(), name@),
{
    let ghost all = list.deep_view();
    let mut i: usize = 0;
    while i < list.len()
        invariant
            i <= list.len(),
            all == list.deep_view(),
            forall|k: int| 0 <= k < i ==> (#[trigger] all[k]).0 != name@,
        decreases list.len() - i,
    {
        assert(all[i as int] == list@[i as int].deep_view());
        if same(list[i].0.as_str(), name) {
            assert(all[i as int].0 == name@);
            return true;
        }
        i = i + 1;
    }
    false
}

fn offer_constants(
    class: &ClassDef,
    prefix: &str,
    here: &Table<Vec<i64>>,
    sizes: &mut Vec<(String, Vec<i64>)>,
)
    ensures
        final(sizes).deep_view() == constants_offered(
            *class,
            prefix@,
            here.deep_view(),
            old(sizes).deep_view(),
            class.components@.len(),
        ),
{
    let ghost hv = here.deep_view();
    let ghost start = sizes.deep_view();
    let mut i: usize = 0;
    while i < class.components.len()
        invariant
            i <= class.components.len(),
            hv == here.deep_view(),
            sizes.deep_view() == constants_offered(*class, prefix@, hv, start, i as nat),
        decreases class.components.len() - i,
    {
        let ghost before = sizes.deep_view();
        let c = &class.components[i];
        let named = join2(prefix, c.name.as_str());
        if c.variability == Variability::Constant && c.dimensions.len() > 0 && !has_length(
            sizes,
            named.as_str(),
        ) {
            if let Some(shape) = here.get(named.as_str()) {
                let copy = crate::names::same_indices(shape);
                assert(copy.deep_view() =~= shape.deep_view());
                let ghost nv = named@;
                let ghost cv = copy.deep_view();
                sizes.push((named, copy));
                assert(sizes.deep_view() =~= before.push((nv, cv)));
            }
        }
        i = i + 1;
    }
}

/// The lengths under the instance path with those of the model's list taken
/// up, from the `from`-th to the `n`-th.
pub open spec fn lengths_taken(
    list: Seq<(Seq<char>, Seq<i64>)>,
    from: nat,
    prefix: Seq<char>,
    start: Lengths,
    n: nat,
) -> Lengths
    decreases n,
{
    if n <= from || n > list.len() {
        start
    } else {
        let before = lengths_taken(list, from, prefix, start, (n - 1) as nat);
        if begins_with(list[n - 1].0, prefix) {
            before.insert(list[n - 1].0, list[n - 1].1)
        } else {
            before
        }
    }
}

fn take_lengths(
    list: &Vec<(String, Vec<i64>)>,
    from: usize,
    prefix: &str,
    out: &mut Table<Vec<i64>>,
)
    ensures
        final(out).deep_view() == lengths_taken(
            list.deep_view(),
            from as nat,
            prefix@,
            old(out).deep_view(),
            list.deep_view().len(),
        ),
{
    let ghost all = list.deep_view();
    let ghost start = out.deep_view();
    assert(all.len() == list@.len());
    if from >= list.len() {
        return;
    }
    let mut i: usize = from;
    while i < list.len()
        invariant
            from <= i <= list.len(),
            all == list.deep_view(),
            out.deep_view() == lengths_taken(all, from as nat, prefix@, start, i as nat),
        decreases list.len() - i,
    {
        assert(all[i as int] == list@[i as int].deep_view());
        if starts(list[i].0.as_str(), prefix) {
            let copy = crate::names::same_indices(&list[i].1);
            assert(copy.deep_view() =~= list@[i as int].1.deep_view());
            out.put(list[i].0.clone(), copy);
        }
        i = i + 1;
    }
}

/// The numbers in view with those of the model's list that say something new,
/// from the `from`-th to the `n`-th.
pub open spec fn numbers_taken(
    list: Seq<(Seq<char>, Number)>,
    from: nat,
    start: Worths,
    n: nat,
) -> Worths
    decreases n,
{
    if n <= from || n > list.len() {
        start
    } else {
        let before = numbers_taken(list, from, start, (n - 1) as nat);
        if before.contains_key(list[n - 1].0) {
            before
        } else {
            before.insert(list[n - 1].0, list[n - 1].1)
        }
    }
}

fn take_numbers(list: &Vec<(String, Number)>, from: usize, out: &mut Table<Number>)
    ensures
        final(out).deep_view() == numbers_taken(
            list.deep_view(),
            from as nat,
            old(out).deep_view(),
            list.deep_view().len(),
        ),
{
    let ghost all = list.deep_view();
    let ghost start = out.deep_view();
    assert(all.len() == list@.len());
    if from >= list.len() {
        return;
    }
    let mut i: usize = from;
    while i < list.len()
        invariant
            from <= i <= list.len(),
            all == list.deep_view(),
            out.deep_view() == numbers_taken(all, from as nat, start, i as nat),
        decreases list.len() - i,
    {
        assert(all[i as int] == list@[i as int].deep_view());
        if !out.has(list[i].0.as_str()) {
            out.put(list[i].0.clone(), list[i].1);
        }
        i = i + 1;
    }
}

/// The first thing a selective `extends` was to leave out that was not there,
/// from the `i`-th on. What nobody answered for was not there.
pub open spec fn first_unbroken(broken: Seq<Deselect>, broke: Seq<bool>, i: nat) -> Option<Deselect>
    decreases broken.len() - i,
{
    if i >= broken.len() {
        None
    } else if i >= broke.len() || !broke[i as int] {
        Some(broken[i as int])
    } else {
        first_unbroken(broken, broke, i + 1)
    }
}

/// What an extending class is told whose `break` matches nothing.
pub open spec fn unbroken_told(item: Deselect, class: ClassDef) -> Seq<char> {
    match item {
        Deselect::Component(name) => "`break "@ + name@ + "` matches nothing in `"@ + class.name@
            + "`"@,
        Deselect::Connection(a, b) => "`break connect("@ + a@ + ", "@ + b@
            + ")` matches no connection in `"@ + class.name@ + "`"@,
    }
}

fn find_unbroken(broken: &Vec<Deselect>, broke: &Vec<bool>, class: &ClassDef) -> (r: Option<String>)
    ensures
        r.deep_view() == (match first_unbroken(broken@, broke@, 0) {
            Some(item) => Some(unbroken_told(item, *class)),
            None => None,
        }),
{
    let mut i: usize = 0;
    while i < broken.len()
        invariant
            i <= broken.len(),
            first_unbroken(broken@, broke@, 0) == first_unbroken(broken@, broke@, i as nat),
        decreases broken.len() - i,
    {
        if i >= broke.len() || !broke[i] {
            return Some(
                match &broken[i] {
                    Deselect::Component(name) => join5(
                        "`break ",
                        name.as_str(),
                        "` matches nothing in `",
                        class.name.as_str(),
                        "`",
                    ),
                    Deselect::Connection(a, b) => join7(
                        "`break connect(",
                        a.as_str(),
                        ", ",
                        b.as_str(),
                        ")` matches no connection in `",
                        class.name.as_str(),
                        "`",
                    ),
                },
            );
        }
        i = i + 1;
    }
    None
}

/// Whether a check is among those gathered.
pub open spec fn is_asserted(asserts: Checks, condition: ExprV, message: Seq<char>) -> bool {
    exists|i: int|
        0 <= i < asserts.len() && (#[trigger] asserts[i]).1 == message && alike(
            asserts[i].0,
            condition,
        )
}

/// The checks gathered, and those that working them out left behind.
pub ghost struct RaisedV {
    pub asserts: Checks,
    pub behind: Checks,
}

/// The checks once the first `n` of a list are worked out: one check written
/// twice is still one check.
pub open spec fn checks_raised(
    g: GroundV,
    here: HereV,
    list: Checks,
    asserts: Checks,
    n: nat,
) -> Result<RaisedV, Seq<char>>
    decreases n,
{
    if n == 0 || n > list.len() {
        Ok(RaisedV { asserts, behind: Seq::empty() })
    } else {
        match checks_raised(g, here, list, asserts, (n - 1) as nat) {
            Err(why) => Err(why),
            Ok(before) => match (g.h.raise)(list[n - 1].0, here) {
                Err(why) => Err(why),
                Ok(made) => Ok(
                    RaisedV {
                        asserts: if is_asserted(before.asserts, made.0, list[n - 1].1) {
                            before.asserts
                        } else {
                            before.asserts.push((made.0, list[n - 1].1))
                        },
                        behind: before.behind + made.1,
                    },
                ),
            },
        }
    }
}

proof fn lemma_checks_raised_stops(
    g: GroundV,
    here: HereV,
    list: Checks,
    asserts: Checks,
    n: nat,
    all: nat,
)
    requires
        n <= all <= list.len(),
        checks_raised(g, here, list, asserts, n) is Err,
    ensures
        checks_raised(g, here, list, asserts, all) == checks_raised(g, here, list, asserts, n),
    decreases all,
{
    if n < all {
        lemma_checks_raised_stops(g, here, list, asserts, n, (all - 1) as nat);
    }
}

/// The checks once those set aside are worked out, and those left behind by
/// that, until none is left.
pub open spec fn aside_raised(
    g: GroundV,
    here: HereV,
    asserts: Checks,
    aside: Checks,
    rounds: nat,
) -> Result<RaisedV, Seq<char>>
    decreases rounds,
{
    if rounds == 0 || aside.len() == 0 {
        Ok(RaisedV { asserts, behind: aside })
    } else {
        match checks_raised(g, here, aside, asserts, aside.len()) {
            Err(why) => Err(why),
            Ok(next) => aside_raised(g, here, next.asserts, next.behind, (rounds - 1) as nat),
        }
    }
}

fn is_there(asserts: &Vec<(Expr, String)>, condition: &Expr, message: &str) -> (r: bool)
    ensures
        r == is_asserted(asserts.deep_view(), condition.deep_view(), message@),
{
    let ghost all = asserts.deep_view();
    let ghost cv = condition.deep_view();
    let mut i: usize = 0;
    assert(all.len() == asserts@.len());
    while i < asserts.len()
        invariant
            i <= asserts.len(),
            all == asserts.deep_view(),
            all.len() == asserts@.len(),
            cv == condition.deep_view(),
            forall|k: int|
                0 <= k < i ==> !((#[trigger] all[k]).1 == message@ && alike(all[k].0, cv)),
        decreases asserts.len() - i,
    {
        assert(all[i as int] == asserts@[i as int].deep_view());
        if same(asserts[i].1.as_str(), message) && are_alike(&asserts[i].0, condition) {
            assert(all[i as int].1 == message@);
            return true;
        }
        i = i + 1;
    }
    false
}

fn raise_checks<
    A1: Fn(&Expr, &str, &Vec<(String, String)>, &Vec<String>) -> Expr,
    A2: Fn(&ClassDef, &Table<Number>, &Vec<(String, Expr)>) -> Table<Vec<i64>>,
    A3: Fn(&Expr, &Table<String>) -> Option<String>,
    A4: Fn(&Expr, &Table<Number>, &str, &Vec<(String, String)>) -> (Result<Expr, String>, Vec<(Expr, String)>),
    A5: Fn(&Expr, &Table<String>, &Table<Number>) -> Result<Expr, String>,
    A6: Fn(&ClassDef, &Vec<(String, String)>) -> Option<String>,
    A7: Fn(&ClassDef, &Env, &Floor, Course, Built) -> Result<(Course, Built), String>,
    A8: Fn(&ClassDef, &Env, &Here, &Table<Vec<i64>>, &Built, Course) -> Result<(Course, Vec<bool>), String>,
    A9: Fn(&Expr, &Here) -> Result<(Expr, Vec<(Expr, String)>), String>,
    W: Fn(Arith, Number, Number) -> Number,
    O: Fn(&str, &Vec<Number>) -> Option<Vec<Number>>,
    N: Fn(&str) -> String,
>(
    h: &Building<A1, A2, A3, A4, A5, A6, A7, A8, A9>,
    sums: &Sums<W, O, N>,
    q: &Ground,
    here: &Here,
    list: &Vec<(Expr, String)>,
    asserts: Vec<(Expr, String)>,
) -> (r: Result<(Vec<(Expr, String)>, Vec<(Expr, String)>), String>)
    requires
        builds_true(*h),
        is_steady(*sums),
    ensures
        match (r, checks_raised(
            ground_of(*h, *sums, *q),
            here.deep_view(),
            list.deep_view(),
            asserts.deep_view(),
            list.deep_view().len(),
        )) {
            (Ok(made), Ok(meant)) => made.0.deep_view() == meant.asserts && made.1.deep_view()
                == meant.behind,
            (Err(why), Err(said)) => why@ == said,
            _ => false,
        },
{
    let ghost g = ground_of(*h, *sums, *q);
    let ghost hv = here.deep_view();
    let ghost lv = list.deep_view();
    let ghost start = asserts.deep_view();
    assert(lv.len() == list@.len());
    let mut out = asserts;
    let mut behind: Vec<(Expr, String)> = Vec::new();
    assert(behind.deep_view() =~= Seq::empty());
    let mut i: usize = 0;
    while i < list.len()
        invariant
            i <= list.len(),
            builds_true(*h),
            is_steady(*sums),
            g == ground_of(*h, *sums, *q),
            hv == here.deep_view(),
            lv == list.deep_view(),
            lv.len() == list@.len(),
            start == asserts.deep_view(),
            checks_raised(g, hv, lv, start, i as nat) == Ok::<RaisedV, Seq<char>>(
                RaisedV { asserts: out.deep_view(), behind: behind.deep_view() },
            ),
        decreases list.len() - i,
    {
        assert(lv[i as int] == list@[i as int].deep_view());
        let ghost ov = out.deep_view();
        let ghost bv = behind.deep_view();
        match h.do_raise(&list[i].0, here) {
            Err(why) => {
                proof {
                    lemma_checks_raised_stops(g, hv, lv, start, (i + 1) as nat, lv.len());
                }
                return Err(why);
            },
            Ok(made) => {
                let ghost mv = made.deep_view();
                let (condition, mut more) = made;
                behind.append(&mut more);
                assert(behind.deep_view() =~= bv + mv.1);
                if !is_there(&out, &condition, list[i].1.as_str()) {
                    out.push((condition, list[i].1.clone()));
                    assert(out.deep_view() =~= ov.push((mv.0, lv[i as int].1)));
                }
            },
        }
        i = i + 1;
    }
    Ok((out, behind))
}

/// What a class's components are built from, and what building them starts
/// with.
pub open spec fn measured_course(
    g: GroundV,
    class: ClassDef,
    env: EnvV,
    p: PreparedV,
    course: CourseV,
) -> (CourseV, BuiltV, Map<Seq<char>, Seq<char>>) {
    let s = p.stand;
    let prefix = s.naming.prefix;
    let settled = parameters_settled(
        g,
        s,
        env.overrides,
        p.local_texts,
        class,
        course.flat.const_values,
    );
    let sizes = (g.h.measure)(class, settled.0, env.overrides);
    let here = all_prefixed(sizes, prefix);
    let records = records_of(
        g.classes,
        class,
        WalkV { prefix, scope: class.name@, imports: s.imports, mark: env.mark },
        Map::empty(),
        0,
    );
    (
        CourseV {
            flat: FlatV {
                const_values: settled.1,
                sizes: constants_offered(
                    class,
                    prefix,
                    here,
                    course.flat.sizes,
                    class.components@.len(),
                ),
                records: over(course.flat.records, records),
                ..course.flat
            },
            aside: course.aside + settled.2,
            ..course
        },
        BuiltV {
            taken: 0,
            counted: 0,
            record_values: Seq::empty(),
            sizes,
            sizes_here: here,
            local_consts: settled.0,
            broke: Seq::new(env.broken.len(), |i: int| false),
        },
        records,
    )
}

/// What was built with the lengths and numbers that building it brought in.
pub open spec fn built_up(course: CourseV, built: BuiltV, prefix: Seq<char>) -> BuiltV {
    let here = lengths_taken(
        course.flat.sizes,
        built.taken,
        prefix,
        built.sizes_here,
        course.flat.sizes.len(),
    );
    BuiltV {
        sizes: overlaid(overlaid(built.sizes, here), stripped(here, prefix)),
        sizes_here: here,
        local_consts: numbers_taken(
            course.numbers,
            built.counted,
            built.local_consts,
            course.numbers.len(),
        ),
        ..built
    }
}

/// The course once everything a class states is gathered: what a selective
/// `extends` leaves out has to have been there, and the checks set aside since
/// the `from`-th are worked out.
pub open spec fn class_closed(
    g: GroundV,
    class: ClassDef,
    env: EnvV,
    here: HereV,
    course: CourseV,
    broke: Seq<bool>,
    from: nat,
    stamped: Seq<char>,
) -> Result<CourseV, Seq<char>> {
    match first_unbroken(env.broken, broke, 0) {
        Some(item) => Err(unbroken_told(item, class)),
        None => {
            let kept = if from < course.aside.len() {
                course.aside.take(from as int)
            } else {
                course.aside
            };
            let aside = if from < course.aside.len() {
                course.aside.skip(from as int)
            } else {
                Seq::empty()
            };
            match aside_raised(g, here, course.flat.asserts, aside, ROUNDS as nat) {
                Err(why) => Err(why),
                Ok(raised) => Ok(
                    CourseV {
                        flat: FlatV { asserts: raised.asserts, origin: stamped, ..course.flat },
                        aside: kept + raised.behind,
                        ..course
                    },
                ),
            }
        },
    }
}

/// The course once the components of a class are built and what it states is
/// gathered.
pub open spec fn class_built(
    g: GroundV,
    class: ClassDef,
    env: EnvV,
    p: PreparedV,
    course: CourseV,
    depth: nat,
    from: nat,
    stamped: Seq<char>,
) -> Result<CourseV, Seq<char>> {
    let measured = measured_course(g, class, env, p, course);
    let floor = FloorV {
        stand: p.stand,
        inners: p.inners,
        redeclares: p.redeclares,
        local_texts: p.local_texts,
        records: measured.2,
        records_wider: measured.0.flat.records,
        depth,
    };
    match (g.h.build)(class, env, floor, measured.0, measured.1) {
        Err(why) => Err(why),
        Ok(made) => {
            let built = built_up(made.0, made.1, p.stand.naming.prefix);
            let here = HereV {
                scope: class.name@,
                imports: p.stand.imports,
                naming: p.stand.naming,
                consts: built.local_consts,
                sizes: built.sizes_here,
                records: measured.2,
            };
            match (g.h.state)(class, env, here, built.sizes, built, made.0) {
                Err(why) => Err(why),
                Ok(stated) => class_closed(
                    g,
                    class,
                    env,
                    here,
                    stated.0,
                    stated.1,
                    from,
                    stamped,
                ),
            }
        },
    }
}

/// The course once a class is instantiated under a prefix.
pub open spec fn instantiated(
    g: GroundV,
    class: ClassDef,
    prefix: Seq<char>,
    env: EnvV,
    course: CourseV,
    depth: nat,
) -> Result<CourseV, Seq<char>>
    decreases MAX_DEPTH + 1 - depth, 2int, 0nat,
{
    if depth > MAX_DEPTH {
        Err(
            "instantiation deeper than 32 levels at `"@ + class.name@ + "` (recursive classes?)"@,
        )
    } else {
        match prepared(g, class, prefix, env, course) {
            Err(why) => Err(why),
            Ok(p) => match bases_taken(g, class, env, p, depth, class.extends@.len()) {
                Err(why) => Err(why),
                Ok(after) => class_built(
                    g,
                    class,
                    env,
                    p,
                    after,
                    depth,
                    course.aside.len(),
                    course.flat.origin,
                ),
            },
        }
    }
}

proof fn lemma_bases_taken_stop(
    g: GroundV,
    class: ClassDef,
    env: EnvV,
    p: PreparedV,
    depth: nat,
    n: nat,
    all: nat,
)
    requires
        n <= all <= class.extends@.len(),
        depth <= MAX_DEPTH,
        bases_taken(g, class, env, p, depth, n) is Err,
    ensures
        bases_taken(g, class, env, p, depth, all) == bases_taken(g, class, env, p, depth, n),
    decreases all - n,
{
    if n < all {
        lemma_bases_taken_stop(g, class, env, p, depth, n, (all - 1) as nat);
    }
}

pub fn has_pair(list: &Vec<(String, String)>, a: &str, b: &str) -> (r: bool)
    ensures
        r == list.deep_view().contains((a@, b@)),
{
    let ghost all = list.deep_view();
    let mut i: usize = 0;
    while i < list.len()
        invariant
            i <= list.len(),
            all == list.deep_view(),
            forall|k: int| 0 <= k < i ==> (#[trigger] all[k]) != (a@, b@),
        decreases list.len() - i,
    {
        assert(all[i as int] == list@[i as int].deep_view());
        if same(list[i].0.as_str(), a) && same(list[i].1.as_str(), b) {
            assert(all[i as int] == (a@, b@));
            return true;
        }
        i = i + 1;
    }
    assert forall|k: int| 0 <= k < all.len() implies (#[trigger] all[k]) != (a@, b@) by {}
    false
}

fn measure_handed<
    A1: Fn(&Expr, &str, &Vec<(String, String)>, &Vec<String>) -> Expr,
    A2: Fn(&ClassDef, &Table<Number>, &Vec<(String, Expr)>) -> Table<Vec<i64>>,
    A3: Fn(&Expr, &Table<String>) -> Option<String>,
    A4: Fn(&Expr, &Table<Number>, &str, &Vec<(String, String)>) -> (Result<Expr, String>, Vec<(Expr, String)>),
    A5: Fn(&Expr, &Table<String>, &Table<Number>) -> Result<Expr, String>,
    A6: Fn(&ClassDef, &Vec<(String, String)>) -> Option<String>,
    A7: Fn(&ClassDef, &Env, &Floor, Course, Built) -> Result<(Course, Built), String>,
    A8: Fn(&ClassDef, &Env, &Here, &Table<Vec<i64>>, &Built, Course) -> Result<(Course, Vec<bool>), String>,
    A9: Fn(&Expr, &Here) -> Result<(Expr, Vec<(Expr, String)>), String>,
    W: Fn(Arith, Number, Number) -> Number,
    O: Fn(&str, &Vec<Number>) -> Option<Vec<Number>>,
    N: Fn(&str) -> String,
>(
    h: &Building<A1, A2, A3, A4, A5, A6, A7, A8, A9>,
    sums: &Sums<W, O, N>,
    q: &Ground,
    class: &ClassDef,
    env: &Env,
    s: &Stand,
    here: &Table<Number>,
    consts: Ghost<Worths>,
) -> (r: Table<Vec<i64>>)
    requires
        builds_true(*h),
        is_steady(*sums),
        here.deep_view() == near(consts@, s.naming.prefix@),
    ensures
        r.deep_view() == handed_shapes(
            ground_of(*h, *sums, *q),
            *class,
            env.deep_view(),
            s.deep_view(),
            consts@,
        ),
{
    let shapes = h.do_measure(class, here, env.overrides);
    prefixed_sizes(&shapes, s.naming.prefix.as_str())
}

fn hand_values<
    A1: Fn(&Expr, &str, &Vec<(String, String)>, &Vec<String>) -> Expr,
    A2: Fn(&ClassDef, &Table<Number>, &Vec<(String, Expr)>) -> Table<Vec<i64>>,
    A3: Fn(&Expr, &Table<String>) -> Option<String>,
    A4: Fn(&Expr, &Table<Number>, &str, &Vec<(String, String)>) -> (Result<Expr, String>, Vec<(Expr, String)>),
    A5: Fn(&Expr, &Table<String>, &Table<Number>) -> Result<Expr, String>,
    A6: Fn(&ClassDef, &Vec<(String, String)>) -> Option<String>,
    A7: Fn(&ClassDef, &Env, &Floor, Course, Built) -> Result<(Course, Built), String>,
    A8: Fn(&ClassDef, &Env, &Here, &Table<Vec<i64>>, &Built, Course) -> Result<(Course, Vec<bool>), String>,
    A9: Fn(&Expr, &Here) -> Result<(Expr, Vec<(Expr, String)>), String>,
    W: Fn(Arith, Number, Number) -> Number,
    O: Fn(&str, &Vec<Number>) -> Option<Vec<Number>>,
    N: Fn(&str) -> String,
>(
    h: &Building<A1, A2, A3, A4, A5, A6, A7, A8, A9>,
    sums: &Sums<W, O, N>,
    q: &Ground,
    class: &ClassDef,
    env: &Env,
    s: &Stand,
    here: &Table<Number>,
    shapes: &Table<Vec<i64>>,
    extend: &Extends,
    consts: Ghost<Worths>,
) -> (r: Vec<(String, Expr)>)
    requires
        builds_true(*h),
        is_steady(*sums),
        here.deep_view() == near(consts@, s.naming.prefix@),
        shapes.deep_view() == handed_shapes(
            ground_of(*h, *sums, *q),
            *class,
            env.deep_view(),
            s.deep_view(),
            consts@,
        ),
    ensures
        r.deep_view() == base_values(
            ground_of(*h, *sums, *q),
            *class,
            env.deep_view(),
            s.deep_view(),
            consts@,
            *extend,
        ),
{
    let ghost g = ground_of(*h, *sums, *q);
    let ghost sv = s.deep_view();
    let ghost nv = here.deep_view();
    let ghost hv = shapes.deep_view();
    let said = put_all(h, sums, q, &extend.modifiers, s);
    let ghost av = said.deep_view();
    let ghost whole = Seq::new(av.len(), |i: int| (av[i].0, measured_in(av[i].1, nv, hv, g.v)));
    let mut out = crate::class::copied_named(env.overrides);
    let ghost start = out.deep_view();
    let mut i: usize = 0;
    assert(start + whole.take(0) =~= start);
    while i < said.len()
        invariant
            i <= said.len(),
            builds_true(*h),
            is_steady(*sums),
            g == ground_of(*h, *sums, *q),
            nv == here.deep_view(),
            hv == shapes.deep_view(),
            av == said.deep_view(),
            whole == Seq::new(
                av.len(),
                |i: int| (av[i].0, measured_in(av[i].1, nv, hv, g.v)),
            ),
            out.deep_view() == start + whole.take(i as int),
        decreases said.len() - i,
    {
        let ghost before = out.deep_view();
        assert(av[i as int] == said@[i as int].deep_view());
        out.push((said[i].0.clone(), measured_sizes(sums, &said[i].1, shapes, here)));
        assert(out.deep_view() =~= before.push(whole[i as int]));
        assert(before.push(whole[i as int]) =~= start + whole.take(i + 1));
        i = i + 1;
    }
    assert(whole.take(i as int) =~= whole);
    assert(start + whole =~= base_values(
        g,
        *class,
        env.deep_view(),
        sv,
        consts@,
        *extend,
    ));
    out
}

fn falses(n: usize) -> (r: Vec<bool>)
    ensures
        r@ == Seq::new(n as nat, |i: int| false),
{
    let mut out: Vec<bool> = Vec::new();
    let mut i: usize = 0;
    while i < n
        invariant
            i <= n,
            out@ == Seq::new(i as nat, |i: int| false),
        decreases n - i,
    {
        out.push(false);
        assert(out@ =~= Seq::new((i + 1) as nat, |i: int| false));
        i = i + 1;
    }
    out
}

fn measure_course<
    A1: Fn(&Expr, &str, &Vec<(String, String)>, &Vec<String>) -> Expr,
    A2: Fn(&ClassDef, &Table<Number>, &Vec<(String, Expr)>) -> Table<Vec<i64>>,
    A3: Fn(&Expr, &Table<String>) -> Option<String>,
    A4: Fn(&Expr, &Table<Number>, &str, &Vec<(String, String)>) -> (Result<Expr, String>, Vec<(Expr, String)>),
    A5: Fn(&Expr, &Table<String>, &Table<Number>) -> Result<Expr, String>,
    A6: Fn(&ClassDef, &Vec<(String, String)>) -> Option<String>,
    A7: Fn(&ClassDef, &Env, &Floor, Course, Built) -> Result<(Course, Built), String>,
    A8: Fn(&ClassDef, &Env, &Here, &Table<Vec<i64>>, &Built, Course) -> Result<(Course, Vec<bool>), String>,
    A9: Fn(&Expr, &Here) -> Result<(Expr, Vec<(Expr, String)>), String>,
    W: Fn(Arith, Number, Number) -> Number,
    O: Fn(&str, &Vec<Number>) -> Option<Vec<Number>>,
    N: Fn(&str) -> String,
>(
    h: &Building<A1, A2, A3, A4, A5, A6, A7, A8, A9>,
    sums: &Sums<W, O, N>,
    q: &Ground,
    class: &ClassDef,
    env: &Env,
    p: &Prepared,
    course: Course,
    ghost_p: Ghost<PreparedV>,
) -> (r: (Course, Built, Table<String>))
    requires
        builds_true(*h),
        is_steady(*sums),
        p.stand.deep_view() == ghost_p@.stand,
        p.local_texts.deep_view() == ghost_p@.local_texts,
    ensures
        ({
            let meant = measured_course(
                ground_of(*h, *sums, *q),
                *class,
                env.deep_view(),
                ghost_p@,
                course.deep_view(),
            );
            &&& r.0.deep_view() == meant.0
            &&& r.1.deep_view() == meant.1
            &&& r.2.deep_view() == meant.2
        }),
{
    let parts = list_parts(q.registry, class);
    let mut next = course;
    let mut flat = next.flat;
    let (local, consts, mut left) = settle_parameters(
        h,
        sums,
        q,
        &p.stand,
        env.overrides,
        &p.local_texts,
        class,
        &parts,
        flat.const_values,
    );
    flat.const_values = consts;
    let sizes = h.do_measure(class, &local, env.overrides);
    let here = prefixed_sizes(&sizes, p.stand.naming.prefix.as_str());
    let mut listed = flat.sizes;
    offer_constants(class, p.stand.naming.prefix.as_str(), &here, &mut listed);
    flat.sizes = listed;
    let at = Walk {
        prefix: p.stand.naming.prefix.clone(),
        scope: class.name.clone(),
        imports: crate::inheritance::same_pairs(&p.stand.imports),
        mark: crate::class::copied_text(env.mark),
    };
    let mut records: Table<String> = Table::new();
    collect_records(q.registry, class, &at, &mut records, 0);
    let mut wider = flat.records;
    put_texts(&mut wider, &records);
    flat.records = wider;
    next.flat = flat;
    let ghost before = next.aside.deep_view();
    let ghost more = left.deep_view();
    next.aside.append(&mut left);
    assert(next.aside.deep_view() =~= before + more);
    let record_values: Vec<(String, Expr, bool)> = Vec::new();
    assert(record_values.deep_view() =~= Seq::empty());
    let built = Built {
        taken: 0,
        counted: 0,
        record_values,
        sizes,
        sizes_here: here,
        local_consts: local,
        broke: falses(env.broken.len()),
    };
    (next, built, records)
}

fn build_up(course: &Course, built: Built, prefix: &str) -> (r: Built)
    ensures
        r.deep_view() == built_up(course.deep_view(), built.deep_view(), prefix@),
{
    let mut here = built.sizes_here;
    take_lengths(&course.flat.sizes, built.taken, prefix, &mut here);
    let mut sizes = built.sizes;
    put_lengths(&mut sizes, &here);
    put_stripped(&mut sizes, &here, prefix);
    let mut local_consts = built.local_consts;
    take_numbers(&course.numbers, built.counted, &mut local_consts);
    Built {
        taken: built.taken,
        counted: built.counted,
        record_values: built.record_values,
        sizes,
        sizes_here: here,
        local_consts,
        broke: built.broke,
    }
}

fn raise_aside<
    A1: Fn(&Expr, &str, &Vec<(String, String)>, &Vec<String>) -> Expr,
    A2: Fn(&ClassDef, &Table<Number>, &Vec<(String, Expr)>) -> Table<Vec<i64>>,
    A3: Fn(&Expr, &Table<String>) -> Option<String>,
    A4: Fn(&Expr, &Table<Number>, &str, &Vec<(String, String)>) -> (Result<Expr, String>, Vec<(Expr, String)>),
    A5: Fn(&Expr, &Table<String>, &Table<Number>) -> Result<Expr, String>,
    A6: Fn(&ClassDef, &Vec<(String, String)>) -> Option<String>,
    A7: Fn(&ClassDef, &Env, &Floor, Course, Built) -> Result<(Course, Built), String>,
    A8: Fn(&ClassDef, &Env, &Here, &Table<Vec<i64>>, &Built, Course) -> Result<(Course, Vec<bool>), String>,
    A9: Fn(&Expr, &Here) -> Result<(Expr, Vec<(Expr, String)>), String>,
    W: Fn(Arith, Number, Number) -> Number,
    O: Fn(&str, &Vec<Number>) -> Option<Vec<Number>>,
    N: Fn(&str) -> String,
>(
    h: &Building<A1, A2, A3, A4, A5, A6, A7, A8, A9>,
    sums: &Sums<W, O, N>,
    q: &Ground,
    here: &Here,
    asserts: Vec<(Expr, String)>,
    aside: Vec<(Expr, String)>,
) -> (r: Result<(Vec<(Expr, String)>, Vec<(Expr, String)>), String>)
    requires
        builds_true(*h),
        is_steady(*sums),
    ensures
        match (r, aside_raised(
            ground_of(*h, *sums, *q),
            here.deep_view(),
            asserts.deep_view(),
            aside.deep_view(),
            ROUNDS as nat,
        )) {
            (Ok(made), Ok(meant)) => made.0.deep_view() == meant.asserts && made.1.deep_view()
                == meant.behind,
            (Err(why), Err(said)) => why@ == said,
            _ => false,
        },
{
    let ghost g = ground_of(*h, *sums, *q);
    let ghost hv = here.deep_view();
    let ghost meant = aside_raised(
        g,
        hv,
        asserts.deep_view(),
        aside.deep_view(),
        ROUNDS as nat,
    );
    let mut now = asserts;
    let mut left = aside;
    let mut rounds: u64 = ROUNDS;
    while rounds > 0 && left.len() > 0
        invariant
            builds_true(*h),
            is_steady(*sums),
            g == ground_of(*h, *sums, *q),
            hv == here.deep_view(),
            meant == aside_raised(
                g,
                hv,
                asserts.deep_view(),
                aside.deep_view(),
                ROUNDS as nat,
            ),
            meant == aside_raised(g, hv, now.deep_view(), left.deep_view(), rounds as nat),
        decreases rounds,
    {
        assert(left.deep_view().len() == left@.len());
        match raise_checks(h, sums, q, here, &left, now) {
            Err(why) => {
                return Err(why);
            },
            Ok(made) => {
                now = made.0;
                left = made.1;
            },
        }
        rounds = rounds - 1;
    }
    assert(left.deep_view().len() == left@.len());
    Ok((now, left))
}

fn close_class<
    A1: Fn(&Expr, &str, &Vec<(String, String)>, &Vec<String>) -> Expr,
    A2: Fn(&ClassDef, &Table<Number>, &Vec<(String, Expr)>) -> Table<Vec<i64>>,
    A3: Fn(&Expr, &Table<String>) -> Option<String>,
    A4: Fn(&Expr, &Table<Number>, &str, &Vec<(String, String)>) -> (Result<Expr, String>, Vec<(Expr, String)>),
    A5: Fn(&Expr, &Table<String>, &Table<Number>) -> Result<Expr, String>,
    A6: Fn(&ClassDef, &Vec<(String, String)>) -> Option<String>,
    A7: Fn(&ClassDef, &Env, &Floor, Course, Built) -> Result<(Course, Built), String>,
    A8: Fn(&ClassDef, &Env, &Here, &Table<Vec<i64>>, &Built, Course) -> Result<(Course, Vec<bool>), String>,
    A9: Fn(&Expr, &Here) -> Result<(Expr, Vec<(Expr, String)>), String>,
    W: Fn(Arith, Number, Number) -> Number,
    O: Fn(&str, &Vec<Number>) -> Option<Vec<Number>>,
    N: Fn(&str) -> String,
>(
    h: &Building<A1, A2, A3, A4, A5, A6, A7, A8, A9>,
    sums: &Sums<W, O, N>,
    q: &Ground,
    class: &ClassDef,
    env: &Env,
    here: &Here,
    course: Course,
    broke: &Vec<bool>,
    from: usize,
    stamped: String,
) -> (r: Result<Course, String>)
    requires
        builds_true(*h),
        is_steady(*sums),
    ensures
        told(r) == class_closed(
            ground_of(*h, *sums, *q),
            *class,
            env.deep_view(),
            here.deep_view(),
            course.deep_view(),
            broke@,
            from as nat,
            stamped@,
        ),
{
    if let Some(why) = find_unbroken(env.broken, broke, class) {
        return Err(why);
    }
    let ghost g = ground_of(*h, *sums, *q);
    let ghost hv = here.deep_view();
    let ghost cv = course.deep_view();
    let mut next = course;
    let mut kept = next.aside;
    assert(kept.deep_view().len() == kept@.len());
    let ghost whole = kept@;
    let mut aside: Vec<(Expr, String)> = if from < kept.len() {
        kept.split_off(from)
    } else {
        Vec::new()
    };
    proof {
        if from < cv.aside.len() {
            assert(kept.deep_view() =~= cv.aside.take(from as int));
            assert(aside.deep_view() =~= cv.aside.skip(from as int));
        } else {
            assert(aside.deep_view() =~= Seq::empty());
        }
    }
    let ghost keeping = kept.deep_view();
    let mut flat = next.flat;
    let (asserts, left) = match raise_aside(h, sums, q, here, flat.asserts, aside) {
        Ok(made) => made,
        Err(why) => {
            return Err(why);
        },
    };
    aside = left;
    assert(aside.deep_view().len() == aside@.len());
    let ghost behind = aside.deep_view();
    kept.append(&mut aside);
    assert(kept.deep_view() =~= keeping + behind);
    flat.asserts = asserts;
    flat.origin = stamped;
    next.flat = flat;
    next.aside = kept;
    Ok(next)
}

fn build_class<
    A1: Fn(&Expr, &str, &Vec<(String, String)>, &Vec<String>) -> Expr,
    A2: Fn(&ClassDef, &Table<Number>, &Vec<(String, Expr)>) -> Table<Vec<i64>>,
    A3: Fn(&Expr, &Table<String>) -> Option<String>,
    A4: Fn(&Expr, &Table<Number>, &str, &Vec<(String, String)>) -> (Result<Expr, String>, Vec<(Expr, String)>),
    A5: Fn(&Expr, &Table<String>, &Table<Number>) -> Result<Expr, String>,
    A6: Fn(&ClassDef, &Vec<(String, String)>) -> Option<String>,
    A7: Fn(&ClassDef, &Env, &Floor, Course, Built) -> Result<(Course, Built), String>,
    A8: Fn(&ClassDef, &Env, &Here, &Table<Vec<i64>>, &Built, Course) -> Result<(Course, Vec<bool>), String>,
    A9: Fn(&Expr, &Here) -> Result<(Expr, Vec<(Expr, String)>), String>,
    W: Fn(Arith, Number, Number) -> Number,
    O: Fn(&str, &Vec<Number>) -> Option<Vec<Number>>,
    N: Fn(&str) -> String,
>(
    h: &Building<A1, A2, A3, A4, A5, A6, A7, A8, A9>,
    sums: &Sums<W, O, N>,
    q: &Ground,
    class: &ClassDef,
    env: &Env,
    p: Prepared,
    course: Course,
    depth: usize,
    from: usize,
    stamped: String,
    ghost_p: Ghost<PreparedV>,
) -> (r: Result<Course, String>)
    requires
        builds_true(*h),
        is_steady(*sums),
        p.stand.deep_view() == ghost_p@.stand,
        p.inners.deep_view() == ghost_p@.inners,
        p.redeclares.deep_view() == ghost_p@.redeclares,
        p.local_texts.deep_view() == ghost_p@.local_texts,
    ensures
        told(r) == class_built(
            ground_of(*h, *sums, *q),
            *class,
            env.deep_view(),
            ghost_p@,
            course.deep_view(),
            depth as nat,
            from as nat,
            stamped@,
        ),
{
    let (measured, start, records) = measure_course(h, sums, q, class, env, &p, course, ghost_p);
    let mut wider: Table<String> = Table::new();
    put_texts(&mut wider, &measured.flat.records);
    assert(wider.deep_view() =~= measured.flat.records.deep_view());
    let floor = Floor {
        stand: p.stand,
        inners: p.inners,
        redeclares: p.redeclares,
        local_texts: p.local_texts,
        records,
        records_wider: wider,
        depth,
    };
    let (made, built) = match h.do_build(class, env, &floor, measured, start) {
        Ok(made) => made,
        Err(why) => {
            return Err(why);
        },
    };
    let built = build_up(&made, built, floor.stand.naming.prefix.as_str());
    let consts = copy_numbers(&built.local_consts);
    let mut sizes: Table<Vec<i64>> = Table::new();
    put_lengths(&mut sizes, &built.sizes_here);
    assert(sizes.deep_view() =~= built.sizes_here.deep_view());
    let here = Here {
        scope: class.name.clone(),
        imports: crate::inheritance::same_pairs(&floor.stand.imports),
        naming: copy_naming(&floor.stand.naming),
        consts,
        sizes,
        records: floor.records,
    };
    let (stated, broke) = match h.do_state(class, env, &here, &built.sizes, &built, made) {
        Ok(stated) => stated,
        Err(why) => {
            return Err(why);
        },
    };
    assert(broke.deep_view() =~= broke@);
    close_class(h, sums, q, class, env, &here, stated, &broke, from, stamped)
}

fn take_base<'a,
    A1: Fn(&Expr, &str, &Vec<(String, String)>, &Vec<String>) -> Expr,
    A2: Fn(&ClassDef, &Table<Number>, &Vec<(String, Expr)>) -> Table<Vec<i64>>,
    A3: Fn(&Expr, &Table<String>) -> Option<String>,
    A4: Fn(&Expr, &Table<Number>, &str, &Vec<(String, String)>) -> (Result<Expr, String>, Vec<(Expr, String)>),
    A5: Fn(&Expr, &Table<String>, &Table<Number>) -> Result<Expr, String>,
    A6: Fn(&ClassDef, &Vec<(String, String)>) -> Option<String>,
    A7: Fn(&ClassDef, &Env, &Floor, Course, Built) -> Result<(Course, Built), String>,
    A8: Fn(&ClassDef, &Env, &Here, &Table<Vec<i64>>, &Built, Course) -> Result<(Course, Vec<bool>), String>,
    A9: Fn(&Expr, &Here) -> Result<(Expr, Vec<(Expr, String)>), String>,
    W: Fn(Arith, Number, Number) -> Number,
    O: Fn(&str, &Vec<Number>) -> Option<Vec<Number>>,
    N: Fn(&str) -> String,
>(
    h: &Building<A1, A2, A3, A4, A5, A6, A7, A8, A9>,
    sums: &Sums<W, O, N>,
    q: &Ground<'_, 'a>,
    class: &'a ClassDef,
    env: &Env,
    p: &Prepared,
    course: Course,
    depth: usize,
    i: usize,
    ghost_p: Ghost<PreparedV>,
) -> (r: Result<Course, String>)
    requires
        builds_true(*h),
        is_steady(*sums),
        depth <= MAX_DEPTH,
        i < class.extends@.len(),
        p.stand.deep_view() == ghost_p@.stand,
        p.inners.deep_view() == ghost_p@.inners,
        p.redeclares.deep_view() == ghost_p@.redeclares,
    ensures
        told(r) == base_taken(
            ground_of(*h, *sums, *q),
            *class,
            env.deep_view(),
            ghost_p@,
            course.deep_view(),
            depth as nat,
            i as int,
        ),
    decreases MAX_DEPTH + 1 - depth, 0int,
{
    let ghost pv = ghost_p@;
    let ghost before = course.deep_view();
    let prefix = p.stand.naming.prefix.as_str();
    let base = match find_base_meant(h, sums, q, class, i, &p.stand.imports) {
        Ok(base) => base,
        Err(why) => {
            return Err(why);
        },
    };
    if has_pair(&course.extended, prefix, base.name.as_str()) {
        return Ok(course);
    }
    let extend = &class.extends[i];
    let mut redeclares = match qualify_all(
        h,
        sums,
        q,
        &extend.redeclares,
        class,
        &p.stand.naming,
    ) {
        Ok(redeclares) => redeclares,
        Err(why) => {
            return Err(why);
        },
    };
    let ghost ov = redeclares.deep_view();
    let mut more = crate::class::copied(&p.redeclares);
    redeclares.append(&mut more);
    assert(redeclares.deep_view() =~= ov + pv.redeclares);
    let ghost consts = before.flat.const_values;
    let here = find_near(&course.flat.const_values, prefix);
    let shapes = measure_handed(h, sums, q, class, env, &p.stand, &here, Ghost(consts));
    let values = hand_values(
        h,
        sums,
        q,
        class,
        env,
        &p.stand,
        &here,
        &shapes,
        extend,
        Ghost(consts),
    );
    let mut next = course;
    next.extended.push((prefix.to_owned(), base.name.clone()));
    assert(next.extended.deep_view() =~= before.extended.push((prefix@, base.name@)));
    let below = Env {
        overrides: &values,
        handed_shapes: &shapes,
        outer_sizes: env.outer_sizes,
        redeclares: &redeclares,
        inners: &p.inners,
        broken: &extend.broken,
        inside_a_parameter: env.inside_a_parameter,
        mark: env.mark,
    };
    instantiate(h, sums, q, base, prefix, &below, next, depth + 1)
}

/// Merge the classes this one extends in under the same prefix, before
/// anything it declares itself.
fn instantiate_bases<'a,
    A1: Fn(&Expr, &str, &Vec<(String, String)>, &Vec<String>) -> Expr,
    A2: Fn(&ClassDef, &Table<Number>, &Vec<(String, Expr)>) -> Table<Vec<i64>>,
    A3: Fn(&Expr, &Table<String>) -> Option<String>,
    A4: Fn(&Expr, &Table<Number>, &str, &Vec<(String, String)>) -> (Result<Expr, String>, Vec<(Expr, String)>),
    A5: Fn(&Expr, &Table<String>, &Table<Number>) -> Result<Expr, String>,
    A6: Fn(&ClassDef, &Vec<(String, String)>) -> Option<String>,
    A7: Fn(&ClassDef, &Env, &Floor, Course, Built) -> Result<(Course, Built), String>,
    A8: Fn(&ClassDef, &Env, &Here, &Table<Vec<i64>>, &Built, Course) -> Result<(Course, Vec<bool>), String>,
    A9: Fn(&Expr, &Here) -> Result<(Expr, Vec<(Expr, String)>), String>,
    W: Fn(Arith, Number, Number) -> Number,
    O: Fn(&str, &Vec<Number>) -> Option<Vec<Number>>,
    N: Fn(&str) -> String,
>(
    h: &Building<A1, A2, A3, A4, A5, A6, A7, A8, A9>,
    sums: &Sums<W, O, N>,
    q: &Ground<'_, 'a>,
    class: &'a ClassDef,
    env: &Env,
    p: &Prepared,
    course: Course,
    depth: usize,
    ghost_p: Ghost<PreparedV>,
) -> (r: Result<Course, String>)
    requires
        builds_true(*h),
        is_steady(*sums),
        depth <= MAX_DEPTH,
        p.stand.deep_view() == ghost_p@.stand,
        p.inners.deep_view() == ghost_p@.inners,
        p.redeclares.deep_view() == ghost_p@.redeclares,
        course.deep_view() == ghost_p@.course,
    ensures
        told(r) == bases_taken(
            ground_of(*h, *sums, *q),
            *class,
            env.deep_view(),
            ghost_p@,
            depth as nat,
            class.extends@.len(),
        ),
    decreases MAX_DEPTH + 1 - depth, 1int,
{
    let ghost g = ground_of(*h, *sums, *q);
    let ghost ev = env.deep_view();
    let ghost pv = ghost_p@;
    let mut now = course;
    let mut i: usize = 0;
    while i < class.extends.len()
        invariant
            i <= class.extends.len(),
            builds_true(*h),
            is_steady(*sums),
            g == ground_of(*h, *sums, *q),
            depth <= MAX_DEPTH,
            ev == env.deep_view(),
            pv == ghost_p@,
            p.stand.deep_view() == pv.stand,
            p.inners.deep_view() == pv.inners,
            p.redeclares.deep_view() == pv.redeclares,
            bases_taken(g, *class, ev, pv, depth as nat, i as nat) == Ok::<CourseV, Seq<char>>(
                now.deep_view(),
            ),
        decreases class.extends.len() - i,
    {
        let ghost before = now.deep_view();
        assert(bases_taken(g, *class, ev, pv, depth as nat, (i + 1) as nat) == base_taken(
            g,
            *class,
            ev,
            pv,
            before,
            depth as nat,
            i as int,
        ));
        match take_base(h, sums, q, class, env, p, now, depth, i, ghost_p) {
            Ok(next) => {
                now = next;
            },
            Err(why) => {
                proof {
                    lemma_bases_taken_stop(
                        g,
                        *class,
                        ev,
                        pv,
                        depth as nat,
                        (i + 1) as nat,
                        class.extends@.len(),
                    );
                }
                return Err(why);
            },
        }
        i = i + 1;
    }
    Ok(now)
}

/// Instantiate a class under a prefix with everything that is handed down to
/// it.
///
/// The bases come first, with their modifiers; then the class's own parameters
/// are settled, its arrays measured and its components built; then what it
/// states outright is gathered. A `break` that matched nothing is a mistake in
/// the extending class.
pub fn instantiate<'a,
    A1: Fn(&Expr, &str, &Vec<(String, String)>, &Vec<String>) -> Expr,
    A2: Fn(&ClassDef, &Table<Number>, &Vec<(String, Expr)>) -> Table<Vec<i64>>,
    A3: Fn(&Expr, &Table<String>) -> Option<String>,
    A4: Fn(&Expr, &Table<Number>, &str, &Vec<(String, String)>) -> (Result<Expr, String>, Vec<(Expr, String)>),
    A5: Fn(&Expr, &Table<String>, &Table<Number>) -> Result<Expr, String>,
    A6: Fn(&ClassDef, &Vec<(String, String)>) -> Option<String>,
    A7: Fn(&ClassDef, &Env, &Floor, Course, Built) -> Result<(Course, Built), String>,
    A8: Fn(&ClassDef, &Env, &Here, &Table<Vec<i64>>, &Built, Course) -> Result<(Course, Vec<bool>), String>,
    A9: Fn(&Expr, &Here) -> Result<(Expr, Vec<(Expr, String)>), String>,
    W: Fn(Arith, Number, Number) -> Number,
    O: Fn(&str, &Vec<Number>) -> Option<Vec<Number>>,
    N: Fn(&str) -> String,
>(
    h: &Building<A1, A2, A3, A4, A5, A6, A7, A8, A9>,
    sums: &Sums<W, O, N>,
    q: &Ground<'_, 'a>,
    class: &'a ClassDef,
    prefix: &str,
    env: &Env,
    course: Course,
    depth: usize,
) -> (r: Result<Course, String>)
    requires
        builds_true(*h),
        is_steady(*sums),
    ensures
        told(r) == instantiated(
            ground_of(*h, *sums, *q),
            *class,
            prefix@,
            env.deep_view(),
            course.deep_view(),
            depth as nat,
        ),
    decreases MAX_DEPTH + 1 - depth, 2int,
{
    if depth > MAX_DEPTH {
        return Err(
            join3(
                "instantiation deeper than 32 levels at `",
                class.name.as_str(),
                "` (recursive classes?)",
            ),
        );
    }
    let stamped = course.flat.origin.clone();
    let from: usize = course.aside.len();
    assert(course.aside.deep_view().len() == course.aside@.len());
    let p = match prepare(h, sums, q, class, prefix, env, course) {
        Ok(p) => p,
        Err(why) => {
            return Err(why);
        },
    };
    let ghost pv = p.deep_view();
    let Prepared { course: begun, stand, inners, redeclares, local_texts } = p;
    let rest = Prepared { course: nothing_yet(), stand, inners, redeclares, local_texts };
    let after = match instantiate_bases(h, sums, q, class, env, &rest, begun, depth, Ghost(pv)) {
        Ok(after) => after,
        Err(why) => {
            return Err(why);
        },
    };
    build_class(h, sums, q, class, env, rest, after, depth, from, stamped, Ghost(pv))
}

/// A course on which nothing has been gathered.
pub fn nothing_yet() -> (r: Course)
    ensures
        r.deep_view() == (CourseV {
            flat: crate::flat::nothing_gathered(),
            instances: Map::empty(),
            checked: Seq::empty(),
            extended: Seq::empty(),
            numbers: Seq::empty(),
            filled: Seq::empty(),
            given: Seq::empty(),
            aside: Seq::empty(),
        }),
{
    let course = Course {
        flat: Flat::new(),
        instances: Table::new(),
        checked: Vec::new(),
        extended: Vec::new(),
        numbers: Vec::new(),
        filled: Vec::new(),
        given: Vec::new(),
        aside: Vec::new(),
    };
    assert(texts(course.checked@) =~= Seq::empty());
    assert(course.extended.deep_view() =~= Seq::empty());
    assert(course.numbers.deep_view() =~= Seq::empty());
    assert(course.filled.deep_view() =~= Seq::empty());
    assert(course.given.deep_view() =~= Seq::empty());
    assert(course.aside.deep_view() =~= Seq::empty());
    course
}

/// A base that the same instance path has taken in already changes nothing:
/// what two roads to one class share is shared rather than doubled.
pub proof fn law_a_diamond_is_one_class(
    g: GroundV,
    class: ClassDef,
    env: EnvV,
    p: PreparedV,
    course: CourseV,
    depth: nat,
    i: int,
)
    requires
        depth <= MAX_DEPTH,
        base_meant(g, class, i, p.stand.imports) is Ok,
        course.extended.contains(
            (p.stand.naming.prefix, base_meant(g, class, i, p.stand.imports)->Ok_0.name@),
        ),
    ensures
        base_taken(g, class, env, p, course, depth, i) == Ok::<CourseV, Seq<char>>(course),
{
}

/// Once a class is instantiated, equations are stamped with the instance they
/// were stamped with before it.
pub proof fn law_the_stamp_is_put_back(
    g: GroundV,
    class: ClassDef,
    prefix: Seq<char>,
    env: EnvV,
    course: CourseV,
    depth: nat,
)
    requires
        instantiated(g, class, prefix, env, course, depth) is Ok,
    ensures
        instantiated(g, class, prefix, env, course, depth)->Ok_0.flat.origin
            == course.flat.origin,
{
}

proof fn lemma_all_broken(broken: Seq<Deselect>, broke: Seq<bool>, i: nat)
    requires
        first_unbroken(broken, broke, i) is None,
    ensures
        i < broken.len() ==> broken.len() <= broke.len(),
        forall|k: int| i <= k < broken.len() ==> #[trigger] broke[k],
    decreases broken.len() - i,
{
    if i < broken.len() {
        lemma_all_broken(broken, broke, i + 1);
    }
}

/// A class is instantiated only where every `break` of the `extends` it stands
/// in matched something, the ones nobody answered for among them.
pub proof fn law_every_break_matches(
    g: GroundV,
    class: ClassDef,
    env: EnvV,
    here: HereV,
    course: CourseV,
    broke: Seq<bool>,
    from: nat,
    stamped: Seq<char>,
)
    requires
        class_closed(g, class, env, here, course, broke, from, stamped) is Ok,
    ensures
        env.broken.len() <= broke.len(),
        forall|i: int| 0 <= i < env.broken.len() ==> #[trigger] broke[i],
{
    lemma_all_broken(env.broken, broke, 0);
}

/// Whether a check is among those gathered, word for word or as one that is the
/// same.
pub open spec fn is_checked(asserts: Checks, condition: ExprV, message: Seq<char>) -> bool {
    exists|i: int|
        0 <= i < asserts.len() && (#[trigger] asserts[i]).1 == message && (asserts[i].0
            == condition || alike(asserts[i].0, condition))
}

/// Whether what a check comes to once it is worked out is among those gathered.
pub open spec fn is_made(
    g: GroundV,
    here: HereV,
    asserts: Checks,
    check: (ExprV, Seq<char>),
) -> bool {
    (g.h.raise)(check.0, here) matches Ok(made) && is_checked(asserts, made.0, check.1)
}

proof fn lemma_still_made(
    g: GroundV,
    here: HereV,
    asserts: Checks,
    more: Checks,
    check: (ExprV, Seq<char>),
)
    requires
        is_made(g, here, asserts, check),
        begins_with_all(more, asserts),
    ensures
        is_made(g, here, more, check),
{
    let condition = (g.h.raise)(check.0, here)->Ok_0.0;
    let i = choose|i: int|
        0 <= i < asserts.len() && (#[trigger] asserts[i]).1 == check.1 && (asserts[i].0
            == condition || alike(asserts[i].0, condition));
    assert(more[i] == asserts[i]);
}

proof fn lemma_raised(
    g: GroundV,
    here: HereV,
    list: Checks,
    asserts: Checks,
    n: nat,
)
    requires
        n <= list.len(),
    ensures
        checks_raised(g, here, list, asserts, n) matches Ok(next) ==> {
            &&& begins_with_all(next.asserts, asserts)
            &&& forall|i: int|
                0 <= i < n ==> is_made(g, here, next.asserts, #[trigger] list[i])
        },
    decreases n,
{
    if n > 0 {
        lemma_raised(g, here, list, asserts, (n - 1) as nat);
        if let Ok(next) = checks_raised(g, here, list, asserts, n) {
            let before = checks_raised(g, here, list, asserts, (n - 1) as nat)->Ok_0;
            let made = (g.h.raise)(list[n - 1].0, here)->Ok_0;
            assert(begins_with_all(next.asserts, before.asserts));
            assert forall|i: int| 0 <= i < n implies is_made(
                g,
                here,
                next.asserts,
                #[trigger] list[i],
            ) by {
                if i < n - 1 {
                    lemma_still_made(g, here, before.asserts, next.asserts, list[i]);
                } else if is_asserted(before.asserts, made.0, list[i].1) {
                    let j = choose|j: int|
                        0 <= j < before.asserts.len() && (#[trigger] before.asserts[j]).1
                            == list[i].1 && alike(before.asserts[j].0, made.0);
                    assert(next.asserts[j].1 == list[i].1);
                } else {
                    let j = before.asserts.len() as int;
                    assert(next.asserts[j] == (made.0, list[i].1));
                }
            }
        }
    }
}

proof fn lemma_aside_raised(
    g: GroundV,
    here: HereV,
    asserts: Checks,
    aside: Checks,
    rounds: nat,
)
    ensures
        aside_raised(g, here, asserts, aside, rounds) matches Ok(next) ==> {
            &&& begins_with_all(next.asserts, asserts)
            &&& rounds > 0 ==> forall|i: int|
                0 <= i < aside.len() ==> is_made(g, here, next.asserts, #[trigger] aside[i])
        },
    decreases rounds,
{
    if rounds > 0 && aside.len() > 0 {
        lemma_raised(g, here, aside, asserts, aside.len());
        if let Ok(next) = checks_raised(g, here, aside, asserts, aside.len()) {
            lemma_aside_raised(g, here, next.asserts, next.behind, (rounds - 1) as nat);
            if let Ok(last) = aside_raised(
                g,
                here,
                next.asserts,
                next.behind,
                (rounds - 1) as nat,
            ) {
                assert forall|i: int| 0 <= i < aside.len() implies is_made(
                    g,
                    here,
                    last.asserts,
                    #[trigger] aside[i],
                ) by {
                    lemma_still_made(g, here, next.asserts, last.asserts, aside[i]);
                }
            }
        }
    }
}

/// Every check that bodies set aside for a class is made by it: once the class is
/// done, the check is, worked out, among those gathered, and those gathered
/// before are there too.
pub proof fn law_every_check_set_aside_is_made(
    g: GroundV,
    class: ClassDef,
    env: EnvV,
    here: HereV,
    course: CourseV,
    broke: Seq<bool>,
    from: nat,
    stamped: Seq<char>,
    i: int,
)
    requires
        from <= i < course.aside.len(),
    ensures
        class_closed(g, class, env, here, course, broke, from, stamped) matches Ok(after) ==> {
            &&& is_made(g, here, after.flat.asserts, course.aside[i])
            &&& begins_with_all(after.flat.asserts, course.flat.asserts)
        },
{
    let aside = course.aside.skip(from as int);
    lemma_aside_raised(g, here, course.flat.asserts, aside, ROUNDS as nat);
    assert(aside[i - from] == course.aside[i]);
}

/// A check that is the same as one gathered already is not added to them.
pub proof fn law_a_check_made_already_is_not_added(
    g: GroundV,
    here: HereV,
    list: Checks,
    asserts: Checks,
    n: nat,
    i: int,
)
    requires
        0 < n <= list.len(),
        checks_raised(g, here, list, asserts, n) is Ok,
        ({
            let before = checks_raised(g, here, list, asserts, (n - 1) as nat)->Ok_0;
            let made = (g.h.raise)(list[n - 1].0, here)->Ok_0;
            0 <= i < before.asserts.len() && before.asserts[i].1 == list[n - 1].1 && alike(
                before.asserts[i].0,
                made.0,
            )
        }),
    ensures
        checks_raised(g, here, list, asserts, n)->Ok_0.asserts == checks_raised(
            g,
            here,
            list,
            asserts,
            (n - 1) as nat,
        )->Ok_0.asserts,
{
    let before = checks_raised(g, here, list, asserts, (n - 1) as nat)->Ok_0;
    assert(before.asserts[i].1 == list[n - 1].1);
}

/// Whether none of a list of checks, from the `from`-th on, is the same as one
/// before it.
pub open spec fn told_apart(asserts: Checks, from: nat) -> bool {
    forall|i: int, j: int|
        0 <= i < j < asserts.len() && from <= j ==> !((#[trigger] asserts[i]).1
            == (#[trigger] asserts[j]).1 && alike(asserts[i].0, asserts[j].0))
}

/// One check written twice is one check: no check that is added is the same as
/// one that was there.
pub proof fn law_a_check_written_twice_is_one_check(
    g: GroundV,
    here: HereV,
    list: Checks,
    asserts: Checks,
    n: nat,
)
    ensures
        checks_raised(g, here, list, asserts, n) matches Ok(next) ==> told_apart(
            next.asserts,
            asserts.len(),
        ),
    decreases n,
{
    if n > 0 && n <= list.len() {
        law_a_check_written_twice_is_one_check(g, here, list, asserts, (n - 1) as nat);
        if let Ok(next) = checks_raised(g, here, list, asserts, n) {
            let before = checks_raised(g, here, list, asserts, (n - 1) as nat)->Ok_0;
            assert forall|i: int, j: int|
                0 <= i < j < next.asserts.len() && asserts.len() <= j implies !((
            #[trigger] next.asserts[i]).1 == (#[trigger] next.asserts[j]).1 && alike(
                next.asserts[i].0,
                next.asserts[j].0,
            )) by {
                assert(next.asserts[i] == before.asserts[i]);
                if j < before.asserts.len() {
                    assert(next.asserts[j] == before.asserts[j]);
                }
            }
        }
    }
}

proof fn lemma_fields_call_nothing(
    g: GroundV,
    s: StandV,
    c: ComponentV,
    fields: Seq<ComponentV>,
    start: MovedV,
    n: nat,
)
    ensures
        fields_asked(g, s, c, fields, start, n).purse.aside == start.purse.aside,
    decreases n,
{
    if n > 0 && n <= fields.len() {
        lemma_fields_call_nothing(g, s, c, fields, start, (n - 1) as nat);
    }
}

proof fn lemma_record_calls_nothing(
    g: GroundV,
    s: StandV,
    c: ComponentV,
    from_extends: Option<ExprV>,
    start: MovedV,
)
    ensures
        record_asked(g, s, c, from_extends, start).purse.aside == start.purse.aside,
{
    if let Some(record) = meaning(g.classes, c.of_type, s.scope, s.imports) {
        let fields = gathered_over(g.classes, record, Seq::empty(), 0);
        lemma_fields_call_nothing(g, s, c, fields, start, fields.len());
    }
}

proof fn lemma_asked_from(
    g: GroundV,
    s: StandV,
    said: Seq<(Seq<char>, ExprV)>,
    known: Map<Seq<char>, Seq<char>>,
    shapes: Lengths,
    parts: Seq<(ComponentV, Option<ExprV>)>,
    start: PurseV,
    m: nat,
    n: nat,
)
    requires
        m <= n <= parts.len(),
    ensures
        begins_with_all(
            parts_asked(g, s, said, known, shapes, parts, start, n).purse.aside,
            parts_asked(g, s, said, known, shapes, parts, start, m).purse.aside,
        ),
    decreases n,
{
    if m < n {
        lemma_asked_from(g, s, said, known, shapes, parts, start, m, (n - 1) as nat);
        let part = parts[n - 1];
        let before = parts_asked(g, s, said, known, shapes, parts, start, (n - 1) as nat);
        lemma_record_calls_nothing(g, s, part.0, part.1, before);
    }
}

proof fn lemma_settled_from(
    g: GroundV,
    s: StandV,
    said: Seq<(Seq<char>, ExprV)>,
    known: Map<Seq<char>, Seq<char>>,
    class: ClassDef,
    parts: Seq<(ComponentV, Option<ExprV>)>,
    start: PurseV,
    rounds: nat,
)
    ensures
        begins_with_all(
            purse_settled(g, s, said, known, class, parts, start, rounds).aside,
            start.aside,
        ),
    decreases rounds,
{
    if rounds > 0 {
        let shapes = (g.h.measure)(class, start.local, said);
        lemma_asked_from(g, s, said, known, shapes, parts, start, 0, parts.len());
        let next = parts_asked(g, s, said, known, shapes, parts, start, parts.len());
        lemma_settled_from(
            g,
            s,
            said,
            known,
            class,
            parts,
            next.purse,
            (rounds - 1) as nat,
        );
    }
}

/// The numbers a class starts to settle its parameters with.
pub open spec fn nothing_settled(consts: Worths) -> PurseV {
    PurseV { local: Map::empty(), view: consts, consts, aside: Seq::empty() }
}

/// What the bodies called for the value of the parameter at a place of a class
/// check, the first time it is asked.
pub open spec fn parameter_leaves(
    g: GroundV,
    class: ClassDef,
    env: EnvV,
    p: PreparedV,
    course: CourseV,
    at: nat,
) -> Checks {
    let s = p.stand;
    let parts = parts_of(g.classes, class);
    let part = parts[at as int];
    let start = nothing_settled(course.flat.const_values);
    let shapes = (g.h.measure)(class, start.local, env.overrides);
    let so_far = parts_asked(g, s, env.overrides, p.local_texts, shapes, parts, start, at);
    let before = record_asked(g, s, part.0, part.1, so_far).purse;
    if is_fixed(part.0.variability) && !before.local.contains_key(part.0.name) {
        match part_value(g, s, env.overrides, shapes, before.local, part) {
            Some(value) => worth_leaves(g, s, texts_put(value, p.local_texts), before.view),
            None => Seq::empty(),
        }
    } else {
        Seq::empty()
    }
}

/// What the bodies called for the value of a parameter check is set aside for the
/// class, however many rounds its parameters take to settle.
pub proof fn law_what_a_parameter_calls_is_set_aside(
    g: GroundV,
    class: ClassDef,
    env: EnvV,
    p: PreparedV,
    course: CourseV,
    at: nat,
    i: int,
)
    requires
        at < parts_of(g.classes, class).len(),
        0 <= i < parameter_leaves(g, class, env, p, course, at).len(),
    ensures
        ({
            let measured = measured_course(g, class, env, p, course).0;
            exists|j: int|
                course.aside.len() <= j < measured.aside.len() && #[trigger] measured.aside[j]
                    == parameter_leaves(g, class, env, p, course, at)[i]
        }),
{
    let s = p.stand;
    let said = env.overrides;
    let known = p.local_texts;
    let parts = parts_of(g.classes, class);
    let part = parts[at as int];
    let start = nothing_settled(course.flat.const_values);
    let shapes = (g.h.measure)(class, start.local, said);
    let so_far = parts_asked(g, s, said, known, shapes, parts, start, at);
    let next = parts_asked(g, s, said, known, shapes, parts, start, at + 1);
    let all = parts_asked(g, s, said, known, shapes, parts, start, parts.len());
    let done = purse_settled(g, s, said, known, class, parts, start, ROUNDS as nat);
    lemma_record_calls_nothing(g, s, part.0, part.1, so_far);
    lemma_asked_from(g, s, said, known, shapes, parts, start, at + 1, parts.len());
    lemma_settled_from(
        g,
        s,
        said,
        known,
        class,
        parts,
        all.purse,
        (ROUNDS - 1) as nat,
    );
    assert(begins_with_all(done.aside, all.purse.aside));
    assert(begins_with_all(done.aside, next.purse.aside));
    let measured = measured_course(g, class, env, p, course).0;
    assert(measured.aside == course.aside + done.aside);
    let before = record_asked(g, s, part.0, part.1, so_far).purse;
    let checks = parameter_leaves(g, class, env, p, course, at);
    assert(next.purse.aside == before.aside + checks);
    let j = before.aside.len() + i;
    assert(next.purse.aside[j] == checks[i]);
    assert(done.aside[j] == next.purse.aside[j]);
    assert(measured.aside[course.aside.len() + j] == checks[i]);
}

/// Whether a course holds every check that another does, those gathered and those
/// set aside, in the order they had.
pub open spec fn course_keeps(was: CourseV, now: CourseV) -> bool {
    &&& begins_with_all(now.flat.asserts, was.flat.asserts)
    &&& begins_with_all(now.aside, was.aside)
}

/// Whether neither building the components of a class nor stating it ever drops a
/// check.
pub open spec fn nothing_is_dropped(g: GroundV) -> bool {
    &&& forall|class: ClassDef, env: EnvV, floor: FloorV, course: CourseV, built: BuiltV|
        (#[trigger] (g.h.build)(class, env, floor, course, built)) matches Ok(made)
            ==> course_keeps(course, made.0)
    &&& forall|
        class: ClassDef,
        env: EnvV,
        here: HereV,
        sizes: Lengths,
        built: BuiltV,
        course: CourseV,
    |
        (#[trigger] (g.h.state)(class, env, here, sizes, built, course)) matches Ok(made)
            ==> course_keeps(course, made.0)
}

/// What a class is stated with once its bases are taken in and its components
/// built: where it stands, what was built and the course so far.
pub open spec fn about_to_state(
    g: GroundV,
    class: ClassDef,
    prefix: Seq<char>,
    env: EnvV,
    course: CourseV,
    depth: nat,
) -> Result<(HereV, BuiltV, CourseV), Seq<char>> {
    match prepared(g, class, prefix, env, course) {
        Err(why) => Err(why),
        Ok(p) => match bases_taken(g, class, env, p, depth, class.extends@.len()) {
            Err(why) => Err(why),
            Ok(after) => {
                let measured = measured_course(g, class, env, p, after);
                let floor = FloorV {
                    stand: p.stand,
                    inners: p.inners,
                    redeclares: p.redeclares,
                    local_texts: p.local_texts,
                    records: measured.2,
                    records_wider: measured.0.flat.records,
                    depth,
                };
                match (g.h.build)(class, env, floor, measured.0, measured.1) {
                    Err(why) => Err(why),
                    Ok(made) => {
                        let built = built_up(made.0, made.1, p.stand.naming.prefix);
                        let here = HereV {
                            scope: class.name@,
                            imports: p.stand.imports,
                            naming: p.stand.naming,
                            consts: built.local_consts,
                            sizes: built.sizes_here,
                            records: measured.2,
                        };
                        Ok((here, built, made.0))
                    },
                }
            },
        },
    }
}

proof fn lemma_base_keeps(
    g: GroundV,
    class: ClassDef,
    env: EnvV,
    p: PreparedV,
    course: CourseV,
    depth: nat,
    i: int,
)
    requires
        nothing_is_dropped(g),
        depth <= MAX_DEPTH,
    ensures
        base_taken(g, class, env, p, course, depth, i) matches Ok(after) ==> course_keeps(
            course,
            after,
        ),
    decreases MAX_DEPTH + 1 - depth, 0int, 0nat,
{
    let prefix = p.stand.naming.prefix;
    let extend = class.extends@[i];
    let consts = course.flat.const_values;
    if let Ok(base) = base_meant(g, class, i, p.stand.imports) {
        if let Ok(own) = all_qualified(
            g,
            extend.redeclares@,
            class,
            p.stand.naming,
            extend.redeclares@.len(),
        ) {
            law_instantiating_drops_no_check(
                g,
                base,
                prefix,
                EnvV {
                    overrides: base_values(g, class, env, p.stand, consts, extend),
                    handed_shapes: handed_shapes(g, class, env, p.stand, consts),
                    outer_sizes: env.outer_sizes,
                    redeclares: own + p.redeclares,
                    inners: p.inners,
                    broken: extend.broken@,
                    inside_a_parameter: env.inside_a_parameter,
                    mark: env.mark,
                },
                CourseV { extended: course.extended.push((prefix, base.name@)), ..course },
                depth + 1,
            );
        }
    }
}

proof fn lemma_bases_keep(
    g: GroundV,
    class: ClassDef,
    env: EnvV,
    p: PreparedV,
    depth: nat,
    n: nat,
)
    requires
        nothing_is_dropped(g),
        depth <= MAX_DEPTH,
    ensures
        bases_taken(g, class, env, p, depth, n) matches Ok(after) ==> course_keeps(
            p.course,
            after,
        ),
    decreases MAX_DEPTH + 1 - depth, 1int, n,
{
    if n > 0 && n <= class.extends@.len() {
        lemma_bases_keep(g, class, env, p, depth, (n - 1) as nat);
        if let Ok(before) = bases_taken(g, class, env, p, depth, (n - 1) as nat) {
            lemma_base_keeps(g, class, env, p, before, depth, n - 1);
        }
    }
}

/// What the course held when a class was begun is there when it is about to be
/// stated: its bases and its components drop no check.
pub proof fn law_what_the_course_held_is_there(
    g: GroundV,
    class: ClassDef,
    prefix: Seq<char>,
    env: EnvV,
    course: CourseV,
    depth: nat,
)
    requires
        nothing_is_dropped(g),
        depth <= MAX_DEPTH,
    ensures
        about_to_state(g, class, prefix, env, course, depth) matches Ok(made) ==> course_keeps(
            course,
            made.2,
        ),
    decreases MAX_DEPTH + 1 - depth, 2int, 0nat,
{
    if let Ok(p) = prepared(g, class, prefix, env, course) {
        assert(p.course.aside == course.aside);
        assert(p.course.flat.asserts == course.flat.asserts);
        lemma_bases_keep(g, class, env, p, depth, class.extends@.len());
        if let Ok(after) = bases_taken(g, class, env, p, depth, class.extends@.len()) {
            let measured = measured_course(g, class, env, p, after);
            assert(course_keeps(after, measured.0));
        }
    }
}

/// Instantiating a class drops no check: those gathered before and those set
/// aside before are there after it, in the order they had.
pub proof fn law_instantiating_drops_no_check(
    g: GroundV,
    class: ClassDef,
    prefix: Seq<char>,
    env: EnvV,
    course: CourseV,
    depth: nat,
)
    requires
        nothing_is_dropped(g),
    ensures
        instantiated(g, class, prefix, env, course, depth) matches Ok(after) ==> course_keeps(
            course,
            after,
        ),
    decreases MAX_DEPTH + 1 - depth, 3int, 0nat,
{
    if depth <= MAX_DEPTH {
        law_what_the_course_held_is_there(g, class, prefix, env, course, depth);
        if let Ok((here, built, now)) = about_to_state(g, class, prefix, env, course, depth) {
            if let Ok(stated) = (g.h.state)(class, env, here, built.sizes, built, now) {
                assert(course_keeps(now, stated.0));
                let from = course.aside.len();
                let aside = if from < stated.0.aside.len() {
                    stated.0.aside.skip(from as int)
                } else {
                    Seq::empty()
                };
                lemma_aside_raised(g, here, stated.0.flat.asserts, aside, ROUNDS as nat);
            }
        }
    }
}

/// Whatever bodies set aside while a class is built and stated, the class makes:
/// each such check is, worked out, among the checks that were gathered once the
/// class is instantiated.
pub proof fn law_what_is_set_aside_for_a_class_is_made(
    g: GroundV,
    class: ClassDef,
    prefix: Seq<char>,
    env: EnvV,
    course: CourseV,
    depth: nat,
    i: int,
)
    requires
        nothing_is_dropped(g),
        instantiated(g, class, prefix, env, course, depth) is Ok,
    ensures
        ({
            let after = instantiated(g, class, prefix, env, course, depth)->Ok_0;
            about_to_state(g, class, prefix, env, course, depth) matches Ok((here, built, now)) && (
            g.h.state)(class, env, here, built.sizes, built, now) matches Ok(stated) && (
            course.aside.len() <= i < stated.0.aside.len() ==> is_made(
                g,
                here,
                after.flat.asserts,
                stated.0.aside[i],
            ))
        }),
{
    law_what_the_course_held_is_there(g, class, prefix, env, course, depth);
    let (here, built, now) = about_to_state(g, class, prefix, env, course, depth)->Ok_0;
    let stated = (g.h.state)(class, env, here, built.sizes, built, now)->Ok_0;
    if course.aside.len() <= i < stated.0.aside.len() {
        law_every_check_set_aside_is_made(
            g,
            class,
            env,
            here,
            stated.0,
            stated.1,
            course.aside.len(),
            course.flat.origin,
            i,
        );
    }
}

/// What the bodies called for the value of a parameter check, the model checks:
/// once the class is instantiated, each such check is, worked out, among the
/// checks that were gathered.
pub proof fn law_what_a_parameter_calls_the_model_checks(
    g: GroundV,
    class: ClassDef,
    prefix: Seq<char>,
    env: EnvV,
    course: CourseV,
    depth: nat,
    at: nat,
    i: int,
)
    requires
        nothing_is_dropped(g),
        instantiated(g, class, prefix, env, course, depth) is Ok,
        at < parts_of(g.classes, class).len(),
    ensures
        ({
            let after = instantiated(g, class, prefix, env, course, depth)->Ok_0;
            let p = prepared(g, class, prefix, env, course)->Ok_0;
            let taken = bases_taken(g, class, env, p, depth, class.extends@.len())->Ok_0;
            let (here, built, now) = about_to_state(g, class, prefix, env, course, depth)->Ok_0;
            let checks = parameter_leaves(g, class, env, p, taken, at);
            0 <= i < checks.len() ==> is_made(g, here, after.flat.asserts, checks[i])
        }),
{
    let p = prepared(g, class, prefix, env, course)->Ok_0;
    let taken = bases_taken(g, class, env, p, depth, class.extends@.len())->Ok_0;
    let checks = parameter_leaves(g, class, env, p, taken, at);
    if 0 <= i < checks.len() {
        assert(p.course.aside == course.aside);
        lemma_bases_keep(g, class, env, p, depth, class.extends@.len());
        law_what_a_parameter_calls_is_set_aside(g, class, env, p, taken, at, i);
        let measured = measured_course(g, class, env, p, taken).0;
        let j = choose|j: int|
            taken.aside.len() <= j < measured.aside.len() && #[trigger] measured.aside[j]
                == checks[i];
        law_what_is_set_aside_for_a_class_is_made(g, class, prefix, env, course, depth, j);
        let (here, built, now) = about_to_state(g, class, prefix, env, course, depth)->Ok_0;
        let stated = (g.h.state)(class, env, here, built.sizes, built, now)->Ok_0;
        assert(course_keeps(measured, now));
        assert(course_keeps(now, stated.0));
        assert(now.aside[j] == measured.aside[j]);
        assert(stated.0.aside[j] == now.aside[j]);
    }
}

}
