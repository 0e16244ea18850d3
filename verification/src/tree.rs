//! The class tree of a model, walked with everything that walking leans on: its
//! equations stated, its calls worked out and its arrays measured.
use crate::class::{copied_text, ClassDef, Deselect, EquationItem, Redeclare, Statement};
use crate::equations::{class_laid_out, class_stated, flatten_equations, is_class_laid_out, DeskV};
use crate::expr::{told, Expr, ExprV};
use crate::flat::{nothing_remembered, Checks, Flat, FlatV, Rest, RestV};
use crate::folding::Worths;
use crate::inlining::{
    checks_inlined, leave_aside, left_aside, outputs_inlined, walk_trouble, Inlined,
};
use crate::instantiate::{
    instantiate, instantiated, list_names, own_names, Building, BuildingV, Built, BuiltV, Course,
    CourseV, Env, EnvV, Floor, Ground, GroundV,
};
use crate::joins::all_known;
use crate::lookup::{class_named, find_class, Pairs, Registry};
use crate::number::Number;
use crate::outside::{outside_true, Footing, FootingV, Parts};
use crate::reading::{listed, Here, HereV, Ran, Reading, ReadingV};
use crate::resolving::{left_by, resolve, resolved, Hands, HandsV, Place, PlaceV};
use crate::scoping::InnerInstance;
use crate::shapes::{class_measured, Lengths};
use crate::table::{entered, Table};
use crate::text::{join3, texts};
use crate::value::{first_scalar, not_scalar, scalars, Value, ValueV};
use crate::web::{
    can_walk, inline_here, inlined_told, list_checks, list_outputs, measure_class, measure_told,
    nowhere, put_here, put_told, stand_nowhere, unfolding_told, web_of, Web, WebV,
};
use vstd::prelude::*;

verus! {

/// The footing of a call that is asked for under a mark of its own.
pub open spec fn marked(on: FootingV, mark: Option<Seq<char>>) -> FootingV {
    FootingV { mark, ..on }
}

fn go_marked(on: &Footing, mark: &Option<String>) -> (r: Footing)
    ensures
        r.deep_view() == marked(on.deep_view(), mark.deep_view()),
{
    Footing { mark: copied_text(mark), nested: on.nested, settling: on.settling }
}

/// What resolving is done with.
pub open spec fn hands_told<C>(w: WebV<C>, on: FootingV, consts: Worths) -> HandsV {
    HandsV {
        sums: w.out.sums,
        show: w.out.language.show,
        spell: w.out.language.spell,
        here: w.out.language.written,
        run: |
            class: ClassDef,
            mark: Option<Seq<char>>,
            args: Seq<ExprV>,
            shapes: Seq<Seq<i64>>,
            depth: nat,
        |
            inlined_told(w, marked(on, mark), consts, class, args, shapes, depth as usize),
    }
}

/// The place an expression is resolved at, where nothing is known of any array
/// and no loop runs.
pub open spec fn place_told<'a, C>(
    w: WebV<'a, C>,
    on: FootingV,
    consts: Worths,
    scope: Seq<char>,
    imports: Pairs,
) -> PlaceV<'a> {
    PlaceV {
        loop_vars: Map::empty(),
        consts,
        sizes: Map::empty(),
        classes: w.classes,
        scope,
        imports,
        standing: w.out.standing,
        mark: on.mark,
        no_bottom: w.out.no_bottom,
    }
}

/// An expression with its calls worked out there, and the checks that the
/// bodies called for it set aside.
pub open spec fn resolve_told<C>(
    w: WebV<C>,
    on: FootingV,
    e: ExprV,
    consts: Worths,
    scope: Seq<char>,
    imports: Pairs,
) -> (Result<ExprV, Seq<char>>, Checks) {
    let p = place_told(w, on, consts, scope, imports);
    let h = hands_told(w, on, consts);
    (resolved(e, p, h, 0), left_by(e, p, h, 0))
}

/// Work the calls of an expression out.
pub fn resolve_here<P: Parts>(
    w: &Web<'_, '_, P>,
    on: &Footing,
    e: &Expr,
    consts: &Table<Number>,
    scope: &str,
    imports: &Vec<(String, String)>,
) -> (r: (Result<Expr, String>, Vec<(Expr, String)>))
    requires
        outside_true(*w.out),
    ensures
        (told(r.0), r.1.deep_view()) == resolve_told(
            web_of(*w),
            on.deep_view(),
            e.deep_view(),
            consts.deep_view(),
            scope@,
            imports.deep_view(),
        ),
{
    let show = |e: &Expr| -> (r: String)
        ensures
            r@ == (web_of(*w).out.language.show)(e.deep_view()),
        { w.out.language.do_show(e) };
    let spell = |n: Number| -> (r: String)
        ensures
            r@ == (web_of(*w).out.language.spell)(n),
        { w.out.language.do_spell(n) };
    let here = |called: &str| -> (r: bool)
        ensures
            r == (web_of(*w).out.language.written)(called@),
        { w.out.language.do_written(called) };
    let run = |
        class: &ClassDef,
        mark: &Option<String>,
        args: &Vec<Expr>,
        shapes: &Vec<Vec<i64>>,
        depth: usize,
    | -> (r: Result<Inlined, String>)
        ensures
            told(r) == inlined_told(
                web_of(*w),
                marked(on.deep_view(), mark.deep_view()),
                consts.deep_view(),
                *class,
                args.deep_view(),
                shapes.deep_view(),
                depth,
            ),
        {
            let at = go_marked(on, mark);
            inline_here(w, &at, consts, class, args, shapes, depth)
        };
    let h = Hands {
        sums: &w.out.sums,
        show,
        spell,
        here,
        run,
        model: Ghost(hands_told(web_of(*w), on.deep_view(), consts.deep_view())),
    };
    let loop_vars: Table<Number> = Table::new();
    let sizes: Table<Vec<i64>> = Table::new();
    let p = Place {
        loop_vars: &loop_vars,
        consts,
        sizes: &sizes,
        registry: w.registry,
        scope,
        imports,
        standing: &w.out.standing,
        mark: &on.mark,
        no_bottom: w.out.no_bottom.as_str(),
    };
    let mut aside: Vec<(Expr, String)> = Vec::new();
    assert(aside.deep_view() =~= Seq::empty());
    assert(p.deep_view() == place_told(
        web_of(*w),
        on.deep_view(),
        consts.deep_view(),
        scope@,
        imports.deep_view(),
    ));
    let done = resolve(e, &p, &h, 0, &mut aside);
    assert(aside.deep_view() =~= left_by(
        e.deep_view(),
        p.deep_view(),
        hands_told(web_of(*w), on.deep_view(), consts.deep_view()),
        0,
    ));
    (done, aside)
}

/// What the equations of a class are read with. A constant of a class stands
/// behind what the class declares itself, where it is to.
pub open spec fn reading_told<C>(
    w: WebV<C>,
    on: FootingV,
    class: ClassDef,
    here: HereV,
    sizes: Lengths,
) -> ReadingV {
    ReadingV {
        put: |e: ExprV, shadowed: bool|
            put_told(
                w,
                on,
                e,
                here.scope,
                here.imports,
                if shadowed {
                    own_names(class)
                } else {
                    Seq::empty()
                },
            ),
        spread: |e: ExprV, vars: Worths, consts: Worths, records: Map<Seq<char>, Seq<char>>|
            (w.out.engine.expand)(e, vars, consts, here.sizes, here.scope, here.imports, records, 0, on),
        unfold: |value: ValueV, vars: Worths, consts: Worths, records: Map<Seq<char>, Seq<char>>|
            (w.out.engine.unfold)(value, vars, consts, records, here, on),
        pair: w.out.engine.pair,
        show: w.out.language.show,
        begin: w.out.language.begin,
        run: |list: Seq<Statement>| (w.out.engine.run)(list, here, sizes, on),
        outputs: |function: ClassDef, args: Seq<ExprV>, shapes: Seq<Seq<i64>>|
            match outputs_inlined(unfolding_told(w, on, here.consts), function, args, shapes, 0) {
                Ok(answer) => Ok((answer.outputs, left_aside(answer))),
                Err(why) => Err(why),
            },
        checks: |function: ClassDef, args: Seq<ExprV>, shapes: Seq<Seq<i64>>|
            checks_inlined(unfolding_told(w, on, here.consts), function, args, shapes, 0),
        undecided: w.out.language.undecided,
        walkable: |function: ClassDef|
            walk_trouble(unfolding_told(w, on, here.consts), function) is None,
    }
}

/// Which of what a selective `extends` leaves out was found, one answer for
/// each: what nobody answered for was not found.
pub open spec fn found_so_far(broken: nat, broke: Seq<bool>) -> Seq<bool> {
    Seq::new(broken, |i: int| i < broke.len() && broke[i])
}

fn list_found(broken: usize, broke: &Vec<bool>) -> (r: Vec<bool>)
    ensures
        r@ == found_so_far(broken as nat, broke@),
{
    let mut out: Vec<bool> = Vec::new();
    let mut i: usize = 0;
    while i < broken
        invariant
            i <= broken,
            out@ == found_so_far(i as nat, broke@),
        decreases broken - i,
    {
        out.push(i < broke.len() && broke[i]);
        assert(out@ =~= found_so_far((i + 1) as nat, broke@));
        i = i + 1;
    }
    out
}

pub open spec fn loose_else(class: ClassDef) -> Seq<char> {
    "an `else` of `"@ + class.name@ + "` is not the last of its branches"@
}

/// The desk a class is stated at.
pub open spec fn desk_told<'a, C>(
    w: WebV<'a, C>,
    class: ClassDef,
    env: EnvV,
    here: HereV,
    sizes: Lengths,
) -> DeskV<'a> {
    DeskV {
        h: reading_told(w, marked(nowhere(), env.mark), class, here, sizes),
        v: w.out.sums,
        classes: w.classes,
        p: here,
    }
}

/// What a class states outright, and which of what is left out of it was there.
/// What the bodies called for it check is kept beside what the course set aside
/// before, in the order the bodies were called.
pub open spec fn state_told<C>(
    w: WebV<C>,
    class: ClassDef,
    env: EnvV,
    here: HereV,
    sizes: Lengths,
    built: BuiltV,
    course: CourseV,
) -> Result<(CourseV, Seq<bool>), Seq<char>> {
    if !class_laid_out(class) {
        Err(loose_else(class))
    } else {
        match class_stated(
            desk_told(w, class, env, here, sizes),
            gathered_on(course),
            class,
            built.record_values,
            env.broken,
            found_so_far(env.broken.len(), built.broke),
        ) {
            Err(why) => Err(why),
            Ok(made) => Ok((course_from(made.0), made.1)),
        }
    }
}

/// State a class outright.
pub fn state_here<P: Parts>(
    w: &Web<'_, '_, P>,
    class: &ClassDef,
    env: &Env,
    here: &Here,
    sizes: &Table<Vec<i64>>,
    built: &Built,
    course: Course,
) -> (r: Result<(Course, Vec<bool>), String>)
    requires
        outside_true(*w.out),
    ensures
        told(r) == state_told(
            web_of(*w),
            *class,
            env.deep_view(),
            here.deep_view(),
            sizes.deep_view(),
            built.deep_view(),
            course.deep_view(),
        ),
{
    if !is_class_laid_out(class) {
        return Err(
            join3("an `else` of `", class.name.as_str(), "` is not the last of its branches"),
        );
    }
    let bare = stand_nowhere();
    let at = go_marked(&bare, env.mark);
    let on = &at;
    let names = list_names(class);
    let none: Vec<String> = Vec::new();
    assert(texts(none@) =~= Seq::empty());
    let put = |e: &Expr, shadowed: bool| -> (r: Expr)
        ensures
            r.deep_view() == put_told(
                web_of(*w),
                on.deep_view(),
                e.deep_view(),
                here.scope@,
                here.imports.deep_view(),
                if shadowed { own_names(*class) } else { Seq::empty() },
            ),
        {
            if shadowed {
                put_here(w, on, e, here.scope.as_str(), &here.imports, &names)
            } else {
                put_here(w, on, e, here.scope.as_str(), &here.imports, &none)
            }
        };
    let spread = |
        e: &Expr,
        vars: &Table<Number>,
        consts: &Table<Number>,
        records: &Table<String>,
    | -> (r: Result<(Value, Vec<(Expr, String)>), String>)
        ensures
            told(
                r,
            ) == (web_of(*w).out.engine.expand)(e.deep_view(), vars.deep_view(), consts.deep_view(), here.deep_view().sizes, here.scope@, here.imports.deep_view(), records.deep_view(), 0, on.deep_view()),
        { w.out.engine.do_expand(e, vars, consts, &here.sizes, here.scope.as_str(), &here.imports, records, 0, on) };
    let unfold = |
        value: Value,
        vars: &Table<Number>,
        consts: &Table<Number>,
        records: &Table<String>,
    | -> (r: Result<(Value, Vec<(Expr, String)>), String>)
        ensures
            told(
                r,
            ) == (web_of(*w).out.engine.unfold)(value.deep_view(), vars.deep_view(), consts.deep_view(), records.deep_view(), here.deep_view(), on.deep_view()),
        { w.out.engine.do_unfold(value, vars, consts, records, here, on) };
    let pair = |lhs: &Value, rhs: &Value, origin: &str| -> (r: Result<Vec<EquationItem>, String>)
        ensures
            told(r) == (web_of(*w).out.engine.pair)(lhs.deep_view(), rhs.deep_view(), origin@),
        { w.out.engine.do_pair(lhs, rhs, origin) };
    let show = |e: &Expr| -> (r: String)
        ensures
            r@ == (web_of(*w).out.language.show)(e.deep_view()),
        { w.out.language.do_show(e) };
    let begin = |first: Option<&Expr>| -> (r: String)
        ensures
            r@ == (web_of(*w).out.language.begin)(first.deep_view()),
        { w.out.language.do_begin(first) };
    let run = |list: &Vec<&Statement>| -> (r: Result<Ran, String>)
        ensures
            told(
                r,
            ) == (web_of(*w).out.engine.run)(listed(list@), here.deep_view(), sizes.deep_view(), on.deep_view()),
        { w.out.engine.do_run(list, here, sizes, on) };
    let outputs = |
        function: &ClassDef,
        args: &Vec<Expr>,
        shapes: &Vec<Vec<i64>>,
    | -> (r: Result<(Vec<(String, Expr)>, Vec<(Expr, String)>), String>)
        ensures
            told(r) == (match outputs_inlined(unfolding_told(web_of(*w), on.deep_view(), here.deep_view().consts), *function, args.deep_view(), shapes.deep_view(), 0) {
                Ok(answer) => Ok((answer.outputs, left_aside(answer))),
                Err(why) => Err(why),
            }),
        {
            match list_outputs(w, on, &here.consts, function, args, shapes, 0) {
                Ok(answer) => Ok(leave_aside(answer)),
                Err(why) => Err(why),
            }
        };
    let checks = |
        function: &ClassDef,
        args: &Vec<Expr>,
        shapes: &Vec<Vec<i64>>,
    | -> (r: Result<(Vec<(Expr, String)>, Vec<(Expr, String)>), String>)
        ensures
            told(r) == checks_inlined(
                unfolding_told(web_of(*w), on.deep_view(), here.deep_view().consts),
                *function,
                args.deep_view(),
                shapes.deep_view(),
                0,
            ),
        { list_checks(w, on, &here.consts, function, args, shapes, 0) };
    let undecided = |why: &str| -> (r: bool)
        ensures
            r == (web_of(*w).out.language.undecided)(why@),
        { w.out.language.do_undecided(why) };
    let walkable = |function: &ClassDef| -> (r: bool)
        ensures
            r == (walk_trouble(unfolding_told(web_of(*w), on.deep_view(), here.deep_view().consts), *function) is None),
        { can_walk(w, on, &here.consts, function) };
    let h = Reading {
        put,
        spread,
        unfold,
        pair,
        show,
        begin,
        run,
        outputs,
        checks,
        undecided,
        walkable,
        model: Ghost(reading_told(web_of(*w), on.deep_view(), *class, here.deep_view(), sizes.deep_view())),
    };
    let mut found = list_found(env.broken.len(), &built.broke);
    let acc = put_down(course);
    match flatten_equations(
        &h,
        &w.out.sums,
        w.registry,
        here,
        acc,
        class,
        &built.record_values,
        env.broken,
        &mut found,
    ) {
        Err(why) => Err(why),
        Ok(flat) => {
            assert(found.deep_view() =~= found@);
            Ok((take_up(flat), found))
        },
    }
}

/// What a check comes to once it is worked out as one value, and the checks that
/// the bodies called for it set aside.
pub open spec fn raise_told<C>(w: WebV<C>, on: FootingV, e: ExprV, here: HereV) -> Result<
    (ExprV, Checks),
    Seq<char>,
> {
    match (w.out.engine.expand)(
        e,
        Map::empty(),
        here.consts,
        here.sizes,
        here.scope,
        here.imports,
        here.records,
        0,
        on,
    ) {
        Err(why) => Err(why),
        Ok((value, more)) => match value {
            ValueV::Scalar(one) => Ok((one, more)),
            ValueV::Array(_) => Err(
                not_scalar(value, (w.out.language.begin)(first_scalar(value))),
            ),
        },
    }
}

fn raise_here<P: Parts>(w: &Web<'_, '_, P>, on: &Footing, e: &Expr, here: &Here) -> (r: Result<
    (Expr, Vec<(Expr, String)>),
    String,
>)
    requires
        outside_true(*w.out),
    ensures
        told(r) == raise_told(web_of(*w), on.deep_view(), e.deep_view(), here.deep_view()),
{
    let none: Table<Number> = Table::new();
    let (value, more) = match w.out.engine.do_expand(
        e,
        &none,
        &here.consts,
        &here.sizes,
        here.scope.as_str(),
        &here.imports,
        &here.records,
        0,
        on,
    ) {
        Ok(made) => made,
        Err(why) => return Err(why),
    };
    if let Value::Scalar(one) = value {
        return Ok((one, more));
    }
    let mut items: Vec<Expr> = Vec::new();
    value.flatten_into(&mut items);
    assert(items.deep_view() =~= scalars(value.deep_view()));
    let first: Option<&Expr> = if items.len() > 0 {
        assert(items.deep_view()[0] == items@[0].deep_view());
        Some(&items[0])
    } else {
        None
    };
    assert(first.deep_view() == first_scalar(value.deep_view()));
    let shown = w.out.language.do_begin(first);
    Err(value.complain(shown.as_str()))
}

/// What instantiating a class leans on.
pub open spec fn building_told<C>(w: WebV<C>, on: FootingV) -> BuildingV {
    BuildingV {
        put: |e: ExprV, scope: Seq<char>, imports: Pairs, shadow: Seq<Seq<char>>|
            put_told(w, on, e, scope, imports, shadow),
        measure: |class: ClassDef, consts: Worths, handed: Seq<(Seq<char>, ExprV)>|
            class_measured(
                measure_told(w, on, consts, Map::empty()),
                class,
                ""@,
                handed,
                Map::empty(),
                0,
            ),
        text: w.out.works.text,
        resolve: |e: ExprV, consts: Worths, scope: Seq<char>, imports: Pairs|
            resolve_told(w, on, e, consts, scope, imports),
        fold: w.out.works.fold,
        kept: w.out.works.kept,
        build: w.out.works.build,
        state: |
            class: ClassDef,
            env: EnvV,
            here: HereV,
            sizes: Lengths,
            built: BuiltV,
            course: CourseV,
        |
            state_told(w, class, env, here, sizes, built, course),
        raise: |e: ExprV, here: HereV| raise_told(w, on, e, here),
    }
}

/// What is the same for every class of the tree of a model.
pub open spec fn ground_told<'a, C>(w: WebV<'a, C>, on: FootingV) -> GroundV<'a> {
    GroundV {
        h: building_told(w, on),
        v: w.out.sums,
        classes: w.classes,
        minted: w.out.minted,
        twice: w.out.twice,
    }
}

/// Instantiate a class under a prefix, with everything that is handed down to
/// it: the constants of classes put in, its arrays measured, its calls worked
/// out and what it states gathered.
pub fn instantiate_here<P: Parts>(
    w: &Web<'_, '_, P>,
    class: &ClassDef,
    prefix: &str,
    env: &Env,
    course: Course,
    depth: usize,
) -> (r: Result<Course, String>)
    requires
        outside_true(*w.out),
    ensures
        told(r) == instantiated(
            ground_told(web_of(*w), marked(nowhere(), env.deep_view().mark)),
            *class,
            prefix@,
            env.deep_view(),
            course.deep_view(),
            depth as nat,
        ),
{
    let bare = stand_nowhere();
    let at = go_marked(&bare, env.mark);
    let on = &at;
    let put = |
        e: &Expr,
        scope: &str,
        imports: &Vec<(String, String)>,
        shadow: &Vec<String>,
    | -> (r: Expr)
        ensures
            r.deep_view() == put_told(
                web_of(*w),
                on.deep_view(),
                e.deep_view(),
                scope@,
                imports.deep_view(),
                texts(shadow@),
            ),
        { put_here(w, on, e, scope, imports, shadow) };
    let measure = |
        class: &ClassDef,
        consts: &Table<Number>,
        handed: &Vec<(String, Expr)>,
    | -> (r: Table<Vec<i64>>)
        ensures
            r.deep_view() == class_measured(
                measure_told(web_of(*w), on.deep_view(), consts.deep_view(), Map::empty()),
                *class,
                ""@,
                handed.deep_view(),
                Map::empty(),
                0,
            ),
        { measure_class(w, on, class, consts, handed) };
    let text = |e: &Expr, known: &Table<String>| -> (r: Option<String>)
        ensures
            r.deep_view() == (web_of(*w).out.works.text)(e.deep_view(), known.deep_view()),
        { w.out.works.do_text(e, known) };
    let resolve = |
        e: &Expr,
        consts: &Table<Number>,
        scope: &str,
        imports: &Vec<(String, String)>,
    | -> (r: (Result<Expr, String>, Vec<(Expr, String)>))
        ensures
            (told(r.0), r.1.deep_view()) == resolve_told(
                web_of(*w),
                on.deep_view(),
                e.deep_view(),
                consts.deep_view(),
                scope@,
                imports.deep_view(),
            ),
        { resolve_here(w, on, e, consts, scope, imports) };
    let fold = |
        e: &Expr,
        known: &Table<String>,
        consts: &Table<Number>,
    | -> (r: Result<Expr, String>)
        ensures
            told(
                r,
            ) == (web_of(*w).out.works.fold)(e.deep_view(), known.deep_view(), consts.deep_view()),
        { w.out.works.do_fold(e, known, consts) };
    let kept = |class: &ClassDef, imports: &Vec<(String, String)>| -> (r: Option<String>)
        ensures
            r.deep_view() == (web_of(*w).out.works.kept)(*class, imports.deep_view()),
        { w.out.works.do_kept(class, imports) };
    let build = |
        class: &ClassDef,
        env: &Env,
        floor: &Floor,
        course: Course,
        built: Built,
    | -> (r: Result<(Course, Built), String>)
        ensures
            told(
                r,
            ) == (web_of(*w).out.works.build)(*class, env.deep_view(), floor.deep_view(), course.deep_view(), built.deep_view()),
        { w.out.works.do_build(class, env, floor, course, built) };
    let state = |
        class: &ClassDef,
        env: &Env,
        here: &Here,
        sizes: &Table<Vec<i64>>,
        built: &Built,
        course: Course,
    | -> (r: Result<(Course, Vec<bool>), String>)
        ensures
            told(r) == state_told(
                web_of(*w),
                *class,
                env.deep_view(),
                here.deep_view(),
                sizes.deep_view(),
                built.deep_view(),
                course.deep_view(),
            ),
        { state_here(w, class, env, here, sizes, built, course) };
    let raise = |e: &Expr, here: &Here| -> (r: Result<(Expr, Vec<(Expr, String)>), String>)
        ensures
            told(r) == raise_told(web_of(*w), on.deep_view(), e.deep_view(), here.deep_view()),
        { raise_here(w, on, e, here) };
    let h = Building {
        put,
        measure,
        text,
        resolve,
        fold,
        kept,
        build,
        state,
        raise,
        model: Ghost(building_told(web_of(*w), on.deep_view())),
    };
    let q = Ground { registry: w.registry, minted: &w.out.minted, twice: w.out.twice };
    instantiate(&h, &w.out.sums, &q, class, prefix, env, course, depth)
}

/// What was gathered so far, as a course to go on with.
pub open spec fn course_from(acc: FlatV) -> CourseV {
    CourseV {
        flat: FlatV { rest: nothing_remembered(), ..acc },
        instances: acc.rest.instances,
        checked: acc.rest.checked,
        extended: acc.rest.extended,
        numbers: acc.rest.numbers,
        filled: acc.rest.filled,
        given: acc.rest.given,
        aside: acc.rest.aside,
    }
}

fn take_up(acc: Flat) -> (r: Course)
    ensures
        r.deep_view() == course_from(acc.deep_view()),
{
    let mut flat = acc;
    let ghost before = flat.deep_view();
    let Rest { instances, checked, extended, numbers, filled, given, aside } = flat.rest;
    flat.rest = Rest::new();
    assert(flat.deep_view() == (FlatV { rest: nothing_remembered(), ..before }));
    Course { flat, instances, checked, extended, numbers, filled, given, aside }
}

/// What a course gathered, with what it remembers beside it.
pub open spec fn gathered_on(c: CourseV) -> FlatV {
    FlatV {
        rest: RestV {
            instances: c.instances,
            checked: c.checked,
            extended: c.extended,
            numbers: c.numbers,
            filled: c.filled,
            given: c.given,
            aside: c.aside,
        },
        ..c.flat
    }
}

fn put_down(course: Course) -> (r: Flat)
    ensures
        r.deep_view() == gathered_on(course.deep_view()),
{
    let Course { flat, instances, checked, extended, numbers, filled, given, aside } = course;
    let mut out = flat;
    let ghost before = out.deep_view();
    out.rest = Rest { instances, checked, extended, numbers, filled, given, aside };
    assert(out.deep_view() == (FlatV { rest: out.rest.deep_view(), ..before }));
    out
}

/// What is handed down to a class that stands in nothing: nothing.
pub open spec fn nothing_handed() -> EnvV {
    EnvV {
        overrides: Seq::empty(),
        handed_shapes: Map::empty(),
        outer_sizes: Map::empty(),
        redeclares: Seq::empty(),
        inners: Seq::empty(),
        broken: Seq::empty(),
        inside_a_parameter: false,
        mark: None,
    }
}

/// Whether the class of every connector is one that is known.
pub open spec fn connectors_known(
    classes: Seq<&ClassDef>,
    connectors: Seq<(Seq<char>, Seq<char>)>,
) -> bool {
    forall|i: int|
        0 <= i < connectors.len() ==> class_named(classes, (#[trigger] connectors[i]).1) is Some
}

fn are_connectors_known(registry: &Registry, connectors: &Table<String>) -> (r: bool)
    ensures
        r == connectors_known(registry@, connectors.entries.deep_view()),
{
    let ghost all = connectors.entries.deep_view();
    let mut i: usize = 0;
    while i < connectors.entries.len()
        invariant
            i <= connectors.entries.len(),
            all == connectors.entries.deep_view(),
            forall|k: int|
                0 <= k < i ==> class_named(registry@, (#[trigger] all[k]).1) is Some,
        decreases connectors.entries.len() - i,
    {
        assert(all[i as int] == connectors.entries@[i as int].deep_view());
        if find_class(registry, connectors.entries[i].1.as_str()).is_none() {
            assert(class_named(registry@, all[i as int].1) is None);
            return false;
        }
        i = i + 1;
    }
    assert(all.len() == connectors.entries@.len());
    true
}

proof fn lemma_connectors_known(
    classes: Seq<&ClassDef>,
    connectors: Seq<(Seq<char>, Seq<char>)>,
)
    requires
        connectors_known(classes, connectors),
    ensures
        all_known(classes, entered(connectors)),
    decreases connectors.len(),
{
    if connectors.len() > 0 {
        let before = connectors.drop_last();
        assert forall|i: int| 0 <= i < before.len() implies class_named(
            classes,
            (#[trigger] before[i]).1,
        ) is Some by {
            assert(before[i] == connectors[i]);
        }
        lemma_connectors_known(classes, before);
        assert(class_named(classes, connectors.last().1) is Some);
    }
}

/// What a class comes to built under a path that nothing stands around.
pub open spec fn tree_built<C>(w: WebV<C>, class: ClassDef, path: Seq<char>, acc: FlatV) -> Result<
    FlatV,
    Seq<char>,
> {
    match instantiated(
        ground_told(w, nowhere()),
        class,
        path,
        nothing_handed(),
        course_from(acc),
        0,
    ) {
        Err(why) => Err(why),
        Ok(course) => if connectors_known(w.classes, course.flat.connectors) {
            Ok(gathered_on(course))
        } else {
            Err("a connector is of a class that is not known"@)
        },
    }
}

/// Build a class under a path that nothing stands around.
pub fn build_tree<P: Parts>(
    w: &Web<'_, '_, P>,
    class: &ClassDef,
    path: &str,
    acc: Flat,
) -> (r: Result<Flat, String>)
    requires
        outside_true(*w.out),
    ensures
        told(r) == tree_built(web_of(*w), *class, path@, acc.deep_view()),
        r matches Ok(made) ==> all_known(w.registry@, made.connectors.deep_view()),
{
    let overrides: Vec<(String, Expr)> = Vec::new();
    let handed_shapes: Table<Vec<i64>> = Table::new();
    let outer_sizes: Table<Vec<i64>> = Table::new();
    let redeclares: Vec<Redeclare> = Vec::new();
    let inners: Vec<(String, InnerInstance)> = Vec::new();
    let broken: Vec<Deselect> = Vec::new();
    let mark: Option<String> = None;
    let env = Env {
        overrides: &overrides,
        handed_shapes: &handed_shapes,
        outer_sizes: &outer_sizes,
        redeclares: &redeclares,
        inners: &inners,
        broken: &broken,
        inside_a_parameter: false,
        mark: &mark,
    };
    assert(overrides.deep_view() =~= Seq::empty());
    assert(redeclares.deep_view() =~= Seq::empty());
    assert(inners.deep_view() =~= Seq::empty());
    assert(broken@ =~= Seq::empty());
    assert(env.deep_view() == nothing_handed());
    assert(marked(nowhere(), None) == nowhere());
    let course = match instantiate_here(w, class, path, &env, take_up(acc), 0) {
        Ok(course) => course,
        Err(why) => return Err(why),
    };
    if !are_connectors_known(w.registry, &course.flat.connectors) {
        return Err("a connector is of a class that is not known".to_owned());
    }
    proof {
        lemma_connectors_known(w.registry@, course.flat.connectors.entries.deep_view());
    }
    Ok(put_down(course))
}

}
