//! Function bodies and the constants of classes, each worked out with the help of
//! the other: a constant may call a function, a body may name a constant, and a
//! length in a body may be either.
use crate::bodies::{
    body_worked, worked_body, Answer, AnswerV, Asking, BodyV, Bound, Walked, Walking, WalkingV,
};
use crate::calls::{carried_for, is_body_of, is_carried_along, model_wants, programs_used, Program};
use crate::class::{copied_text, ClassDef, Component, ComponentV, Statement};
use crate::constants::{
    substitute_class_constants, substituted, Inliner, InlinerV, Knowing, KnowingV,
};
use crate::expr::{told, Expr, ExprV};
use crate::flat::{Carried, Model, ModelV};
use crate::folding::Worths;
use crate::inlining::{
    body_written_elsewhere, call_inlined, checks_inlined, inline_function, inline_function_checks,
    inline_function_outputs, outputs_inlined, stand, standing, walk_trouble, walkable,
    written_elsewhere, Inlined, InlinedV, Inlining, InliningV, Unfolding, UnfoldingV,
};
use crate::instantiate::ROUNDS;
use crate::lookup::{Pairs, Registry};
use crate::number::Number;
use crate::outside::{outside_of, outside_true, Footing, FootingV, Outside, OutsideV, Parts};
use crate::records::{
    fields_of, input_fields, input_record, record_fields_of, record_input_fields,
    scalar_record_fields, shaped_among, shaped_record_fields, single_among,
};
use crate::resolving::{sketch, sketched};
use crate::shapes::{
    class_measured, collect_shapes, collect_shapes_given, Gauge, GaugeV, Lengths, Measure, MeasureV,
};
use crate::table::Table;
use crate::text::texts;
use crate::value::Value;
use vstd::prelude::*;

verus! {

/// Everything that is the same for the whole of a model: what is handed in, and
/// the classes in view.
pub struct Web<'w, 'a, P: Parts> {
    pub out: &'w Outside<P>,
    pub registry: &'w Registry<'a>,
}

#[verifier::reject_recursive_types(C)]
pub ghost struct WebV<'a, C> {
    pub out: OutsideV<C>,
    pub classes: Seq<&'a ClassDef>,
}

pub open spec fn web_of<'w, 'a, P: Parts>(w: Web<'w, 'a, P>) -> WebV<'a, P::Clocks> {
    WebV { out: outside_of(*w.out), classes: w.registry@ }
}

/// How many more bodies deep an asking may go.
pub open spec fn room<C>(w: WebV<C>, on: FootingV) -> nat {
    if on.nested > w.out.most {
        0
    } else {
        (w.out.most + 1 - on.nested) as nat
    }
}

/// The footing one body deeper.
pub open spec fn one_in(on: FootingV) -> FootingV {
    FootingV { nested: on.nested + 1, ..on }
}

fn go_in(on: &Footing) -> (r: Footing)
    requires
        on.nested < usize::MAX,
    ensures
        r.deep_view() == one_in(on.deep_view()),
{
    Footing { mark: copied_text(&on.mark), nested: on.nested + 1, settling: on.settling }
}

/// The footing of a length: a number is the whole of what is wanted.
pub open spec fn for_a_length(on: FootingV) -> FootingV {
    FootingV { settling: true, ..on }
}

fn go_for_a_length(on: &Footing) -> (r: Footing)
    ensures
        r.deep_view() == for_a_length(on.deep_view()),
{
    Footing { mark: copied_text(&on.mark), nested: on.nested, settling: true }
}

/// What a call comes to on a footing: left standing where it is too deep, and
/// its body worked out one deeper where it is not.
pub open spec fn inlined_told<C>(
    w: WebV<C>,
    on: FootingV,
    consts: Worths,
    class: ClassDef,
    args: Seq<ExprV>,
    shapes: Seq<Seq<i64>>,
    depth: usize,
) -> Result<InlinedV, Seq<char>>
    decreases room(w, on), 1int,
{
    if on.nested > w.out.most {
        Ok(standing(class, args))
    } else {
        call_inlined(
            unfolding_told(w, one_in(on), consts),
            class,
            args,
            shapes,
            depth,
            on.nested,
        )
    }
}

/// What a call among the constants of a class comes to, where it comes to
/// anything: nothing is known there of how long its arguments are. Only the value
/// is kept; what the body checks of constants alone is not carried on.
pub open spec fn constant_call_told<C>(
    w: WebV<C>,
    on: FootingV,
    class: ClassDef,
    args: Seq<ExprV>,
    depth: usize,
) -> Option<ExprV>
    decreases room(w, on), 2int,
{
    match inlined_told(
        w,
        on,
        Map::empty(),
        class,
        args,
        Seq::new(args.len(), |i: int| Seq::empty()),
        depth,
    ) {
        Ok(made) => Some(made.value),
        Err(_) => None,
    }
}

pub open spec fn knowing_told<'a, C>(w: WebV<'a, C>, on: FootingV) -> KnowingV<'a>
    decreases room(w, on), 3int,
{
    KnowingV {
        h: InlinerV {
            inline: |class: ClassDef, args: Seq<ExprV>, depth: usize|
                constant_call_told(w, on, class, args, depth),
        },
        v: w.out.sums,
        classes: w.classes,
        mark: on.mark,
        settling: on.settling,
    }
}

/// An expression with the constants of classes put in.
pub open spec fn put_told<C>(
    w: WebV<C>,
    on: FootingV,
    e: ExprV,
    scope: Seq<char>,
    imports: Pairs,
    shadow: Seq<Seq<char>>,
) -> ExprV
    decreases room(w, on), 4int,
{
    substituted(knowing_told(w, on), e, scope, imports, shadow, 0, false)
}

pub open spec fn gauge_told<C>(w: WebV<C>, on: FootingV) -> GaugeV
    decreases room(w, on), 5int,
{
    GaugeV {
        put: |e: ExprV, scope: Seq<char>, imports: Pairs|
            put_told(w, for_a_length(on), e, scope, imports, Seq::empty()),
        filed: w.out.engine.filed,
        built: |e: ExprV, consts: Worths, sizes: Lengths, scope: Seq<char>, imports: Pairs|
            (w.out.engine.built)(e, consts, sizes, scope, imports, on),
    }
}

/// What a class is measured with, with the numbers in view and those a call
/// decided.
pub open spec fn measure_told<'a, C>(
    w: WebV<'a, C>,
    on: FootingV,
    consts: Worths,
    given: Worths,
) -> MeasureV<'a>
    decreases room(w, on), 6int,
{
    MeasureV { h: gauge_told(w, on), v: w.out.sums, classes: w.classes, consts, given }
}

/// What a body that is not written here is answered with: no body is worked out
/// on the way.
pub open spec fn elsewhere_told<'a, C>(w: WebV<'a, C>, on: FootingV) -> UnfoldingV<'a>
    decreases room(w, on), 6int,
{
    UnfoldingV {
        h: InliningV {
            body: |class: ClassDef, args: Seq<ExprV>, shapes: Seq<Seq<i64>>, depth: usize|
                Err(w.out.no_bottom),
            put: |e: ExprV, scope: Seq<char>, imports: Pairs|
                put_told(w, on, e, scope, imports, Seq::empty()),
            recursive: w.out.language.recursive,
            unbounded: w.out.language.unbounded,
            endless: w.out.language.endless,
            leaves: w.out.language.leaves,
            sketch: |e: ExprV| sketched((w.out.language.show)(e)),
            outside: w.out.language.answers,
            written: w.out.language.written,
            again: |class: ClassDef, args: Seq<ExprV>, shapes: Seq<Seq<i64>>, depth: usize|
                Ok(standing(class, args)),
        },
        v: w.out.sums,
        classes: w.classes,
        most: w.out.most,
        settling: on.settling,
    }
}

pub open spec fn walking_told<C>(w: WebV<C>, on: FootingV) -> WalkingV
    decreases room(w, on), 7int,
{
    WalkingV {
        put: |class: ClassDef, e: ExprV|
            put_told(w, on, e, class.name@, class.imports.deep_view(), Seq::empty()),
        filled: w.out.engine.filled,
        measure: |class: ClassDef, consts: Worths, given: Worths, sizes: Lengths|
            class_measured(
                measure_told(w, on, consts, given),
                class,
                ""@,
                Seq::empty(),
                sizes,
                0,
            ),
        settle: |
            class: ClassDef,
            e: ExprV,
            bound: Bound,
            numbers: Worths,
            sizes: Lengths,
            depth: usize,
        |
            (w.out.engine.settle)(class, e, bound, numbers, sizes, depth, on),
        spread: |class: ClassDef, e: ExprV, consts: Worths, sizes: Lengths, depth: usize|
            (w.out.engine.expand)(
                e,
                Map::empty(),
                consts,
                sizes,
                class.name@,
                class.imports.deep_view(),
                Map::empty(),
                depth,
                on,
            ),
        walk: |
            class: ClassDef,
            list: Seq<Statement>,
            bound: Bound,
            consts: Worths,
            sizes: Lengths,
            depth: usize,
        |
            (w.out.engine.walk)(class, list, bound, consts, sizes, depth, on),
        fields: |class: ClassDef, input: ComponentV| input_fields(w.classes, class, input, on.mark),
        single: |class: ClassDef, input: ComponentV| {
            let list = input_record(w.classes, class, input);
            single_among(list, list.len())
        },
        shaped: |class: ClassDef, input: ComponentV| {
            let list = input_record(w.classes, class, input);
            shaped_among(list, w.out.sums, list.len())
        },
        held: |record: ClassDef| fields_of(w.classes, record, 0),
        elsewhere: |class: ClassDef, args: Seq<ExprV>, shapes: Seq<Seq<i64>>, consts: Worths|
            written_elsewhere(elsewhere_told(w, on), class, args, shapes, consts),
    }
}

/// What the body of a function comes to.
pub open spec fn body_told<C>(
    w: WebV<C>,
    on: FootingV,
    consts: Worths,
    class: ClassDef,
    args: Seq<ExprV>,
    shapes: Seq<Seq<i64>>,
    depth: usize,
) -> Result<AnswerV, Seq<char>>
    decreases room(w, on), 8int,
{
    body_worked(
        BodyV {
            h: walking_told(w, on),
            v: w.out.sums,
            classes: w.classes,
            class,
            mark: on.mark,
            consts,
            landed: (w.out.engine.landed)(class),
            depth,
        },
        args,
        shapes,
        w.out.no_bottom,
    )
}

pub open spec fn inlining_told<C>(w: WebV<C>, on: FootingV, consts: Worths) -> InliningV
    decreases room(w, on), 9int,
{
    InliningV {
        body: |class: ClassDef, args: Seq<ExprV>, shapes: Seq<Seq<i64>>, depth: usize|
            body_told(w, on, consts, class, args, shapes, depth),
        put: |e: ExprV, scope: Seq<char>, imports: Pairs|
            put_told(w, on, e, scope, imports, Seq::empty()),
        recursive: w.out.language.recursive,
        unbounded: w.out.language.unbounded,
        endless: w.out.language.endless,
        leaves: w.out.language.leaves,
        sketch: |e: ExprV| sketched((w.out.language.show)(e)),
        outside: w.out.language.answers,
        written: w.out.language.written,
        again: |class: ClassDef, args: Seq<ExprV>, shapes: Seq<Seq<i64>>, depth: usize|
            inlined_told(w, on, consts, class, args, shapes, depth),
    }
}

/// What calls are worked out with on a footing.
pub open spec fn unfolding_told<'a, C>(
    w: WebV<'a, C>,
    on: FootingV,
    consts: Worths,
) -> UnfoldingV<'a>
    decreases room(w, on), 10int,
{
    UnfoldingV {
        h: inlining_told(w, on, consts),
        v: w.out.sums,
        classes: w.classes,
        most: w.out.most,
        settling: on.settling,
    }
}

fn show_briefly<P: Parts>(w: &Web<'_, '_, P>, e: &Expr) -> (r: String)
    requires
        outside_true(*w.out),
    ensures
        r@ == sketched((web_of(*w).out.language.show)(e.deep_view())),
{
    let text = w.out.language.do_show(e);
    sketch(text.as_str())
}

/// Inline a call on a footing.
pub fn inline_here<P: Parts>(
    w: &Web<'_, '_, P>,
    on: &Footing,
    consts: &Table<Number>,
    class: &ClassDef,
    args: &Vec<Expr>,
    shapes: &Vec<Vec<i64>>,
    depth: usize,
) -> (r: Result<Inlined, String>)
    requires
        outside_true(*w.out),
    ensures
        told(r) == inlined_told(
            web_of(*w),
            on.deep_view(),
            consts.deep_view(),
            *class,
            args.deep_view(),
            shapes.deep_view(),
            depth,
        ),
    decreases room(web_of(*w), on.deep_view()), 1int,
{
    if on.nested > w.out.most {
        return Ok(stand(class, args));
    }
    let inner = go_in(on);
    let at = &inner;
    let body = |
        class: &ClassDef,
        args: &Vec<Expr>,
        shapes: &Vec<Vec<i64>>,
        depth: usize,
    | -> (r: Result<Answer, String>)
        ensures
            told(r) == body_told(
                web_of(*w),
                at.deep_view(),
                consts.deep_view(),
                *class,
                args.deep_view(),
                shapes.deep_view(),
                depth,
            ),
        { work_body(w, at, consts, class, args, shapes, depth) };
    let put = |e: &Expr, scope: &str, imports: &Vec<(String, String)>| -> (r: Expr)
        ensures
            r.deep_view() == put_told(
                web_of(*w),
                at.deep_view(),
                e.deep_view(),
                scope@,
                imports.deep_view(),
                Seq::empty(),
            ),
        { put_plainly(w, at, e, scope, imports) };
    let recursive = |class: &ClassDef| -> (r: bool)
        ensures
            r == (web_of(*w).out.language.recursive)(*class),
        { w.out.language.do_recursive(class) };
    let unbounded = |e: &Expr| -> (r: bool)
        ensures
            r == (web_of(*w).out.language.unbounded)(e.deep_view()),
        { w.out.language.do_unbounded(e) };
    let endless = |why: &str| -> (r: bool)
        ensures
            r == (web_of(*w).out.language.endless)(why@),
        { w.out.language.do_endless(why) };
    let leaves = |why: &str| -> (r: bool)
        ensures
            r == (web_of(*w).out.language.leaves)(why@),
        { w.out.language.do_leaves(why) };
    let brief = |e: &Expr| -> (r: String)
        ensures
            r@ == sketched((web_of(*w).out.language.show)(e.deep_view())),
        { show_briefly(w, e) };
    let answers = |called: &str, handed: &Vec<u64>| -> (r: Option<u64>)
        ensures
            r == (web_of(*w).out.language.answers)(called@, handed@),
        { w.out.language.do_answers(called, handed) };
    let written = |called: &str| -> (r: bool)
        ensures
            r == (web_of(*w).out.language.written)(called@),
        { w.out.language.do_written(called) };
    let again = |
        class: &ClassDef,
        args: &Vec<Expr>,
        shapes: &Vec<Vec<i64>>,
        depth: usize,
    | -> (r: Result<Inlined, String>)
        ensures
            told(r) == inlined_told(
                web_of(*w),
                at.deep_view(),
                consts.deep_view(),
                *class,
                args.deep_view(),
                shapes.deep_view(),
                depth,
            ),
        { inline_here(w, at, consts, class, args, shapes, depth) };
    let h = Inlining {
        body,
        put,
        recursive,
        unbounded,
        endless,
        leaves,
        sketch: brief,
        outside: answers,
        written,
        again,
        model: Ghost(inlining_told(web_of(*w), at.deep_view(), consts.deep_view())),
    };
    let q = Unfolding { registry: w.registry, most: w.out.most, settling: at.settling };
    inline_function(&h, &w.out.sums, &q, class, args, shapes, depth, on.nested)
}

fn call_plainly<P: Parts>(
    w: &Web<'_, '_, P>,
    on: &Footing,
    class: &ClassDef,
    args: &Vec<Expr>,
    depth: usize,
) -> (r: Option<Expr>)
    requires
        outside_true(*w.out),
    ensures
        r.deep_view() == constant_call_told(
            web_of(*w),
            on.deep_view(),
            *class,
            args.deep_view(),
            depth,
        ),
    decreases room(web_of(*w), on.deep_view()), 2int,
{
    let consts: Table<Number> = Table::new();
    let shapes = make_bare_shapes(args.len());
    assert(args.deep_view().len() == args@.len());
    match inline_here(w, on, &consts, class, args, &shapes, depth) {
        Ok(made) => Some(made.value),
        Err(_) => None,
    }
}

/// As many shapes as there are arguments, with nothing known of any.
fn make_bare_shapes(n: usize) -> (r: Vec<Vec<i64>>)
    ensures
        r.deep_view() == Seq::new(n as nat, |i: int| Seq::<i64>::empty()),
{
    let mut out: Vec<Vec<i64>> = Vec::new();
    let mut i: usize = 0;
    while i < n
        invariant
            i <= n,
            out.deep_view() == Seq::new(i as nat, |i: int| Seq::<i64>::empty()),
        decreases n - i,
    {
        let ghost before = out.deep_view();
        let none: Vec<i64> = Vec::new();
        assert(none.deep_view() =~= Seq::empty());
        out.push(none);
        assert(out.deep_view() =~= before.push(Seq::empty()));
        assert(out.deep_view() =~= Seq::new((i + 1) as nat, |i: int| Seq::<i64>::empty()));
        i = i + 1;
    }
    out
}

/// Put the constants of classes into an expression.
pub fn put_here<P: Parts>(
    w: &Web<'_, '_, P>,
    on: &Footing,
    e: &Expr,
    scope: &str,
    imports: &Vec<(String, String)>,
    shadow: &Vec<String>,
) -> (r: Expr)
    requires
        outside_true(*w.out),
    ensures
        r.deep_view() == put_told(
            web_of(*w),
            on.deep_view(),
            e.deep_view(),
            scope@,
            imports.deep_view(),
            texts(shadow@),
        ),
    decreases room(web_of(*w), on.deep_view()), 3int,
{
    let inline = |class: &ClassDef, args: &Vec<Expr>, depth: usize| -> (r: Option<Expr>)
        ensures
            r.deep_view() == constant_call_told(
                web_of(*w),
                on.deep_view(),
                *class,
                args.deep_view(),
                depth,
            ),
        { call_plainly(w, on, class, args, depth) };
    let h = Inliner { inline, model: Ghost(knowing_told(web_of(*w), on.deep_view()).h) };
    let q = Knowing { registry: w.registry, mark: &on.mark, settling: on.settling };
    substitute_class_constants(&h, &w.out.sums, &q, e, scope, imports, shadow)
}

fn put_plainly<P: Parts>(
    w: &Web<'_, '_, P>,
    on: &Footing,
    e: &Expr,
    scope: &str,
    imports: &Vec<(String, String)>,
) -> (r: Expr)
    requires
        outside_true(*w.out),
    ensures
        r.deep_view() == put_told(
            web_of(*w),
            on.deep_view(),
            e.deep_view(),
            scope@,
            imports.deep_view(),
            Seq::empty(),
        ),
    decreases room(web_of(*w), on.deep_view()), 4int,
{
    let none: Vec<String> = Vec::new();
    assert(texts(none@) =~= Seq::empty());
    put_here(w, on, e, scope, imports, &none)
}

/// The lengths of the arrays of a body, beside those its arguments have.
pub fn measure_body<P: Parts>(
    w: &Web<'_, '_, P>,
    on: &Footing,
    class: &ClassDef,
    consts: &Table<Number>,
    given: &Table<Number>,
    sizes: Table<Vec<i64>>,
) -> (r: Table<Vec<i64>>)
    requires
        outside_true(*w.out),
    ensures
        r.deep_view() == class_measured(
            measure_told(web_of(*w), on.deep_view(), consts.deep_view(), given.deep_view()),
            *class,
            ""@,
            Seq::empty(),
            sizes.deep_view(),
            0,
        ),
    decreases room(web_of(*w), on.deep_view()), 5int,
{
    let bare = go_for_a_length(on);
    let put = |e: &Expr, scope: &str, imports: &Vec<(String, String)>| -> (r: Expr)
        ensures
            r.deep_view() == put_told(
                web_of(*w),
                for_a_length(on.deep_view()),
                e.deep_view(),
                scope@,
                imports.deep_view(),
                Seq::empty(),
            ),
        { put_plainly(w, &bare, e, scope, imports) };
    let filed = |e: &Expr, axis: usize, handed: &Vec<(String, Expr)>| -> (r: Option<i64>)
        ensures
            r == (web_of(*w).out.engine.filed)(e.deep_view(), axis, handed.deep_view()),
        { w.out.engine.do_filed(e, axis, handed) };
    let built = |
        e: &Expr,
        consts: &Table<Number>,
        sizes: &Table<Vec<i64>>,
        scope: &str,
        imports: &Vec<(String, String)>,
    | -> (r: Option<Vec<i64>>)
        ensures
            r.deep_view() == (web_of(*w).out.engine.built)(e.deep_view(), consts.deep_view(), sizes.deep_view(), scope@, imports.deep_view(), on.deep_view()),
        { w.out.engine.do_built(e, consts, sizes, scope, imports, on) };
    let h = Gauge { put, filed, built, model: Ghost(gauge_told(web_of(*w), on.deep_view())) };
    let q = Measure { registry: w.registry, consts, given };
    let mut out = sizes;
    collect_shapes(&h, &w.out.sums, &q, class, &mut out, 0);
    out
}

/// The lengths of the arrays of a class, told what the class was handed.
pub fn measure_class<P: Parts>(
    w: &Web<'_, '_, P>,
    on: &Footing,
    class: &ClassDef,
    consts: &Table<Number>,
    handed: &Vec<(String, Expr)>,
) -> (r: Table<Vec<i64>>)
    requires
        outside_true(*w.out),
    ensures
        r.deep_view() == class_measured(
            measure_told(web_of(*w), on.deep_view(), consts.deep_view(), Map::empty()),
            *class,
            ""@,
            handed.deep_view(),
            Map::empty(),
            0,
        ),
    decreases room(web_of(*w), on.deep_view()), 5int,
{
    let bare = go_for_a_length(on);
    let put = |e: &Expr, scope: &str, imports: &Vec<(String, String)>| -> (r: Expr)
        ensures
            r.deep_view() == put_told(
                web_of(*w),
                for_a_length(on.deep_view()),
                e.deep_view(),
                scope@,
                imports.deep_view(),
                Seq::empty(),
            ),
        { put_plainly(w, &bare, e, scope, imports) };
    let filed = |e: &Expr, axis: usize, handed: &Vec<(String, Expr)>| -> (r: Option<i64>)
        ensures
            r == (web_of(*w).out.engine.filed)(e.deep_view(), axis, handed.deep_view()),
        { w.out.engine.do_filed(e, axis, handed) };
    let built = |
        e: &Expr,
        consts: &Table<Number>,
        sizes: &Table<Vec<i64>>,
        scope: &str,
        imports: &Vec<(String, String)>,
    | -> (r: Option<Vec<i64>>)
        ensures
            r.deep_view() == (web_of(*w).out.engine.built)(e.deep_view(), consts.deep_view(), sizes.deep_view(), scope@, imports.deep_view(), on.deep_view()),
        { w.out.engine.do_built(e, consts, sizes, scope, imports, on) };
    let h = Gauge { put, filed, built, model: Ghost(gauge_told(web_of(*w), on.deep_view())) };
    let given: Table<Number> = Table::new();
    let q = Measure { registry: w.registry, consts, given: &given };
    let mut out: Table<Vec<i64>> = Table::new();
    collect_shapes_given(&h, &w.out.sums, &q, class, handed, &mut out, 0);
    out
}

/// What a body that is not written here answers with.
pub fn answer_elsewhere<P: Parts>(
    w: &Web<'_, '_, P>,
    on: &Footing,
    class: &ClassDef,
    args: &Vec<Expr>,
    shapes: &Vec<Vec<i64>>,
    consts: &Table<Number>,
) -> (r: Result<Option<Vec<(String, Expr)>>, String>)
    requires
        outside_true(*w.out),
    ensures
        told(r) == written_elsewhere(
            elsewhere_told(web_of(*w), on.deep_view()),
            *class,
            args.deep_view(),
            shapes.deep_view(),
            consts.deep_view(),
        ),
    decreases room(web_of(*w), on.deep_view()), 5int,
{
    let body = |
        class: &ClassDef,
        args: &Vec<Expr>,
        shapes: &Vec<Vec<i64>>,
        depth: usize,
    | -> (r: Result<Answer, String>)
        ensures
            told(r) == Err::<AnswerV, Seq<char>>(web_of(*w).out.no_bottom),
        { Err(w.out.no_bottom.clone()) };
    let put = |e: &Expr, scope: &str, imports: &Vec<(String, String)>| -> (r: Expr)
        ensures
            r.deep_view() == put_told(
                web_of(*w),
                on.deep_view(),
                e.deep_view(),
                scope@,
                imports.deep_view(),
                Seq::empty(),
            ),
        { put_plainly(w, on, e, scope, imports) };
    let recursive = |class: &ClassDef| -> (r: bool)
        ensures
            r == (web_of(*w).out.language.recursive)(*class),
        { w.out.language.do_recursive(class) };
    let unbounded = |e: &Expr| -> (r: bool)
        ensures
            r == (web_of(*w).out.language.unbounded)(e.deep_view()),
        { w.out.language.do_unbounded(e) };
    let endless = |why: &str| -> (r: bool)
        ensures
            r == (web_of(*w).out.language.endless)(why@),
        { w.out.language.do_endless(why) };
    let leaves = |why: &str| -> (r: bool)
        ensures
            r == (web_of(*w).out.language.leaves)(why@),
        { w.out.language.do_leaves(why) };
    let brief = |e: &Expr| -> (r: String)
        ensures
            r@ == sketched((web_of(*w).out.language.show)(e.deep_view())),
        { show_briefly(w, e) };
    let answers = |called: &str, handed: &Vec<u64>| -> (r: Option<u64>)
        ensures
            r == (web_of(*w).out.language.answers)(called@, handed@),
        { w.out.language.do_answers(called, handed) };
    let written = |called: &str| -> (r: bool)
        ensures
            r == (web_of(*w).out.language.written)(called@),
        { w.out.language.do_written(called) };
    let again = |
        class: &ClassDef,
        args: &Vec<Expr>,
        shapes: &Vec<Vec<i64>>,
        depth: usize,
    | -> (r: Result<Inlined, String>)
        ensures
            told(r) == Ok::<InlinedV, Seq<char>>(standing(*class, args.deep_view())),
        { Ok(stand(class, args)) };
    let h = Inlining {
        body,
        put,
        recursive,
        unbounded,
        endless,
        leaves,
        sketch: brief,
        outside: answers,
        written,
        again,
        model: Ghost(elsewhere_told(web_of(*w), on.deep_view()).h),
    };
    let q = Unfolding { registry: w.registry, most: w.out.most, settling: on.settling };
    body_written_elsewhere(&h, &w.out.sums, &q, class, args, shapes, consts)
}

/// Work out the body of a function on a footing.
pub fn work_body<P: Parts>(
    w: &Web<'_, '_, P>,
    on: &Footing,
    consts: &Table<Number>,
    class: &ClassDef,
    args: &Vec<Expr>,
    shapes: &Vec<Vec<i64>>,
    depth: usize,
) -> (r: Result<Answer, String>)
    requires
        outside_true(*w.out),
    ensures
        told(r) == body_told(
            web_of(*w),
            on.deep_view(),
            consts.deep_view(),
            *class,
            args.deep_view(),
            shapes.deep_view(),
            depth,
        ),
    decreases room(web_of(*w), on.deep_view()), 6int,
{
    let put = |class: &ClassDef, e: &Expr| -> (r: Expr)
        ensures
            r.deep_view() == put_told(
                web_of(*w),
                on.deep_view(),
                e.deep_view(),
                class.name@,
                class.imports.deep_view(),
                Seq::empty(),
            ),
        { put_plainly(w, on, e, class.name.as_str(), &class.imports) };
    let filled = |class: &ClassDef, name: &str| -> (r: Option<Expr>)
        ensures
            r.deep_view() == (web_of(*w).out.engine.filled)(*class, name@),
        { w.out.engine.do_filled(class, name) };
    let measure = |
        class: &ClassDef,
        consts: &Table<Number>,
        given: &Table<Number>,
        sizes: Table<Vec<i64>>,
    | -> (r: Table<Vec<i64>>)
        ensures
            r.deep_view() == class_measured(
                measure_told(web_of(*w), on.deep_view(), consts.deep_view(), given.deep_view()),
                *class,
                ""@,
                Seq::empty(),
                sizes.deep_view(),
                0,
            ),
        { measure_body(w, on, class, consts, given, sizes) };
    let settle = |
        class: &ClassDef,
        e: &Expr,
        bindings: &Table<Expr>,
        numbers: &Table<Number>,
        sizes: &Table<Vec<i64>>,
        depth: usize,
    | -> (r: Option<Number>)
        ensures
            r == (web_of(*w).out.engine.settle)(*class, e.deep_view(), bindings.deep_view(), numbers.deep_view(), sizes.deep_view(), depth, on.deep_view()),
        { w.out.engine.do_settle(class, e, bindings, numbers, sizes, depth, on) };
    let spread = |
        class: &ClassDef,
        e: &Expr,
        consts: &Table<Number>,
        sizes: &Table<Vec<i64>>,
        depth: usize,
    | -> (r: Result<(Value, Vec<(Expr, String)>), String>)
        ensures
            told(
                r,
            ) == (web_of(*w).out.engine.expand)(e.deep_view(), Map::empty(), consts.deep_view(), sizes.deep_view(), class.name@, class.imports.deep_view(), Map::empty(), depth, on.deep_view()),
        {
            let vars: Table<Number> = Table::new();
            let records: Table<String> = Table::new();
            w.out.engine.do_expand(
                e,
                &vars,
                consts,
                sizes,
                class.name.as_str(),
                &class.imports,
                &records,
                depth,
                on,
            )
        };
    let walk = |
        class: &ClassDef,
        list: &Vec<Statement>,
        bindings: Table<Expr>,
        consts: &Table<Number>,
        sizes: &Table<Vec<i64>>,
        depth: usize,
    | -> (r: Result<Walked, String>)
        ensures
            told(
                r,
            ) == (web_of(*w).out.engine.walk)(*class, list@, bindings.deep_view(), consts.deep_view(), sizes.deep_view(), depth, on.deep_view()),
        { w.out.engine.do_walk(class, list, bindings, consts, sizes, depth, on) };
    let fields = |class: &ClassDef, input: &Component| -> (r: Option<Vec<String>>)
        ensures
            r.deep_view() == input_fields(
                web_of(*w).classes,
                *class,
                input.deep_view(),
                on.deep_view().mark,
            ),
        {
            let r = record_input_fields(w.registry, class, input, &on.mark);
            proof {
                if r is Some {
                    assert(texts(r->Some_0@) =~= r->Some_0.deep_view());
                }
            }
            r
        };
    let single = |class: &ClassDef, input: &Component| -> (r: Vec<String>)
        ensures
            r.deep_view() == single_among(
                input_record(web_of(*w).classes, *class, input.deep_view()),
                input_record(web_of(*w).classes, *class, input.deep_view()).len(),
            ),
        {
            let r = scalar_record_fields(w.registry, class, input);
            assert(texts(r@) =~= r.deep_view());
            r
        };
    let shaped = |class: &ClassDef, input: &Component| -> (r: Vec<(String, Vec<i64>)>)
        ensures
            r.deep_view() == shaped_among(
                input_record(web_of(*w).classes, *class, input.deep_view()),
                web_of(*w).out.sums,
                input_record(web_of(*w).classes, *class, input.deep_view()).len(),
            ),
        { shaped_record_fields(&w.out.sums, w.registry, class, input) };
    let held = |record: &ClassDef| -> (r: Vec<String>)
        ensures
            r.deep_view() == fields_of(web_of(*w).classes, *record, 0),
        {
            let r = record_fields_of(w.registry, record, 0);
            assert(texts(r@) =~= r.deep_view());
            r
        };
    let elsewhere = |
        class: &ClassDef,
        args: &Vec<Expr>,
        shapes: &Vec<Vec<i64>>,
        consts: &Table<Number>,
    | -> (r: Result<Option<Vec<(String, Expr)>>, String>)
        ensures
            told(r) == written_elsewhere(
                elsewhere_told(web_of(*w), on.deep_view()),
                *class,
                args.deep_view(),
                shapes.deep_view(),
                consts.deep_view(),
            ),
        { answer_elsewhere(w, on, class, args, shapes, consts) };
    let h = Walking {
        put,
        filled,
        measure,
        settle,
        spread,
        walk,
        fields,
        single,
        shaped,
        held,
        elsewhere,
        model: Ghost(walking_told(web_of(*w), on.deep_view())),
    };
    let landed = w.out.engine.do_landed(class);
    let q = Asking { class, mark: &on.mark, consts, landed: landed.as_str(), depth };
    worked_body(&h, &w.out.sums, w.registry, &q, args, shapes, w.out.no_bottom.as_str())
}

/// Every output of a call that stands on its own footing.
pub fn list_outputs<P: Parts>(
    w: &Web<'_, '_, P>,
    on: &Footing,
    consts: &Table<Number>,
    class: &ClassDef,
    args: &Vec<Expr>,
    shapes: &Vec<Vec<i64>>,
    depth: usize,
) -> (r: Result<Answer, String>)
    requires
        outside_true(*w.out),
    ensures
        told(r) == outputs_inlined(
            unfolding_told(web_of(*w), on.deep_view(), consts.deep_view()),
            *class,
            args.deep_view(),
            shapes.deep_view(),
            depth,
        ),
{
    let body = |
        class: &ClassDef,
        args: &Vec<Expr>,
        shapes: &Vec<Vec<i64>>,
        depth: usize,
    | -> (r: Result<Answer, String>)
        ensures
            told(r) == body_told(
                web_of(*w),
                on.deep_view(),
                consts.deep_view(),
                *class,
                args.deep_view(),
                shapes.deep_view(),
                depth,
            ),
        { work_body(w, on, consts, class, args, shapes, depth) };
    let put = |e: &Expr, scope: &str, imports: &Vec<(String, String)>| -> (r: Expr)
        ensures
            r.deep_view() == put_told(
                web_of(*w),
                on.deep_view(),
                e.deep_view(),
                scope@,
                imports.deep_view(),
                Seq::empty(),
            ),
        { put_plainly(w, on, e, scope, imports) };
    let recursive = |class: &ClassDef| -> (r: bool)
        ensures
            r == (web_of(*w).out.language.recursive)(*class),
        { w.out.language.do_recursive(class) };
    let unbounded = |e: &Expr| -> (r: bool)
        ensures
            r == (web_of(*w).out.language.unbounded)(e.deep_view()),
        { w.out.language.do_unbounded(e) };
    let endless = |why: &str| -> (r: bool)
        ensures
            r == (web_of(*w).out.language.endless)(why@),
        { w.out.language.do_endless(why) };
    let leaves = |why: &str| -> (r: bool)
        ensures
            r == (web_of(*w).out.language.leaves)(why@),
        { w.out.language.do_leaves(why) };
    let brief = |e: &Expr| -> (r: String)
        ensures
            r@ == sketched((web_of(*w).out.language.show)(e.deep_view())),
        { show_briefly(w, e) };
    let answers = |called: &str, handed: &Vec<u64>| -> (r: Option<u64>)
        ensures
            r == (web_of(*w).out.language.answers)(called@, handed@),
        { w.out.language.do_answers(called, handed) };
    let written = |called: &str| -> (r: bool)
        ensures
            r == (web_of(*w).out.language.written)(called@),
        { w.out.language.do_written(called) };
    let again = |
        class: &ClassDef,
        args: &Vec<Expr>,
        shapes: &Vec<Vec<i64>>,
        depth: usize,
    | -> (r: Result<Inlined, String>)
        ensures
            told(r) == inlined_told(
                web_of(*w),
                on.deep_view(),
                consts.deep_view(),
                *class,
                args.deep_view(),
                shapes.deep_view(),
                depth,
            ),
        { inline_here(w, on, consts, class, args, shapes, depth) };
    let h = Inlining {
        body,
        put,
        recursive,
        unbounded,
        endless,
        leaves,
        sketch: brief,
        outside: answers,
        written,
        again,
        model: Ghost(inlining_told(web_of(*w), on.deep_view(), consts.deep_view())),
    };
    let q = Unfolding { registry: w.registry, most: w.out.most, settling: on.settling };
    inline_function_outputs(&h, &w.out.sums, &q, class, args, shapes, depth)
}

/// The checks of a call that stands on its own as a statement.
pub fn list_checks<P: Parts>(
    w: &Web<'_, '_, P>,
    on: &Footing,
    consts: &Table<Number>,
    class: &ClassDef,
    args: &Vec<Expr>,
    shapes: &Vec<Vec<i64>>,
    depth: usize,
) -> (r: Result<(Vec<(Expr, String)>, Vec<(Expr, String)>), String>)
    requires
        outside_true(*w.out),
    ensures
        told(r) == checks_inlined(
            unfolding_told(web_of(*w), on.deep_view(), consts.deep_view()),
            *class,
            args.deep_view(),
            shapes.deep_view(),
            depth,
        ),
{
    let body = |
        class: &ClassDef,
        args: &Vec<Expr>,
        shapes: &Vec<Vec<i64>>,
        depth: usize,
    | -> (r: Result<Answer, String>)
        ensures
            told(r) == body_told(
                web_of(*w),
                on.deep_view(),
                consts.deep_view(),
                *class,
                args.deep_view(),
                shapes.deep_view(),
                depth,
            ),
        { work_body(w, on, consts, class, args, shapes, depth) };
    let put = |e: &Expr, scope: &str, imports: &Vec<(String, String)>| -> (r: Expr)
        ensures
            r.deep_view() == put_told(
                web_of(*w),
                on.deep_view(),
                e.deep_view(),
                scope@,
                imports.deep_view(),
                Seq::empty(),
            ),
        { put_plainly(w, on, e, scope, imports) };
    let recursive = |class: &ClassDef| -> (r: bool)
        ensures
            r == (web_of(*w).out.language.recursive)(*class),
        { w.out.language.do_recursive(class) };
    let unbounded = |e: &Expr| -> (r: bool)
        ensures
            r == (web_of(*w).out.language.unbounded)(e.deep_view()),
        { w.out.language.do_unbounded(e) };
    let endless = |why: &str| -> (r: bool)
        ensures
            r == (web_of(*w).out.language.endless)(why@),
        { w.out.language.do_endless(why) };
    let leaves = |why: &str| -> (r: bool)
        ensures
            r == (web_of(*w).out.language.leaves)(why@),
        { w.out.language.do_leaves(why) };
    let brief = |e: &Expr| -> (r: String)
        ensures
            r@ == sketched((web_of(*w).out.language.show)(e.deep_view())),
        { show_briefly(w, e) };
    let answers = |called: &str, handed: &Vec<u64>| -> (r: Option<u64>)
        ensures
            r == (web_of(*w).out.language.answers)(called@, handed@),
        { w.out.language.do_answers(called, handed) };
    let written = |called: &str| -> (r: bool)
        ensures
            r == (web_of(*w).out.language.written)(called@),
        { w.out.language.do_written(called) };
    let again = |
        class: &ClassDef,
        args: &Vec<Expr>,
        shapes: &Vec<Vec<i64>>,
        depth: usize,
    | -> (r: Result<Inlined, String>)
        ensures
            told(r) == inlined_told(
                web_of(*w),
                on.deep_view(),
                consts.deep_view(),
                *class,
                args.deep_view(),
                shapes.deep_view(),
                depth,
            ),
        { inline_here(w, on, consts, class, args, shapes, depth) };
    let h = Inlining {
        body,
        put,
        recursive,
        unbounded,
        endless,
        leaves,
        sketch: brief,
        outside: answers,
        written,
        again,
        model: Ghost(inlining_told(web_of(*w), on.deep_view(), consts.deep_view())),
    };
    let q = Unfolding { registry: w.registry, most: w.out.most, settling: on.settling };
    inline_function_checks(&h, &w.out.sums, &q, class, args, shapes, depth)
}

/// Whether the run can walk a body.
pub fn can_walk<P: Parts>(
    w: &Web<'_, '_, P>,
    on: &Footing,
    consts: &Table<Number>,
    class: &ClassDef,
) -> (r: bool)
    requires
        outside_true(*w.out),
    ensures
        r == (walk_trouble(unfolding_told(web_of(*w), on.deep_view(), consts.deep_view()), *class) is None),
{
    let body = |
        class: &ClassDef,
        args: &Vec<Expr>,
        shapes: &Vec<Vec<i64>>,
        depth: usize,
    | -> (r: Result<Answer, String>)
        ensures
            told(r) == body_told(
                web_of(*w),
                on.deep_view(),
                consts.deep_view(),
                *class,
                args.deep_view(),
                shapes.deep_view(),
                depth,
            ),
        { work_body(w, on, consts, class, args, shapes, depth) };
    let put = |e: &Expr, scope: &str, imports: &Vec<(String, String)>| -> (r: Expr)
        ensures
            r.deep_view() == put_told(
                web_of(*w),
                on.deep_view(),
                e.deep_view(),
                scope@,
                imports.deep_view(),
                Seq::empty(),
            ),
        { put_plainly(w, on, e, scope, imports) };
    let recursive = |class: &ClassDef| -> (r: bool)
        ensures
            r == (web_of(*w).out.language.recursive)(*class),
        { w.out.language.do_recursive(class) };
    let unbounded = |e: &Expr| -> (r: bool)
        ensures
            r == (web_of(*w).out.language.unbounded)(e.deep_view()),
        { w.out.language.do_unbounded(e) };
    let endless = |why: &str| -> (r: bool)
        ensures
            r == (web_of(*w).out.language.endless)(why@),
        { w.out.language.do_endless(why) };
    let leaves = |why: &str| -> (r: bool)
        ensures
            r == (web_of(*w).out.language.leaves)(why@),
        { w.out.language.do_leaves(why) };
    let brief = |e: &Expr| -> (r: String)
        ensures
            r@ == sketched((web_of(*w).out.language.show)(e.deep_view())),
        { show_briefly(w, e) };
    let answers = |called: &str, handed: &Vec<u64>| -> (r: Option<u64>)
        ensures
            r == (web_of(*w).out.language.answers)(called@, handed@),
        { w.out.language.do_answers(called, handed) };
    let written = |called: &str| -> (r: bool)
        ensures
            r == (web_of(*w).out.language.written)(called@),
        { w.out.language.do_written(called) };
    let again = |
        class: &ClassDef,
        args: &Vec<Expr>,
        shapes: &Vec<Vec<i64>>,
        depth: usize,
    | -> (r: Result<Inlined, String>)
        ensures
            told(r) == inlined_told(
                web_of(*w),
                on.deep_view(),
                consts.deep_view(),
                *class,
                args.deep_view(),
                shapes.deep_view(),
                depth,
            ),
        { inline_here(w, on, consts, class, args, shapes, depth) };
    let h = Inlining {
        body,
        put,
        recursive,
        unbounded,
        endless,
        leaves,
        sketch: brief,
        outside: answers,
        written,
        again,
        model: Ghost(inlining_told(web_of(*w), on.deep_view(), consts.deep_view())),
    };
    let q = Unfolding { registry: w.registry, most: w.out.most, settling: on.settling };
    walkable(&h, &w.out.sums, &q, class).is_none()
}

/// A body carried along with a model, held for itself.
pub open spec fn is_carried<C>(
    w: WebV<C>,
    copies: Seq<ClassDef>,
    class: ClassDef,
    held: Carried,
) -> bool {
    held.name@ == class.name@ && is_body_of(
        unfolding_told(w, nowhere(), Map::empty()),
        pointed(copies),
        class,
        held.components.deep_view(),
        held.algorithm@,
    )
}

/// The classes of a list, pointed at.
pub open spec fn pointed<'a>(list: Seq<ClassDef>) -> Seq<&'a ClassDef> {
    Seq::new(list.len(), |i: int| &list[i])
}

fn point_at<'a>(list: &'a Vec<ClassDef>) -> (r: Registry<'a>)
    ensures
        r@ == pointed(list@),
{
    let mut out: Registry<'a> = Vec::new();
    let mut i: usize = 0;
    while i < list.len()
        invariant
            i <= list.len(),
            out@.len() == i,
            forall|k: int| 0 <= k < i ==> #[trigger] out@[k] == &list@[k],
        decreases list.len() - i,
    {
        out.push(&list[i]);
        i = i + 1;
    }
    assert(out@ =~= pointed(list@));
    out
}

/// The footing of a model as a whole: inside no body and under no package.
pub open spec fn nowhere() -> FootingV {
    FootingV { mark: None, nested: 0, settling: false }
}

pub fn stand_nowhere() -> (r: Footing)
    ensures
        r.deep_view() == nowhere(),
{
    Footing { mark: None, nested: 0, settling: false }
}

/// The functions whose bodies travel with a model.
pub open spec fn carried_with<C>(w: WebV<C>, copies: Seq<ClassDef>, model: ModelV) -> Result<
    Seq<ClassDef>,
    Seq<char>,
> {
    carried_for(
        unfolding_told(w, nowhere(), Map::empty()),
        pointed(copies),
        model_wants(w.classes, pointed(copies), model),
        Seq::empty(),
        ROUNDS as nat,
    )
}

/// The bodies a flat model still calls, and everything they call in turn, with
/// those written out for it among them.
pub fn carry_along<P: Parts>(
    w: &Web<'_, '_, P>,
    copies: &Vec<ClassDef>,
    model: &Model,
) -> (r: Result<Vec<Carried>, String>)
    requires
        outside_true(*w.out),
    ensures
        match (r, carried_with(web_of(*w), copies@, model.deep_view())) {
            (Ok(made), Ok(meant)) => made@.len() == meant.len() && (forall|i: int|
                0 <= i < meant.len() ==> is_carried(
                    web_of(*w),
                    copies@,
                    meant[i],
                    #[trigger] made@[i],
                )),
            (Err(why), Err(said)) => why@ == said,
            _ => false,
        },
{
    let top = stand_nowhere();
    let on = &top;
    let none: Table<Number> = Table::new();
    let consts = &none;
    let body = |
        class: &ClassDef,
        args: &Vec<Expr>,
        shapes: &Vec<Vec<i64>>,
        depth: usize,
    | -> (r: Result<Answer, String>)
        ensures
            told(r) == body_told(
                web_of(*w),
                on.deep_view(),
                consts.deep_view(),
                *class,
                args.deep_view(),
                shapes.deep_view(),
                depth,
            ),
        { work_body(w, on, consts, class, args, shapes, depth) };
    let put = |e: &Expr, scope: &str, imports: &Vec<(String, String)>| -> (r: Expr)
        ensures
            r.deep_view() == put_told(
                web_of(*w),
                on.deep_view(),
                e.deep_view(),
                scope@,
                imports.deep_view(),
                Seq::empty(),
            ),
        { put_plainly(w, on, e, scope, imports) };
    let recursive = |class: &ClassDef| -> (r: bool)
        ensures
            r == (web_of(*w).out.language.recursive)(*class),
        { w.out.language.do_recursive(class) };
    let unbounded = |e: &Expr| -> (r: bool)
        ensures
            r == (web_of(*w).out.language.unbounded)(e.deep_view()),
        { w.out.language.do_unbounded(e) };
    let endless = |why: &str| -> (r: bool)
        ensures
            r == (web_of(*w).out.language.endless)(why@),
        { w.out.language.do_endless(why) };
    let leaves = |why: &str| -> (r: bool)
        ensures
            r == (web_of(*w).out.language.leaves)(why@),
        { w.out.language.do_leaves(why) };
    let brief = |e: &Expr| -> (r: String)
        ensures
            r@ == sketched((web_of(*w).out.language.show)(e.deep_view())),
        { show_briefly(w, e) };
    let answers = |called: &str, handed: &Vec<u64>| -> (r: Option<u64>)
        ensures
            r == (web_of(*w).out.language.answers)(called@, handed@),
        { w.out.language.do_answers(called, handed) };
    let written = |called: &str| -> (r: bool)
        ensures
            r == (web_of(*w).out.language.written)(called@),
        { w.out.language.do_written(called) };
    let again = |
        class: &ClassDef,
        args: &Vec<Expr>,
        shapes: &Vec<Vec<i64>>,
        depth: usize,
    | -> (r: Result<Inlined, String>)
        ensures
            told(r) == inlined_told(
                web_of(*w),
                on.deep_view(),
                consts.deep_view(),
                *class,
                args.deep_view(),
                shapes.deep_view(),
                depth,
            ),
        { inline_here(w, on, consts, class, args, shapes, depth) };
    let h = Inlining {
        body,
        put,
        recursive,
        unbounded,
        endless,
        leaves,
        sketch: brief,
        outside: answers,
        written,
        again,
        model: Ghost(inlining_told(web_of(*w), on.deep_view(), consts.deep_view())),
    };
    let q = Unfolding { registry: w.registry, most: w.out.most, settling: on.settling };
    let there = point_at(copies);
    let mut left = match programs_used(&h, &w.out.sums, &q, &there, model) {
        Ok(list) => list,
        Err(why) => return Err(why),
    };
    let ghost meant = carried_with(web_of(*w), copies@, model.deep_view())->Ok_0;
    let ghost g = unfolding_told(web_of(*w), nowhere(), Map::empty());
    let ghost all = left@;
    let mut out: Vec<Carried> = Vec::new();
    while left.len() > 0
        invariant
            g == unfolding_told(web_of(*w), nowhere(), Map::empty()),
            all.len() == meant.len(),
            forall|i: int|
                0 <= i < meant.len() ==> is_carried_along(
                    g,
                    pointed(copies@),
                    meant[i],
                    #[trigger] all[i],
                ),
            left@ == all.skip(out@.len() as int),
            out@.len() + left@.len() == all.len(),
            forall|i: int|
                0 <= i < out@.len() ==> is_carried(
                    web_of(*w),
                    copies@,
                    meant[i],
                    #[trigger] out@[i],
                ),
        decreases left.len(),
    {
        let ghost at = out@.len() as int;
        let Program { class, components, algorithm } = left.remove(0);
        assert(left@ =~= all.skip(at + 1));
        out.push(Carried { name: class.name.clone(), components, algorithm });
    }
    Ok(out)
}

}
