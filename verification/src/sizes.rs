//! Every `size` that is still asked when the shapes are known.
use crate::class::{Component, ComponentV};
use crate::expr::{is_call, kids, lemma_kids_smaller, lemma_views, with_kids, Expr, ExprV};
use crate::flat::{
    asserts_by, clauses_by, computes, conditionals_by, equations_by, rewrite_asserts,
    rewrite_clauses, rewrite_conditionals, rewrite_equations, Model,
};
use crate::folding::{find_outermost, outermost};
use crate::make;
use crate::number::{from_int, nearest_to, Number};
use crate::slices::{known_shapes, ShapesV};
use crate::table::{entered, Table};
use crate::text::same;
use vstd::prelude::*;

verus! {

/// Every number in a value written out, in order, or `None` where something
/// in it is not one.
pub open spec fn numbers_in(e: ExprV) -> Option<Seq<Number>>
    decreases e, kids(e).len() + 1,
{
    match e {
        ExprV::Number(value) => Some(seq![value]),
        ExprV::Array(_) => kids_numbers(e, kids(e).len()),
        ExprV::MatrixRows(_) => kids_numbers(e, kids(e).len()),
        _ => None,
    }
}

/// The same over the first `n` children.
pub open spec fn kids_numbers(e: ExprV, n: nat) -> Option<Seq<Number>>
    decreases e, n,
{
    proof {
        lemma_kids_smaller(e);
    }
    if n == 0 || n > kids(e).len() {
        Some(Seq::empty())
    } else {
        match (kids_numbers(e, (n - 1) as nat), numbers_in(kids(e)[n - 1])) {
            (Some(before), Some(more)) => Some(before + more),
            _ => None,
        }
    }
}

/// Something that is not a number spoils everything after it.
proof fn lemma_spoiled(e: ExprV, n: nat, all: nat)
    requires
        n <= all <= kids(e).len(),
        kids_numbers(e, n) is None,
    ensures
        kids_numbers(e, all) is None,
    decreases all,
{
    if n < all {
        lemma_spoiled(e, n, (all - 1) as nat);
    }
}

fn all_numbers(expr: &Expr) -> (r: Option<Vec<Number>>)
    ensures
        match r {
            Some(list) => numbers_in(expr.deep_view()) == Some(list@),
            None => numbers_in(expr.deep_view()) is None,
        },
    decreases expr.deep_view(),
{
    let ghost shape = expr.deep_view();
    let mut out: Vec<Number> = Vec::new();
    match expr {
        Expr::Number(value) => {
            out.push(*value);
            assert(out@ =~= seq![*value]);
            return Some(out);
        },
        Expr::Array(_) => {},
        Expr::MatrixRows(_) => {},
        _ => return None,
    }
    let below = expr.children();
    let mut i: usize = 0;
    proof {
        lemma_kids_smaller(shape);
    }
    while i < below.len()
        invariant
            i <= below.len(),
            shape == expr.deep_view(),
            shape is Array || shape is MatrixRows,
            below.deep_view() == kids(shape),
            forall|k: int|
                0 <= k < kids(shape).len() ==> (#[trigger] decreases_to!(shape => kids(shape)[k])),
            kids_numbers(shape, i as nat) == Some(out@),
        decreases below.len() - i,
    {
        assert(below.deep_view()[i as int] == below@[i as int].deep_view());
        assert(decreases_to!(shape => kids(shape)[i as int]));
        match all_numbers(below[i]) {
            Some(mut more) => {
                out.append(&mut more);
            },
            None => {
                proof {
                    lemma_spoiled(shape, (i + 1) as nat, kids(shape).len());
                }
                return None;
            },
        }
        i = i + 1;
    }
    Some(out)
}

/// The length that `size(of, axis)` asks for, where the shape is known and
/// has that axis.
pub open spec fn length_asked(e: ExprV, known: ShapesV) -> Option<i64> {
    match e {
        ExprV::Call(name, args) => if name == "size"@ && args.len() == 2 {
            match (args[0], args[1]) {
                (ExprV::Ref(of), ExprV::Number(axis)) => if known.contains_key(of) && 1
                    <= axis.clipped() <= known[of].len() {
                    Some(known[of][axis.clipped() - 1])
                } else {
                    None
                },
                _ => None,
            }
        } else {
            None
        },
        _ => None,
    }
}

fn find_length(expr: &Expr, known: &Table<Vec<i64>>) -> (r: Option<i64>)
    ensures
        r == length_asked(expr.deep_view(), known.deep_view()),
{
    if let Expr::Call(name, args) = expr {
        proof {
            lemma_views(*args);
        }
        if same(name.as_str(), "size") && args.len() == 2 {
            assert(args.deep_view()[0] == args@[0].deep_view());
            assert(args.deep_view()[1] == args@[1].deep_view());
            if let Expr::Ref(of) = &args[0] {
                if let Expr::Number(axis) = &args[1] {
                    if let Some(shape) = known.get(of.as_str()) {
                        assert(shape.deep_view() =~= shape@);
                        let at: i64 = axis.to_int();
                        if at >= 1 && at as u64 <= shape.len() as u64 {
                            return Some(shape[(at - 1) as usize]);
                        }
                    }
                }
            }
        }
    }
    None
}

/// What is looked inside for a `size`.
pub open spec fn may_hold_size(e: ExprV) -> bool {
    e is Call || e is Array || e is MatrixRows || e is Neg || e is Not || e is Bin || e is Rel
        || e is And || e is Or || e is If
}

/// An expression with every `size` in it answered that the shapes answer, and
/// the largest or smallest of lengths that are all known worked out.
pub open spec fn measured(e: ExprV, known: ShapesV) -> ExprV
    decreases e, 1int,
{
    match measured_extreme(e, known) {
        Some(value) => ExprV::Number(value),
        None => match length_asked(e, known) {
            Some(length) => ExprV::Number(nearest_to(length as int)),
            None => with_kids(e, measured_kids(e, known)),
        },
    }
}

/// What `max` or `min` of a column comes to where all of it is numbers.
pub open spec fn measured_extreme(e: ExprV, known: ShapesV) -> Option<Number>
    decreases e, 0int,
{
    proof {
        lemma_kids_smaller(e);
    }
    if (is_call(e, "max"@, 1) || is_call(e, "min"@, 1)) && kids(e).len() > 0 {
        match numbers_in(measured(kids(e)[0], known)) {
            Some(list) => if list.len() > 0 {
                Some(outermost(is_call(e, "max"@, 1), list))
            } else {
                None
            },
            None => None,
        }
    } else {
        None
    }
}

/// [`measured`] of every child.
pub open spec fn measured_kids(e: ExprV, known: ShapesV) -> Seq<ExprV>
    decreases e, 0int,
{
    proof {
        lemma_kids_smaller(e);
    }
    Seq::new(
        kids(e).len(),
        |i: int|
            if 0 <= i < kids(e).len() {
                measured(kids(e)[i], known)
            } else {
                e
            },
    )
}

fn measure_extreme(expr: &Expr, known: &Table<Vec<i64>>) -> (r: Option<Number>)
    ensures
        r == measured_extreme(expr.deep_view(), known.deep_view()),
    decreases expr.deep_view(), 0int,
{
    if let Expr::Call(name, args) = expr {
        proof {
            lemma_views(*args);
            lemma_kids_smaller(expr.deep_view());
        }
        let largest: bool = same(name.as_str(), "max");
        if args.len() == 1 && (largest || same(name.as_str(), "min")) {
            assert(kids(expr.deep_view()) == args.deep_view());
            assert(kids(expr.deep_view())[0] == args@[0].deep_view());
            assert(decreases_to!(expr.deep_view() => kids(expr.deep_view())[0]));
            let inside = measure(&args[0], known);
            if let Some(list) = all_numbers(&inside) {
                if list.len() > 0 {
                    return Some(find_outermost(largest, &list));
                }
            }
        }
    }
    None
}

/// Answer every `size` in an expression from the shapes.
pub fn measure(expr: &Expr, known: &Table<Vec<i64>>) -> (r: Expr)
    ensures
        r.deep_view() == measured(expr.deep_view(), known.deep_view()),
    decreases expr.deep_view(), 1int,
{
    if let Some(value) = measure_extreme(expr, known) {
        return make::number(value);
    }
    if let Some(length) = find_length(expr, known) {
        return make::number(from_int(length));
    }
    let ghost held = known.deep_view();
    let ghost shape = expr.deep_view();
    let parts = expr.children();
    let mut new: Vec<Expr> = Vec::new();
    let mut i: usize = 0;
    proof {
        lemma_kids_smaller(shape);
    }
    while i < parts.len()
        invariant
            i <= parts.len(),
            shape == expr.deep_view(),
            parts.deep_view() == kids(shape),
            forall|k: int|
                0 <= k < kids(shape).len() ==> (#[trigger] decreases_to!(shape => kids(shape)[k])),
            new.len() == i,
            forall|k: int|
                0 <= k < i ==> (#[trigger] new@[k]).deep_view() == measured(kids(shape)[k], held),
            held == known.deep_view(),
        decreases parts.len() - i,
    {
        assert(parts.deep_view()[i as int] == parts@[i as int].deep_view());
        assert(decreases_to!(shape => kids(shape)[i as int]));
        let part: &Expr = parts[i];
        new.push(measure(part, known));
        i = i + 1;
    }
    assert(new.deep_view() =~= measured_kids(shape, held));
    expr.with_children(new)
}

/// A value with every `size` in it answered, where there is one.
pub open spec fn measured_value(value: Option<ExprV>, known: ShapesV) -> Option<ExprV> {
    match value {
        Some(e) => Some(measured(e, known)),
        None => None,
    }
}

fn measure_value(value: &Option<Expr>, known: &Table<Vec<i64>>) -> (r: Option<Expr>)
    ensures
        r.deep_view() == measured_value(value.deep_view(), known.deep_view()),
{
    match value {
        Some(e) => Some(measure(e, known)),
        None => None,
    }
}

/// A declaration with every `size` in its value, its start and its bounds
/// answered.
pub open spec fn measured_component(c: ComponentV, known: ShapesV) -> ComponentV {
    ComponentV {
        binding: measured_value(c.binding, known),
        start: measured_value(c.start, known),
        min: measured_value(c.min, known),
        max: measured_value(c.max, known),
        ..c
    }
}

pub open spec fn measured_components(list: Seq<ComponentV>, known: ShapesV) -> Seq<ComponentV> {
    Seq::new(list.len(), |i: int| measured_component(list[i], known))
}

fn measure_components(list: &mut Vec<Component>, known: &Table<Vec<i64>>)
    ensures
        final(list).deep_view() == measured_components(old(list).deep_view(), known.deep_view()),
{
    let ghost was = list.deep_view();
    let mut out: Vec<Component> = Vec::new();
    let mut i: usize = 0;
    while i < list.len()
        invariant
            i <= list.len(),
            was == list.deep_view(),
            out@.len() == i,
            forall|k: int|
                0 <= k < i ==> (#[trigger] out@[k]).deep_view() == measured_component(
                    was[k],
                    known.deep_view(),
                ),
        decreases list.len() - i,
    {
        assert(was[i as int] == list@[i as int].deep_view());
        let mut one = list[i].clone();
        let ghost copy = one.deep_view();
        one.binding = measure_value(&list[i].binding, known);
        one.start = measure_value(&list[i].start, known);
        one.min = measure_value(&list[i].min, known);
        one.max = measure_value(&list[i].max, known);
        assert(one.deep_view() == measured_component(copy, known.deep_view()));
        out.push(one);
        i = i + 1;
    }
    assert(out.deep_view() =~= measured_components(was, known.deep_view()));
    *list = out;
}

/// Answer every `size` still standing in the model from the shapes flattening
/// gathered: in what declarations say of their values, in equations and in the
/// branches of those only the run decides, in checks, and in what happens at an
/// event and when.
pub fn settle_sizes(model: &mut Model, shapes: &Vec<(String, Vec<i64>)>)
    ensures
        shapes@.len() == 0 ==> *final(model) == *old(model),
        shapes@.len() > 0 ==> {
            let known = entered(shapes.deep_view());
            let g = |e: ExprV| measured(e, known);
            &&& final(model).components.deep_view() == measured_components(
                old(model).components.deep_view(),
                known,
            )
            &&& final(model).equations.deep_view() == equations_by(
                g,
                old(model).equations.deep_view(),
            )
            &&& final(model).initial_equations.deep_view() == equations_by(
                g,
                old(model).initial_equations.deep_view(),
            )
            &&& final(model).asserts.deep_view() == asserts_by(g, old(model).asserts.deep_view())
            &&& final(model).when_clauses.deep_view() == clauses_by(
                g,
                old(model).when_clauses.deep_view(),
            )
            &&& final(model).conditional.deep_view() == conditionals_by(
                g,
                old(model).conditional.deep_view(),
            )
            &&& *final(model) == (Model {
                components: final(model).components,
                equations: final(model).equations,
                initial_equations: final(model).initial_equations,
                asserts: final(model).asserts,
                when_clauses: final(model).when_clauses,
                conditional: final(model).conditional,
                ..*old(model)
            })
        },
{
    if shapes.len() == 0 {
        return;
    }
    let known = known_shapes(shapes);
    let ghost held = known.deep_view();
    let ghost g = |e: ExprV| measured(e, held);
    let f = |e: &Expr| -> (r: Expr)
        ensures
            r.deep_view() == measured(e.deep_view(), known.deep_view()),
        { measure(e, &known) };
    assert(computes(f, g));
    measure_components(&mut model.components, &known);
    rewrite_equations(&mut model.equations, &f, Ghost(g));
    rewrite_equations(&mut model.initial_equations, &f, Ghost(g));
    rewrite_asserts(&mut model.asserts, &f, Ghost(g));
    rewrite_clauses(&mut model.when_clauses, &f, Ghost(g));
    rewrite_conditionals(&mut model.conditional, &f, Ghost(g));
}

}
