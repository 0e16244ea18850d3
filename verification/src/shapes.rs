//! How long each array of a class is, measured before anything is expanded.
use crate::class::{ClassDef, ClassKind, Component, ComponentV, MAX_DEPTH};
use crate::expr::{
    expr_view, kids, lemma_kids_smaller, lemma_rows, lemma_views, with_kids, BinOp, Expr, ExprV, RelOp,
};
use crate::folding::{const_eval, compared, evaluated, step_of, Worths};
use crate::functions::places;
use crate::inheritance::{find_said, resolve_type, resolved_type, said_of};
use crate::lookup::{lookup, meaning, Pairs, Registry};
use crate::make;
use crate::number::{from_int, nearest_to, one, truth, truth_of, zero, Number};
use crate::scoping::named_base;
use crate::sizes::may_hold_size;
use crate::sums::{is_steady, sums_of, Arith, Sums, SumsV};
use crate::table::{all_prefixed, entered, Table};
use crate::text::{begins_with, cut_last, join2, join3, same, split_last};
use crate::value::{lemma_values, Value, ValueV};
use vstd::prelude::*;

verus! {

/// How long each array in view is.
pub type Lengths = Map<Seq<char>, Seq<i64>>;

/// What measuring a class leans on, handed in by whoever knows: `put` puts the
/// constants of classes into a dimension, `filed` is how long a table kept in
/// a file is along an axis, and `built` is the shape of a value once it is
/// built.
pub struct Gauge<A1, A2, A3> {
    pub put: A1,
    pub filed: A2,
    pub built: A3,
    /// What they answer, mathematically.
    pub model: Ghost<GaugeV>,
}

/// The same, mathematically.
pub ghost struct GaugeV {
    pub put: spec_fn(ExprV, Seq<char>, Pairs) -> ExprV,
    pub filed: spec_fn(ExprV, usize, Seq<(Seq<char>, ExprV)>) -> Option<i64>,
    pub built: spec_fn(ExprV, Worths, Lengths, Seq<char>, Pairs) -> Option<Seq<i64>>,
}

/// Whether each of them may be asked anything, and answers as `m` says.
pub open spec fn gauges_true_to<
    A1: Fn(&Expr, &str, &Vec<(String, String)>) -> Expr,
    A2: Fn(&Expr, usize, &Vec<(String, Expr)>) -> Option<i64>,
    A3: Fn(&Expr, &Table<Number>, &Table<Vec<i64>>, &str, &Vec<(String, String)>) -> Option<Vec<i64>>,
>(
    put: A1,
    filed: A2,
    built: A3,
    m: GaugeV,
) -> bool {
    &&& forall|
        e: &Expr,
        scope: &str,
        imports: &Vec<(String, String)>,
    | #[trigger] call_requires(put, (e, scope, imports))
    &&& forall|e: &Expr, scope: &str, imports: &Vec<(String, String)>, r: Expr| #[trigger]
        call_ensures(
            put,
            (e, scope, imports),
            r,
        ) ==> r.deep_view() == (m.put)(e.deep_view(), scope@, imports.deep_view())
    &&& forall|
        e: &Expr,
        axis: usize,
        handed: &Vec<(String, Expr)>,
    | #[trigger] call_requires(filed, (e, axis, handed))
    &&& forall|e: &Expr, axis: usize, handed: &Vec<(String, Expr)>, r: Option<i64>| #[trigger]
        call_ensures(
            filed,
            (e, axis, handed),
            r,
        ) ==> r == (m.filed)(e.deep_view(), axis, handed.deep_view())
    &&& forall|
        e: &Expr,
        consts: &Table<Number>,
        sizes: &Table<Vec<i64>>,
        scope: &str,
        imports: &Vec<(String, String)>,
    | #[trigger] call_requires(built, (e, consts, sizes, scope, imports))
    &&& forall|
        e: &Expr,
        consts: &Table<Number>,
        sizes: &Table<Vec<i64>>,
        scope: &str,
        imports: &Vec<(String, String)>,
        r: Option<Vec<i64>>,
    | #[trigger]
        call_ensures(
            built,
            (e, consts, sizes, scope, imports),
            r,
        ) ==> r.deep_view() == (m.built)(e.deep_view(), consts.deep_view(), sizes.deep_view(), scope@, imports.deep_view())
}

/// Whether each of them may be asked anything, and answers as its model says.
pub open spec fn gauges_true<
    A1: Fn(&Expr, &str, &Vec<(String, String)>) -> Expr,
    A2: Fn(&Expr, usize, &Vec<(String, Expr)>) -> Option<i64>,
    A3: Fn(&Expr, &Table<Number>, &Table<Vec<i64>>, &str, &Vec<(String, String)>) -> Option<Vec<i64>>,
>(s: Gauge<A1, A2, A3>) -> bool {
    gauges_true_to(s.put, s.filed, s.built, s.model@)
}

/// What they answer, mathematically.
pub open spec fn gauge_of<
    A1: Fn(&Expr, &str, &Vec<(String, String)>) -> Expr,
    A2: Fn(&Expr, usize, &Vec<(String, Expr)>) -> Option<i64>,
    A3: Fn(&Expr, &Table<Number>, &Table<Vec<i64>>, &str, &Vec<(String, String)>) -> Option<Vec<i64>>,
>(s: Gauge<A1, A2, A3>) -> GaugeV {
    s.model@
}

impl<
    A1: Fn(&Expr, &str, &Vec<(String, String)>) -> Expr,
    A2: Fn(&Expr, usize, &Vec<(String, Expr)>) -> Option<i64>,
    A3: Fn(&Expr, &Table<Number>, &Table<Vec<i64>>, &str, &Vec<(String, String)>) -> Option<Vec<i64>>,
> Gauge<A1, A2, A3> {
    /// The bundle of such functions, where there is anything they answer at all.
    pub fn new(put: A1, filed: A2, built: A3) -> (r: Self)
        requires
            exists|m: GaugeV| #[trigger] gauges_true_to(put, filed, built, m),
        ensures
            gauges_true(r),
            r.put == put,
            r.filed == filed,
            r.built == built,
    {
        Gauge {
            put,
            filed,
            built,
            model: Ghost(choose|m: GaugeV| #[trigger] gauges_true_to(put, filed, built, m)),
        }
    }

    pub fn do_put(&self, e: &Expr, scope: &str, imports: &Vec<(String, String)>) -> (r: Expr)
        requires
            gauges_true(*self),
        ensures
            r.deep_view() == (gauge_of(*self).put)(e.deep_view(), scope@, imports.deep_view()),
    {
        let f = &self.put;
        f(e, scope, imports)
    }

    pub fn do_filed(&self, e: &Expr, axis: usize, handed: &Vec<(String, Expr)>) -> (r: Option<i64>)
        requires
            gauges_true(*self),
        ensures
            r == (gauge_of(*self).filed)(e.deep_view(), axis, handed.deep_view()),
    {
        let f = &self.filed;
        f(e, axis, handed)
    }

    pub fn do_built(
        &self,
        e: &Expr,
        consts: &Table<Number>,
        sizes: &Table<Vec<i64>>,
        scope: &str,
        imports: &Vec<(String, String)>,
    ) -> (r: Option<Vec<i64>>)
        requires
            gauges_true(*self),
        ensures
            r.deep_view() == (gauge_of(*self).built)(e.deep_view(), consts.deep_view(), sizes.deep_view(), scope@, imports.deep_view()),
    {
        let f = &self.built;
        f(e, consts, sizes, scope, imports)
    }
}

/// A length, where a number is one: a whole number, and not a negative one.
pub open spec fn as_length(value: Number) -> Option<i64> {
    if value.is_integral() && !value.below(zero()) {
        Some(value.clipped() as i64)
    } else {
        None
    }
}

fn to_length(value: Number) -> (r: Option<i64>)
    ensures
        r == as_length(value),
{
    if value.is_whole() && !value.less(zero()) {
        Some(value.to_int())
    } else {
        None
    }
}

/// The axis a `size` asks after, counted from nought; the first where none is
/// named.
pub open spec fn axis_asked(args: Seq<ExprV>, consts: Worths, v: SumsV) -> Option<nat> {
    if args.len() < 2 {
        Some(0)
    } else {
        match evaluated(args[1], consts, v) {
            Some(axis) => if axis.counted() > 0 {
                Some((axis.counted() - 1) as nat)
            } else {
                None
            },
            None => None,
        }
    }
}

/// The length a list of them holds at a place.
pub open spec fn at_axis(shape: Seq<i64>, axis: Option<nat>) -> Option<i64> {
    match axis {
        Some(axis) => if axis < shape.len() {
            Some(shape[axis as int])
        } else {
            None
        },
        None => None,
    }
}

/// The name that a `size` asks after.
pub open spec fn measured_name(e: ExprV) -> Option<Seq<char>> {
    match e {
        ExprV::Call(name, args) => if name == "size"@ && args.len() > 0 {
            match args[0] {
                ExprV::Ref(of) => Some(of),
                _ => None,
            }
        } else {
            None
        },
        _ => None,
    }
}

/// What a `size` of a measured name comes to.
pub open spec fn size_told(e: ExprV, consts: Worths, sizes: Lengths, v: SumsV) -> Option<i64> {
    match measured_name(e) {
        Some(of) => if sizes.contains_key(of) {
            at_axis(sizes[of], axis_asked(e->Call_1, consts, v))
        } else {
            None
        },
        None => None,
    }
}

/// [`sizes_told`] of every child.
pub open spec fn kids_told(e: ExprV, consts: Worths, sizes: Lengths, v: SumsV) -> Seq<ExprV>
    decreases e, 0int,
{
    proof {
        lemma_kids_smaller(e);
    }
    Seq::new(
        kids(e).len(),
        |i: int|
            if 0 <= i < kids(e).len() {
                sizes_told(kids(e)[i], consts, sizes, v)
            } else {
                e
            },
    )
}

/// Every `size` of an already measured name, replaced by what it measures.
pub open spec fn sizes_told(e: ExprV, consts: Worths, sizes: Lengths, v: SumsV) -> ExprV
    decreases e, 1int,
{
    match size_told(e, consts, sizes, v) {
        Some(length) => ExprV::Number(nearest_to(length as int)),
        None => with_kids(e, kids_told(e, consts, sizes, v)),
    }
}

/// One array dimension as a number, or `None` when it cannot be told here.
pub open spec fn length_told(e: ExprV, consts: Worths, sizes: Lengths, v: SumsV) -> Option<i64> {
    if measured_name(e) is Some {
        size_told(e, consts, sizes, v)
    } else {
        match evaluated(sizes_told(e, consts, sizes, v), consts, v) {
            Some(value) => as_length(value),
            None => None,
        }
    }
}

fn find_axis<
    W: Fn(Arith, Number, Number) -> Number,
    O: Fn(&str, &Vec<Number>) -> Option<Vec<Number>>,
    N: Fn(&str) -> String,
>(sums: &Sums<W, O, N>, args: &Vec<Expr>, consts: &Table<Number>) -> (r: Option<u64>)
    requires
        is_steady(*sums),
    ensures
        match r {
            Some(axis) => axis_asked(args.deep_view(), consts.deep_view(), sums_of(*sums)) == Some(
                axis as nat,
            ),
            None => axis_asked(args.deep_view(), consts.deep_view(), sums_of(*sums)) is None,
        },
{
    assert(args.deep_view().len() == args@.len());
    if args.len() < 2 {
        return Some(0);
    }
    assert(args.deep_view()[1] == args@[1].deep_view());
    match const_eval(&args[1], consts, sums) {
        Some(axis) => {
            let count: u64 = axis.to_count();
            if count > 0 {
                Some(count - 1)
            } else {
                None
            }
        },
        None => None,
    }
}

fn find_measured_name(e: &Expr) -> (r: Option<String>)
    ensures
        r.deep_view() == measured_name(e.deep_view()),
{
    if let Expr::Call(name, args) = e {
        proof {
            lemma_views(*args);
        }
        if same(name.as_str(), "size") && args.len() > 0 {
            assert(args.deep_view()[0] == args@[0].deep_view());
            if let Expr::Ref(of) = &args[0] {
                return Some(of.clone());
            }
        }
    }
    None
}

fn tell_size<
    W: Fn(Arith, Number, Number) -> Number,
    O: Fn(&str, &Vec<Number>) -> Option<Vec<Number>>,
    N: Fn(&str) -> String,
>(
    sums: &Sums<W, O, N>,
    e: &Expr,
    consts: &Table<Number>,
    sizes: &Table<Vec<i64>>,
) -> (r: Option<i64>)
    requires
        is_steady(*sums),
    ensures
        r == size_told(e.deep_view(), consts.deep_view(), sizes.deep_view(), sums_of(*sums)),
{
    let of = match find_measured_name(e) {
        Some(of) => of,
        None => {
            return None;
        },
    };
    let shape = match sizes.get(of.as_str()) {
        Some(shape) => shape,
        None => {
            return None;
        },
    };
    assert(shape.deep_view() =~= shape@);
    if let Expr::Call(_, args) = e {
        proof {
            lemma_views(*args);
        }
        if let Some(axis) = find_axis(sums, args, consts) {
            if axis < shape.len() as u64 {
                return Some(shape[axis as usize]);
            }
        }
    }
    None
}

fn tell_sizes<
    W: Fn(Arith, Number, Number) -> Number,
    O: Fn(&str, &Vec<Number>) -> Option<Vec<Number>>,
    N: Fn(&str) -> String,
>(
    sums: &Sums<W, O, N>,
    expr: &Expr,
    consts: &Table<Number>,
    sizes: &Table<Vec<i64>>,
) -> (r: Expr)
    requires
        is_steady(*sums),
    ensures
        r.deep_view() == sizes_told(
            expr.deep_view(),
            consts.deep_view(),
            sizes.deep_view(),
            sums_of(*sums),
        ),
    decreases expr.deep_view(),
{
    if let Some(length) = tell_size(sums, expr, consts, sizes) {
        return make::number(from_int(length));
    }
    let ghost cv = consts.deep_view();
    let ghost sv = sizes.deep_view();
    let ghost v = sums_of(*sums);
    let ghost shape = expr.deep_view();
    let parts = expr.children();
    let mut new: Vec<Expr> = Vec::new();
    let mut i: usize = 0;
    proof {
        lemma_kids_smaller(shape);
    }
    while i < parts.len()
        invariant
            i <= parts.len(),
            is_steady(*sums),
            shape == expr.deep_view(),
            parts.deep_view() == kids(shape),
            forall|k: int|
                0 <= k < kids(shape).len() ==> (#[trigger] decreases_to!(shape => kids(shape)[k])),
            new.len() == i,
            forall|k: int|
                0 <= k < i ==> (#[trigger] new@[k]).deep_view() == sizes_told(
                    kids(shape)[k],
                    cv,
                    sv,
                    v,
                ),
            cv == consts.deep_view(),
            sv == sizes.deep_view(),
            v == sums_of(*sums),
        decreases parts.len() - i,
    {
        assert(parts.deep_view()[i as int] == parts@[i as int].deep_view());
        assert(decreases_to!(shape => kids(shape)[i as int]));
        let part: &Expr = parts[i];
        new.push(tell_sizes(sums, part, consts, sizes));
        i = i + 1;
    }
    assert(new.deep_view() =~= kids_told(shape, cv, sv, v));
    expr.with_children(new)
}

/// One array dimension as a number, or `None` when it cannot be told here: a
/// colon waiting for a call site, or a length that depends on something not
/// yet known.
pub fn dimension_value<
    W: Fn(Arith, Number, Number) -> Number,
    O: Fn(&str, &Vec<Number>) -> Option<Vec<Number>>,
    N: Fn(&str) -> String,
>(
    sums: &Sums<W, O, N>,
    expr: &Expr,
    consts: &Table<Number>,
    sizes: &Table<Vec<i64>>,
) -> (r: Option<i64>)
    requires
        is_steady(*sums),
    ensures
        r == length_told(expr.deep_view(), consts.deep_view(), sizes.deep_view(), sums_of(*sums)),
{
    if find_measured_name(expr).is_some() {
        return tell_size(sums, expr, consts, sizes);
    }
    let answered = tell_sizes(sums, expr, consts, sizes);
    match const_eval(&answered, consts, sums) {
        Some(value) => to_length(value),
        None => None,
    }
}

/// [`measured_in`] of every child.
pub open spec fn kids_measured(e: ExprV, consts: Worths, sizes: Lengths, v: SumsV) -> Seq<ExprV>
    decreases e, 0int,
{
    proof {
        lemma_kids_smaller(e);
    }
    Seq::new(
        kids(e).len(),
        |i: int|
            if 0 <= i < kids(e).len() {
                measured_in(kids(e)[i], consts, sizes, v)
            } else {
                e
            },
    )
}

/// Whether an expression asks how long something is.
pub open spec fn asks_a_size(e: ExprV) -> bool {
    e matches ExprV::Call(name, args) && name == "size"@ && 0 < args.len() <= 2
}

/// An expression with every `size` that can be told put as the number.
pub open spec fn measured_in(e: ExprV, consts: Worths, sizes: Lengths, v: SumsV) -> ExprV
    decreases e, 1int,
{
    if asks_a_size(e) && length_told(e, consts, sizes, v) is Some {
        ExprV::Number(nearest_to(length_told(e, consts, sizes, v)->0 as int))
    } else if may_hold_size(e) {
        with_kids(e, kids_measured(e, consts, sizes, v))
    } else {
        e
    }
}

/// Answer every `size` in an expression that the shapes and numbers in view
/// can answer.
pub fn measured_sizes<
    W: Fn(Arith, Number, Number) -> Number,
    O: Fn(&str, &Vec<Number>) -> Option<Vec<Number>>,
    N: Fn(&str) -> String,
>(
    sums: &Sums<W, O, N>,
    expr: &Expr,
    sizes: &Table<Vec<i64>>,
    consts: &Table<Number>,
) -> (r: Expr)
    requires
        is_steady(*sums),
    ensures
        r.deep_view() == measured_in(
            expr.deep_view(),
            consts.deep_view(),
            sizes.deep_view(),
            sums_of(*sums),
        ),
    decreases expr.deep_view(),
{
    let ghost shape = expr.deep_view();
    if let Expr::Call(name, args) = expr {
        proof {
            lemma_views(*args);
        }
        assert(args.deep_view().len() == args@.len());
        if same(name.as_str(), "size") && args.len() > 0 && args.len() <= 2 {
            if let Some(length) = dimension_value(sums, expr, consts, sizes) {
                return make::number(from_int(length));
            }
        }
    }
    if !matches!(
        expr,
        Expr::Call(..) | Expr::Array(_) | Expr::MatrixRows(_) | Expr::Neg(_) | Expr::Not(_)
            | Expr::Bin(..) | Expr::Rel(..) | Expr::And(..) | Expr::Or(..) | Expr::If(..)
    ) {
        return expr.clone();
    }
    let ghost cv = consts.deep_view();
    let ghost sv = sizes.deep_view();
    let ghost v = sums_of(*sums);
    let parts = expr.children();
    let mut new: Vec<Expr> = Vec::new();
    let mut i: usize = 0;
    proof {
        lemma_kids_smaller(shape);
    }
    while i < parts.len()
        invariant
            i <= parts.len(),
            is_steady(*sums),
            shape == expr.deep_view(),
            parts.deep_view() == kids(shape),
            forall|k: int|
                0 <= k < kids(shape).len() ==> (#[trigger] decreases_to!(shape => kids(shape)[k])),
            new.len() == i,
            forall|k: int|
                0 <= k < i ==> (#[trigger] new@[k]).deep_view() == measured_in(
                    kids(shape)[k],
                    cv,
                    sv,
                    v,
                ),
            cv == consts.deep_view(),
            sv == sizes.deep_view(),
            v == sums_of(*sums),
        decreases parts.len() - i,
    {
        assert(parts.deep_view()[i as int] == parts@[i as int].deep_view());
        assert(decreases_to!(shape => kids(shape)[i as int]));
        let part: &Expr = parts[i];
        new.push(measured_sizes(sums, part, sizes, consts));
        i = i + 1;
    }
    assert(new.deep_view() =~= kids_measured(shape, cv, sv, v));
    expr.with_children(new)
}

/// What an expression comes to where the lengths of things are part of the
/// answer: arithmetic and comparison over lengths and numbers, and nothing
/// else.
pub open spec fn settled_with(e: ExprV, consts: Worths, sizes: Lengths, v: SumsV) -> Option<Number>
    decreases e,
{
    match length_told(e, consts, sizes, v) {
        Some(length) => Some(nearest_to(length as int)),
        None => match e {
            ExprV::Number(value) => Some(value),
            ExprV::Bool(value) => Some(truth_of(value)),
            ExprV::Neg(inner) => match settled_with(*inner, consts, sizes, v) {
                Some(value) => Some(value.opposite()),
                None => None,
            },
            ExprV::Bin(op, a, b) => match (
                settled_with(*a, consts, sizes, v),
                settled_with(*b, consts, sizes, v),
            ) {
                (Some(a), Some(b)) => Some((v.work)(step_of(op), a, b)),
                _ => None,
            },
            ExprV::Rel(op, a, b) => match (
                settled_with(*a, consts, sizes, v),
                settled_with(*b, consts, sizes, v),
            ) {
                (Some(a), Some(b)) => Some(truth_of(compared(op, a, b))),
                _ => None,
            },
            ExprV::And(a, b) => match settled_with(*a, consts, sizes, v) {
                None => None,
                Some(a) => if a.is_nought() {
                    Some(truth_of(false))
                } else {
                    match settled_with(*b, consts, sizes, v) {
                        Some(b) => Some(truth_of(!b.is_nought())),
                        None => None,
                    }
                },
            },
            ExprV::Or(a, b) => match settled_with(*a, consts, sizes, v) {
                None => None,
                Some(a) => if !a.is_nought() {
                    Some(truth_of(true))
                } else {
                    match settled_with(*b, consts, sizes, v) {
                        Some(b) => Some(truth_of(!b.is_nought())),
                        None => None,
                    }
                },
            },
            ExprV::Not(inner) => match settled_with(*inner, consts, sizes, v) {
                Some(value) => Some(truth_of(value.is_nought())),
                None => None,
            },
            ExprV::If(c, a, b) => match settled_with(*c, consts, sizes, v) {
                None => None,
                Some(c) => if !c.is_nought() {
                    settled_with(*a, consts, sizes, v)
                } else {
                    settled_with(*b, consts, sizes, v)
                },
            },
            _ => None,
        },
    }
}

fn step_for(op: BinOp) -> (r: Arith)
    ensures
        r == step_of(op),
{
    match op {
        BinOp::Add => Arith::Add,
        BinOp::Sub => Arith::Sub,
        BinOp::Mul => Arith::Mul,
        BinOp::Div => Arith::Div,
        BinOp::Pow => Arith::Pow,
    }
}

fn stands(op: RelOp, a: Number, b: Number) -> (r: bool)
    ensures
        r == compared(op, a, b),
{
    match op {
        RelOp::Lt => a.less(b),
        RelOp::Le => a.less(b) || a.equals(b),
        RelOp::Gt => b.less(a),
        RelOp::Ge => b.less(a) || a.equals(b),
        RelOp::Eq => a.equals(b),
        RelOp::Ne => !a.equals(b),
    }
}

/// What an expression comes to where the lengths of things are part of the
/// answer: `size(u, 1) > 0` is a condition an `if` equation may be written on.
pub fn settled_by_shape<
    W: Fn(Arith, Number, Number) -> Number,
    O: Fn(&str, &Vec<Number>) -> Option<Vec<Number>>,
    N: Fn(&str) -> String,
>(
    sums: &Sums<W, O, N>,
    expr: &Expr,
    consts: &Table<Number>,
    sizes: &Table<Vec<i64>>,
) -> (r: Option<Number>)
    requires
        is_steady(*sums),
    ensures
        r == settled_with(
            expr.deep_view(),
            consts.deep_view(),
            sizes.deep_view(),
            sums_of(*sums),
        ),
    decreases expr.deep_view(),
{
    if let Some(length) = dimension_value(sums, expr, consts, sizes) {
        return Some(from_int(length));
    }
    match expr {
        Expr::Number(value) => Some(*value),
        Expr::Bool(value) => Some(truth(*value)),
        Expr::Neg(inner) => {
            assert((**inner).deep_view() == expr_view(**inner));
            match settled_by_shape(sums, inner, consts, sizes) {
                Some(value) => Some(value.negated()),
                None => None,
            }
        },
        Expr::Bin(op, a, b) => {
            assert((**a).deep_view() == expr_view(**a));
            assert((**b).deep_view() == expr_view(**b));
            let left = match settled_by_shape(sums, a, consts, sizes) {
                Some(left) => left,
                None => {
                    return None;
                },
            };
            match settled_by_shape(sums, b, consts, sizes) {
                Some(right) => Some(sums.step(step_for(*op), left, right)),
                None => None,
            }
        },
        Expr::Rel(op, a, b) => {
            assert((**a).deep_view() == expr_view(**a));
            assert((**b).deep_view() == expr_view(**b));
            let left = match settled_by_shape(sums, a, consts, sizes) {
                Some(left) => left,
                None => {
                    return None;
                },
            };
            match settled_by_shape(sums, b, consts, sizes) {
                Some(right) => Some(truth(stands(*op, left, right))),
                None => None,
            }
        },
        Expr::And(a, b) => {
            assert((**a).deep_view() == expr_view(**a));
            assert((**b).deep_view() == expr_view(**b));
            match settled_by_shape(sums, a, consts, sizes) {
                None => None,
                Some(left) => if left.is_zero() {
                    Some(truth(false))
                } else {
                    match settled_by_shape(sums, b, consts, sizes) {
                        Some(right) => Some(truth(!right.is_zero())),
                        None => None,
                    }
                },
            }
        },
        Expr::Or(a, b) => {
            assert((**a).deep_view() == expr_view(**a));
            assert((**b).deep_view() == expr_view(**b));
            match settled_by_shape(sums, a, consts, sizes) {
                None => None,
                Some(left) => if !left.is_zero() {
                    Some(truth(true))
                } else {
                    match settled_by_shape(sums, b, consts, sizes) {
                        Some(right) => Some(truth(!right.is_zero())),
                        None => None,
                    }
                },
            }
        },
        Expr::Not(inner) => {
            assert((**inner).deep_view() == expr_view(**inner));
            match settled_by_shape(sums, inner, consts, sizes) {
                Some(value) => Some(truth(value.is_zero())),
                None => None,
            }
        },
        Expr::If(c, a, b) => {
            assert((**c).deep_view() == expr_view(**c));
            assert((**a).deep_view() == expr_view(**a));
            assert((**b).deep_view() == expr_view(**b));
            match settled_by_shape(sums, c, consts, sizes) {
                None => None,
                Some(condition) => if !condition.is_zero() {
                    settled_by_shape(sums, a, consts, sizes)
                } else {
                    settled_by_shape(sums, b, consts, sizes)
                },
            }
        },
        _ => None,
    }
}

/// A bound of a range: a number, or a length.
pub open spec fn bound_told(e: ExprV, consts: Worths, sizes: Lengths, v: SumsV) -> Option<Number> {
    match evaluated(e, consts, v) {
        Some(value) => Some(value),
        None => match length_told(e, consts, sizes, v) {
            Some(length) => Some(nearest_to(length as int)),
            None => None,
        },
    }
}

fn tell_bound<
    W: Fn(Arith, Number, Number) -> Number,
    O: Fn(&str, &Vec<Number>) -> Option<Vec<Number>>,
    N: Fn(&str) -> String,
>(
    sums: &Sums<W, O, N>,
    e: &Expr,
    consts: &Table<Number>,
    sizes: &Table<Vec<i64>>,
) -> (r: Option<Number>)
    requires
        is_steady(*sums),
    ensures
        r == bound_told(e.deep_view(), consts.deep_view(), sizes.deep_view(), sums_of(*sums)),
{
    match const_eval(e, consts, sums) {
        Some(value) => Some(value),
        None => match dimension_value(sums, e, consts, sizes) {
            Some(length) => Some(from_int(length)),
            None => None,
        },
    }
}

/// How many steps there are from one bound to the other.
pub open spec fn steps_between(from: Number, step: Number, to: Number, v: SumsV) -> Option<i64> {
    if step.level(zero()) {
        None
    } else {
        let apart = (v.work)(Arith::Div, (v.work)(Arith::Sub, to, from), step);
        let count = (v.work)(Arith::Add, (v.work)(Arith::Floor, apart, apart), one());
        if count.is_finite() && !count.below(zero()) {
            Some(count.clipped() as i64)
        } else {
            None
        }
    }
}

/// How long a range comes to, along its one axis.
pub open spec fn range_told(
    e: ExprV,
    axis: nat,
    consts: Worths,
    sizes: Lengths,
    v: SumsV,
) -> Option<i64> {
    match e {
        ExprV::Range(from, step, to) => if axis != 0 {
            None
        } else {
            match (bound_told(*from, consts, sizes, v), bound_told(*to, consts, sizes, v)) {
                (Some(from), Some(to)) => match step {
                    None => steps_between(from, one(), to, v),
                    Some(step) => match bound_told(*step, consts, sizes, v) {
                        Some(step) => steps_between(from, step, to, v),
                        None => None,
                    },
                },
                _ => None,
            }
        },
        _ => None,
    }
}

fn count_steps<
    W: Fn(Arith, Number, Number) -> Number,
    O: Fn(&str, &Vec<Number>) -> Option<Vec<Number>>,
    N: Fn(&str) -> String,
>(sums: &Sums<W, O, N>, from: Number, step: Number, to: Number) -> (r: Option<i64>)
    requires
        is_steady(*sums),
    ensures
        r == steps_between(from, step, to, sums_of(*sums)),
{
    if step.equals(zero()) {
        return None;
    }
    let apart = sums.step(Arith::Div, sums.step(Arith::Sub, to, from), step);
    let count = sums.step(Arith::Add, sums.step(Arith::Floor, apart, apart), one());
    if count.finite() && !count.less(zero()) {
        Some(count.to_int())
    } else {
        None
    }
}

/// How long a range comes to, for a flexible `:` size read from one: nothing
/// that cannot be settled here is guessed at.
pub fn range_length<
    W: Fn(Arith, Number, Number) -> Number,
    O: Fn(&str, &Vec<Number>) -> Option<Vec<Number>>,
    N: Fn(&str) -> String,
>(
    sums: &Sums<W, O, N>,
    binding: &Expr,
    axis: usize,
    consts: &Table<Number>,
    sizes: &Table<Vec<i64>>,
) -> (r: Option<i64>)
    requires
        is_steady(*sums),
    ensures
        r == range_told(
            binding.deep_view(),
            axis as nat,
            consts.deep_view(),
            sizes.deep_view(),
            sums_of(*sums),
        ),
{
    if axis != 0 {
        return None;
    }
    if let Expr::Range(from, step, to) = binding {
        assert((**from).deep_view() == expr_view(**from));
        assert((**to).deep_view() == expr_view(**to));
        let first = match tell_bound(sums, from, consts, sizes) {
            Some(first) => first,
            None => {
                return None;
            },
        };
        let last = match tell_bound(sums, to, consts, sizes) {
            Some(last) => last,
            None => {
                return None;
            },
        };
        let by = match step {
            None => one(),
            Some(step) => {
                assert((**step).deep_view() == expr_view(**step));
                match tell_bound(sums, step, consts, sizes) {
                    Some(by) => by,
                    None => {
                        return None;
                    },
                }
            },
        };
        return count_steps(sums, first, by, last);
    }
    None
}

/// An array of the given shape, every element the same value.
pub open spec fn filled(lengths: Seq<i64>, value: ValueV) -> ValueV
    decreases lengths.len(),
{
    if lengths.len() == 0 {
        value
    } else {
        ValueV::Array(Seq::new(places(lengths[0]), |i: int| filled(lengths.drop_first(), value)))
    }
}

/// A copy of a value.
pub fn copy_value(value: &Value) -> (r: Value)
    ensures
        r.deep_view() == value.deep_view(),
    decreases value,
{
    match value {
        Value::Scalar(e) => Value::Scalar(e.clone()),
        Value::Array(items) => {
            proof {
                lemma_values(*items);
            }
            let mut out: Vec<Value> = Vec::new();
            let mut i: usize = 0;
            while i < items.len()
                invariant
                    i <= items.len(),
                    out.len() == i,
                    decreases_to!(value => items),
                    forall|k: int|
                        0 <= k < i ==> (#[trigger] out@[k]).deep_view() == items@[k].deep_view(),
                decreases items.len() - i,
            {
                assert(decreases_to!(value => items@[i as int]));
                out.push(copy_value(&items[i]));
                i = i + 1;
            }
            proof {
                lemma_values(out);
            }
            assert(out.deep_view() =~= items.deep_view());
            Value::Array(out)
        },
    }
}

/// An array of the given shape from the `at`-th length on, where what is
/// repeated is a whole value.
pub fn nested_value(lengths: &Vec<i64>, at: usize, value: &Value) -> (r: Value)
    requires
        at <= lengths@.len(),
    ensures
        r.deep_view() == filled(lengths@.skip(at as int), value.deep_view()),
    decreases lengths@.len() - at,
{
    let ghost here = lengths@.skip(at as int);
    if at == lengths.len() {
        return copy_value(value);
    }
    let total: usize = lengths.len();
    let length: i64 = lengths[at];
    assert(here[0] == length);
    assert(here.drop_first() =~= lengths@.skip(at + 1));
    let ghost vv = value.deep_view();
    let ghost whole = Seq::new(places(length), |i: int| filled(here.drop_first(), vv));
    let mut items: Vec<Value> = Vec::new();
    let mut i: i64 = 0;
    assert(items.deep_view() =~= whole.take(0));
    while i < length
        invariant
            0 <= i <= places(length),
            at < total,
            total == lengths@.len(),
            vv == value.deep_view(),
            here.drop_first() == lengths@.skip(at + 1),
            whole == Seq::new(places(length), |i: int| filled(here.drop_first(), vv)),
            items.deep_view() == whole.take(i as int),
        decreases length - i,
    {
        let ghost before = items.deep_view();
        items.push(nested_value(lengths, at + 1, value));
        assert(items.deep_view() =~= before.push(whole[i as int]));
        assert(before.push(whole[i as int]) =~= whole.take(i + 1));
        i = i + 1;
    }
    assert(whole.take(i as int) =~= whole);
    proof {
        lemma_values(items);
    }
    Value::Array(items)
}

/// An array of the given shape, every element the same expression.
pub fn nested(lengths: &Vec<i64>, value: &Expr) -> (r: Value)
    ensures
        r.deep_view() == filled(lengths@, ValueV::Scalar(value.deep_view())),
{
    assert(lengths@.skip(0) =~= lengths@);
    let whole = Value::Scalar(value.clone());
    nested_value(lengths, 0, &whole)
}

/// The parts of a value so many levels down, in order.
pub open spec fn level_of(value: ValueV, depth: nat) -> Seq<ValueV>
    decreases value, depth, 0nat,
{
    if depth == 0 {
        seq![value]
    } else {
        match value {
            ValueV::Array(items) => level_of_items(value, depth, items.len()),
            ValueV::Scalar(_) => Seq::empty(),
        }
    }
}

/// [`level_of`] one level further down, of the first `n` items.
pub open spec fn level_of_items(value: ValueV, depth: nat, n: nat) -> Seq<ValueV>
    decreases value, 0nat, n,
{
    match value {
        ValueV::Array(items) => if n == 0 || n > items.len() || depth == 0 {
            Seq::empty()
        } else {
            level_of_items(value, depth, (n - 1) as nat) + level_of(
                items[n - 1],
                (depth - 1) as nat,
            )
        },
        ValueV::Scalar(_) => Seq::empty(),
    }
}

/// Collect the parts of a value so many levels down.
pub fn levels_down(value: &Value, depth: usize, out: &mut Vec<Value>)
    ensures
        final(out).deep_view() == old(out).deep_view() + level_of(value.deep_view(), depth as nat),
    decreases value,
{
    let ghost start = out.deep_view();
    let ghost whole = value.deep_view();
    if depth == 0 {
        out.push(copy_value(value));
        assert(out.deep_view() =~= start + seq![whole]);
        return;
    }
    match value {
        Value::Scalar(_) => {
            assert(out.deep_view() =~= start + Seq::<ValueV>::empty());
        },
        Value::Array(items) => {
            proof {
                lemma_values(*items);
            }
            let mut i: usize = 0;
            assert(out.deep_view() =~= start + level_of_items(whole, depth as nat, 0));
            while i < items.len()
                invariant
                    i <= items.len(),
                    depth > 0,
                    whole == ValueV::Array(items.deep_view()),
                    decreases_to!(value => items),
                    out.deep_view() == start + level_of_items(whole, depth as nat, i as nat),
                decreases items.len() - i,
            {
                assert(decreases_to!(value => items@[i as int]));
                assert(items.deep_view()[i as int] == items@[i as int].deep_view());
                let ghost so_far = level_of_items(whole, depth as nat, i as nat);
                let ghost more = level_of(items@[i as int].deep_view(), (depth - 1) as nat);
                levels_down(&items[i], depth - 1, out);
                assert((start + so_far) + more =~= start + (so_far + more));
                i = i + 1;
            }
            assert(items.deep_view().len() == items@.len());
        },
    }
}

/// The same shapes under the instance path, since equations are prefixed
/// before they are expanded.
pub fn prefixed_sizes(sizes: &Table<Vec<i64>>, prefix: &str) -> (r: Table<Vec<i64>>)
    ensures
        r.deep_view() == all_prefixed(sizes.deep_view(), prefix@),
{
    let ghost all = sizes.entries.deep_view();
    let mut out: Table<Vec<i64>> = Table::new();
    let mut i: usize = 0;
    assert(all.take(0) =~= Seq::empty());
    assert(out.deep_view() =~= all_prefixed(entered(all.take(0)), prefix@));
    while i < sizes.entries.len()
        invariant
            i <= sizes.entries.len(),
            all == sizes.entries.deep_view(),
            out.deep_view() == all_prefixed(entered(all.take(i as int)), prefix@),
        decreases sizes.entries.len() - i,
    {
        assert(all[i as int] == sizes.entries@[i as int].deep_view());
        assert(all.take(i + 1).drop_last() =~= all.take(i as int));
        let ghost local = sizes.entries@[i as int].0@;
        let name = join2(prefix, sizes.entries[i].0.as_str());
        let ghost full = name@;
        let shape = crate::names::same_indices(&sizes.entries[i].1);
        assert(shape.deep_view() =~= sizes.entries@[i as int].1.deep_view());
        out.put(name, shape);
        proof {
            assert(full.skip(prefix@.len() as int) =~= local);
            assert(full.take(prefix@.len() as int) =~= prefix@);
            assert forall|n: Seq<char>|
                begins_with(n, prefix@) && n.skip(prefix@.len() as int) == local implies n
                == full by {
                assert(n =~= n.take(prefix@.len() as int) + n.skip(prefix@.len() as int));
            }
            assert(out.deep_view() =~= all_prefixed(entered(all.take(i + 1)), prefix@));
        }
        i = i + 1;
    }
    assert(all.take(i as int) =~= all);
    out
}

/// How many elements a constant value has along one axis, where that can be
/// told by looking.
pub open spec fn length_looked_at(e: ExprV, axis: nat, v: SumsV) -> Option<i64> {
    let stated = match e {
        ExprV::Call(name, args) => if name == "fill"@ {
            if axis + 1 < args.len() {
                Some(args[axis as int + 1])
            } else {
                None
            }
        } else if name == "zeros"@ || name == "ones"@ {
            if axis < args.len() {
                Some(args[axis as int])
            } else {
                None
            }
        } else {
            None
        },
        _ => None,
    };
    match e {
        ExprV::Array(items) => if axis == 0 {
            Some(items.len() as i64)
        } else {
            None
        },
        _ => match stated {
            None => None,
            Some(stated) => match evaluated(stated, Map::empty(), v) {
                Some(value) => as_length(value),
                None => None,
            },
        },
    }
}

/// How many elements a constant value has along one axis, where that can be
/// told by looking: an array written out, or a `fill`, a `zeros` or an `ones`.
pub fn array_length<
    W: Fn(Arith, Number, Number) -> Number,
    O: Fn(&str, &Vec<Number>) -> Option<Vec<Number>>,
    N: Fn(&str) -> String,
>(sums: &Sums<W, O, N>, expr: &Expr, axis: usize) -> (r: Option<i64>)
    requires
        is_steady(*sums),
    ensures
        r == length_looked_at(expr.deep_view(), axis as nat, sums_of(*sums)),
{
    let none: Table<Number> = Table::new();
    match expr {
        Expr::Array(items) => {
            proof {
                lemma_views(*items);
            }
            assert(items.deep_view().len() == items@.len());
            if axis == 0 {
                Some(items.len() as i64)
            } else {
                None
            }
        },
        Expr::Call(name, args) => {
            proof {
                lemma_views(*args);
            }
            assert(args.deep_view().len() == args@.len());
            let at: usize = if same(name.as_str(), "fill") {
                if axis >= args.len() || axis + 1 >= args.len() {
                    return None;
                }
                axis + 1
            } else if same(name.as_str(), "zeros") || same(name.as_str(), "ones") {
                if axis >= args.len() {
                    return None;
                }
                axis
            } else {
                return None;
            };
            assert(args.deep_view()[at as int] == args@[at as int].deep_view());
            match const_eval(&args[at], &none, sums) {
                Some(value) => to_length(value),
                None => None,
            }
        },
        _ => None,
    }
}

/// Whether a cell is plainly one number.
pub open spec fn is_plainly_one(e: ExprV) -> bool {
    match e {
        ExprV::Number(_) => true,
        ExprV::Bool(_) => true,
        ExprV::Neg(inner) => *inner is Number,
        _ => false,
    }
}

/// Whether every cell of a matrix is plainly one number, and every row as wide
/// as the first.
pub open spec fn is_plain_matrix(rows: Seq<Seq<ExprV>>) -> bool {
    &&& rows.len() > 0
    &&& forall|i: int| 0 <= i < rows.len() ==> (#[trigger] rows[i]).len() == rows[0].len()
    &&& forall|i: int, j: int|
        0 <= i < rows.len() && 0 <= j < rows[i].len() ==> is_plainly_one(#[trigger] rows[i][j])
}

/// The list that stands so many levels inside a value, by its first items.
pub open spec fn inside_first(e: ExprV, levels: nat) -> Option<ExprV>
    decreases levels,
{
    if levels == 0 {
        Some(e)
    } else {
        match e {
            ExprV::Array(items) => if items.len() > 0 {
                inside_first(items[0], (levels - 1) as nat)
            } else {
                None
            },
            _ => None,
        }
    }
}

/// The length a `fill`, `zeros` or `ones` of the language itself states.
pub open spec fn length_stated(
    classes: Seq<&ClassDef>,
    e: ExprV,
    axis: nat,
    scope: Seq<char>,
    imports: Pairs,
) -> Option<i64> {
    match e {
        ExprV::Call(name, args) => {
            let plainly = match cut_last(name, '.') {
                Some((_, tail)) => tail,
                None => name,
            };
            let at = if plainly == "fill"@ {
                Some(axis + 1)
            } else if plainly == "zeros"@ || plainly == "ones"@ {
                Some(axis)
            } else {
                None
            };
            match at {
                None => None,
                Some(at) => if meaning(classes, name, scope, imports) is None && at < args.len() {
                    match args[at as int] {
                        ExprV::Number(length) => Some(length.clipped() as i64),
                        _ => None,
                    }
                } else {
                    None
                },
            }
        },
        _ => None,
    }
}

/// How long a value written out is along an axis.
pub open spec fn flexible(
    classes: Seq<&ClassDef>,
    e: ExprV,
    axis: nat,
    scope: Seq<char>,
    imports: Pairs,
) -> Option<i64> {
    match e {
        ExprV::MatrixRows(rows) => if is_plain_matrix(rows) && axis < 2 {
            if axis == 0 {
                Some(rows.len() as i64)
            } else {
                Some(rows[0].len() as i64)
            }
        } else {
            None
        },
        _ => match length_stated(classes, e, axis, scope, imports) {
            Some(length) => Some(length),
            None => match inside_first(e, axis) {
                Some(ExprV::Array(items)) => Some(items.len() as i64),
                _ => None,
            },
        },
    }
}

fn plainly_one(e: &Expr) -> (r: bool)
    ensures
        r == is_plainly_one(e.deep_view()),
{
    match e {
        Expr::Number(_) => true,
        Expr::Bool(_) => true,
        Expr::Neg(inner) => {
            assert((**inner).deep_view() == expr_view(**inner));
            matches!(**inner, Expr::Number(_))
        },
        _ => false,
    }
}

fn row_is_plain(row: &Vec<Expr>) -> (r: bool)
    ensures
        r == (forall|j: int|
            0 <= j < row.deep_view().len() ==> is_plainly_one(#[trigger] row.deep_view()[j])),
{
    let ghost all = row.deep_view();
    let mut j: usize = 0;
    while j < row.len()
        invariant
            j <= row.len(),
            all == row.deep_view(),
            forall|k: int| 0 <= k < j ==> is_plainly_one(#[trigger] all[k]),
        decreases row.len() - j,
    {
        assert(all[j as int] == row@[j as int].deep_view());
        if !plainly_one(&row[j]) {
            return false;
        }
        j = j + 1;
    }
    true
}

fn matrix_is_plain(rows: &Vec<Vec<Expr>>) -> (r: bool)
    ensures
        r == is_plain_matrix(rows.deep_view()),
{
    let ghost all = rows.deep_view();
    if rows.len() == 0 {
        return false;
    }
    let width: usize = rows[0].len();
    assert(all[0] == rows@[0].deep_view());
    let mut i: usize = 0;
    while i < rows.len()
        invariant
            i <= rows.len(),
            rows@.len() > 0,
            all == rows.deep_view(),
            width == all[0].len(),
            forall|k: int| 0 <= k < i ==> (#[trigger] all[k]).len() == width,
            forall|k: int, j: int|
                0 <= k < i && 0 <= j < all[k].len() ==> is_plainly_one(#[trigger] all[k][j]),
        decreases rows.len() - i,
    {
        assert(all[i as int] == rows@[i as int].deep_view());
        assert(all[i as int].len() == rows@[i as int]@.len());
        if rows[i].len() != width || !row_is_plain(&rows[i]) {
            return false;
        }
        i = i + 1;
    }
    true
}

fn find_stated(
    registry: &Registry,
    e: &Expr,
    axis: usize,
    scope: &str,
    imports: &Vec<(String, String)>,
) -> (r: Option<i64>)
    ensures
        r == length_stated(registry@, e.deep_view(), axis as nat, scope@, imports.deep_view()),
{
    if let Expr::Call(name, args) = e {
        proof {
            lemma_views(*args);
        }
        assert(args.deep_view().len() == args@.len());
        let plainly = match split_last(name.as_str(), '.') {
            Some((_, tail)) => tail,
            None => name.clone(),
        };
        let at: usize = if same(plainly.as_str(), "fill") {
            if axis >= args.len() {
                return None;
            }
            axis + 1
        } else if same(plainly.as_str(), "zeros") || same(plainly.as_str(), "ones") {
            axis
        } else {
            return None;
        };
        if lookup(registry, name.as_str(), scope, imports).is_none() && at < args.len() {
            assert(args.deep_view()[at as int] == args@[at as int].deep_view());
            if let Expr::Number(length) = &args[at] {
                return Some(length.to_int());
            }
        }
    }
    None
}

fn find_inside(e: &Expr, levels: usize) -> (r: Option<i64>)
    ensures
        r == (match inside_first(e.deep_view(), levels as nat) {
            Some(ExprV::Array(items)) => Some(items.len() as i64),
            _ => None,
        }),
    decreases levels,
{
    if let Expr::Array(items) = e {
        proof {
            lemma_views(*items);
        }
        assert(items.deep_view().len() == items@.len());
        if levels == 0 {
            return Some(items.len() as i64);
        }
        if items.len() > 0 {
            assert(items.deep_view()[0] == items@[0].deep_view());
            return find_inside(&items[0], levels - 1);
        }
    }
    None
}

/// How long a value written out is along an axis, for a flexible `:` size:
/// rows of different widths are no shape at all, and are left unmeasured
/// rather than guessed at.
pub fn flexible_size(
    registry: &Registry,
    binding: &Expr,
    axis: usize,
    scope: &str,
    imports: &Vec<(String, String)>,
) -> (r: Option<i64>)
    ensures
        r == flexible(registry@, binding.deep_view(), axis as nat, scope@, imports.deep_view()),
{
    if let Expr::MatrixRows(rows) = binding {
        proof {
            lemma_rows(*rows);
        }
        if !matrix_is_plain(rows) {
            return None;
        }
        assert(rows.deep_view().len() == rows@.len());
        assert(rows.deep_view()[0] == rows@[0].deep_view());
        assert(rows.deep_view()[0].len() == rows@[0]@.len());
        return if axis == 0 {
            Some(rows.len() as i64)
        } else if axis == 1 {
            Some(rows[0].len() as i64)
        } else {
            None
        };
    }
    match find_stated(registry, binding, axis, scope, imports) {
        Some(length) => Some(length),
        None => find_inside(binding, axis),
    }
}

/// What is fixed while a class is measured.
pub ghost struct MeasureV<'a> {
    pub h: GaugeV,
    pub v: SumsV,
    pub classes: Seq<&'a ClassDef>,
    pub consts: Worths,
    pub given: Worths,
}

/// What a flexible `:` comes to: what the model handed the component beats
/// what its declaration wrote.
pub open spec fn colon_length(
    k: MeasureV,
    class: ClassDef,
    c: ComponentV,
    handed: Seq<(Seq<char>, ExprV)>,
    out: Lengths,
    axis: nat,
) -> Option<i64> {
    let value = match said_of(handed, c.name) {
        Some(value) => Some(value),
        None => c.binding,
    };
    match value {
        None => None,
        Some(binding) => match (k.h.filed)(binding, axis as usize, handed) {
            Some(length) => Some(length),
            None => match flexible(
                k.classes,
                binding,
                axis,
                class.name@,
                class.imports.deep_view(),
            ) {
                Some(length) => Some(length),
                None => match range_told(binding, axis, k.consts, out, k.v) {
                    Some(length) => Some(length),
                    None => match (k.h.built)(
                        binding,
                        k.consts,
                        out,
                        class.name@,
                        class.imports.deep_view(),
                    ) {
                        Some(shape) => at_axis(shape, Some(axis)),
                        None => None,
                    },
                },
            },
        },
    }
}

/// How many literals the enumeration of a name has.
pub open spec fn literals_of(
    classes: Seq<&ClassDef>,
    name: Seq<char>,
    class: ClassDef,
) -> Option<i64> {
    match meaning(classes, name, class.name@, class.imports.deep_view()) {
        Some(found) => if found.enumeration@.len() > 0 {
            Some(found.enumeration@.len() as i64)
        } else {
            None
        },
        None => None,
    }
}

/// What one dimension of a declaration comes to.
pub open spec fn dimension_told(
    k: MeasureV,
    class: ClassDef,
    c: ComponentV,
    handed: Seq<(Seq<char>, ExprV)>,
    out: Lengths,
    axis: nat,
) -> Option<i64> {
    let e = (k.h.put)(c.dimensions[axis as int], class.name@, class.imports.deep_view());
    if e == ExprV::Ref("Boolean"@) {
        Some(2)
    } else if k.given != Map::<Seq<char>, Number>::empty() && evaluated(e, k.given, k.v) is Some {
        Some(evaluated(e, k.given, k.v)->0.clipped() as i64)
    } else {
        match e {
            ExprV::Ref(name) => match literals_of(k.classes, name, class) {
                Some(many) => Some(many),
                None => length_told(e, k.consts, out, k.v),
            },
            ExprV::ColonSubscript => colon_length(k, class, c, handed, out, axis),
            _ => length_told(e, k.consts, out, k.v),
        }
    }
}

/// What the first `n` dimensions of a declaration come to.
pub open spec fn dimensions_told(
    k: MeasureV,
    class: ClassDef,
    c: ComponentV,
    handed: Seq<(Seq<char>, ExprV)>,
    out: Lengths,
    n: nat,
) -> Option<Seq<i64>>
    decreases n,
{
    if n == 0 {
        Some(Seq::empty())
    } else {
        match dimensions_told(k, class, c, handed, out, (n - 1) as nat) {
            None => None,
            Some(before) => match dimension_told(k, class, c, handed, out, (n - 1) as nat) {
                None => None,
                Some(length) => Some(before.push(length)),
            },
        }
    }
}

/// The lengths known once a declaration is measured.
pub open spec fn shape_put(
    k: MeasureV,
    class: ClassDef,
    prefix: Seq<char>,
    handed: Seq<(Seq<char>, ExprV)>,
    c: ComponentV,
    so_far: Lengths,
) -> Lengths {
    if c.dimensions.len() == 0 {
        so_far
    } else {
        match dimensions_told(k, class, c, handed, so_far, c.dimensions.len()) {
            Some(shape) => so_far.insert(prefix + c.name, shape),
            None => so_far,
        }
    }
}

/// The lengths known once the members of a declaration and the declaration
/// itself are measured.
pub open spec fn part_measured(
    k: MeasureV,
    class: ClassDef,
    prefix: Seq<char>,
    handed: Seq<(Seq<char>, ExprV)>,
    component: Component,
    so_far: Lengths,
    depth: nat,
) -> Lengths
    decreases MAX_DEPTH + 1 - depth, 0int, 0nat,
{
    if depth > MAX_DEPTH {
        so_far
    } else {
        let c = resolved_type(
            k.classes,
            component.deep_view(),
            class.name@,
            class.imports.deep_view(),
        );
        let below = match meaning(k.classes, c.of_type, class.name@, class.imports.deep_view()) {
            Some(of) => if of.kind == ClassKind::Record {
                class_measured(
                    k,
                    of,
                    prefix + c.name + "."@,
                    Seq::empty(),
                    so_far,
                    depth + 1,
                )
            } else {
                so_far
            },
            None => so_far,
        };
        shape_put(k, class, prefix, handed, c, below)
    }
}

/// The lengths known once the first `n` declarations of a class are measured.
pub open spec fn parts_measured(
    k: MeasureV,
    class: ClassDef,
    prefix: Seq<char>,
    handed: Seq<(Seq<char>, ExprV)>,
    start: Lengths,
    depth: nat,
    n: nat,
) -> Lengths
    decreases MAX_DEPTH + 1 - depth, 1int, n,
{
    if n == 0 || n > class.components@.len() || depth > MAX_DEPTH {
        start
    } else {
        part_measured(
            k,
            class,
            prefix,
            handed,
            class.components@[n - 1],
            parts_measured(k, class, prefix, handed, start, depth, (n - 1) as nat),
            depth,
        )
    }
}

/// The lengths known once the first `n` bases of a class are measured.
pub open spec fn bases_measured(
    k: MeasureV,
    class: ClassDef,
    prefix: Seq<char>,
    handed: Seq<(Seq<char>, ExprV)>,
    start: Lengths,
    depth: nat,
    n: nat,
) -> Lengths
    decreases MAX_DEPTH + 1 - depth, 1int, n,
{
    if n == 0 || n > class.extends@.len() || depth > MAX_DEPTH {
        start
    } else {
        let before = bases_measured(k, class, prefix, handed, start, depth, (n - 1) as nat);
        match named_base(k.classes, class, n - 1) {
            Some(base) => class_measured(k, base, prefix, handed, before, depth + 1),
            None => before,
        }
    }
}

/// The lengths known once a class is measured, its bases first.
pub open spec fn class_measured(
    k: MeasureV,
    class: ClassDef,
    prefix: Seq<char>,
    handed: Seq<(Seq<char>, ExprV)>,
    start: Lengths,
    depth: nat,
) -> Lengths
    decreases MAX_DEPTH + 1 - depth, 2int, 0nat,
{
    if depth > MAX_DEPTH {
        start
    } else {
        parts_measured(
            k,
            class,
            prefix,
            handed,
            bases_measured(k, class, prefix, handed, start, depth, class.extends@.len()),
            depth,
            class.components@.len(),
        )
    }
}

/// What is fixed while a class is measured, as it is held.
pub struct Measure<'m, 'a> {
    pub registry: &'m Registry<'a>,
    pub consts: &'m Table<Number>,
    /// What a call decided, where there is one.
    pub given: &'m Table<Number>,
}

pub open spec fn measure_of<'m, 'a,
    A1: Fn(&Expr, &str, &Vec<(String, String)>) -> Expr,
    A2: Fn(&Expr, usize, &Vec<(String, Expr)>) -> Option<i64>,
    A3: Fn(&Expr, &Table<Number>, &Table<Vec<i64>>, &str, &Vec<(String, String)>) -> Option<Vec<i64>>,
    W: Fn(Arith, Number, Number) -> Number,
    O: Fn(&str, &Vec<Number>) -> Option<Vec<Number>>,
    N: Fn(&str) -> String,
>(
    h: Gauge<A1, A2, A3>,
    sums: Sums<W, O, N>,
    q: Measure<'m, 'a>,
) -> MeasureV<'a> {
    MeasureV {
        h: gauge_of(h),
        v: sums_of(sums),
        classes: q.registry@,
        consts: q.consts.deep_view(),
        given: q.given.deep_view(),
    }
}

fn measure_colon<
    A1: Fn(&Expr, &str, &Vec<(String, String)>) -> Expr,
    A2: Fn(&Expr, usize, &Vec<(String, Expr)>) -> Option<i64>,
    A3: Fn(&Expr, &Table<Number>, &Table<Vec<i64>>, &str, &Vec<(String, String)>) -> Option<Vec<i64>>,
    W: Fn(Arith, Number, Number) -> Number,
    O: Fn(&str, &Vec<Number>) -> Option<Vec<Number>>,
    N: Fn(&str) -> String,
>(
    h: &Gauge<A1, A2, A3>,
    sums: &Sums<W, O, N>,
    q: &Measure,
    class: &ClassDef,
    c: &Component,
    handed: &Vec<(String, Expr)>,
    out: &Table<Vec<i64>>,
    axis: usize,
) -> (r: Option<i64>)
    requires
        gauges_true(*h),
        is_steady(*sums),
    ensures
        r == colon_length(
            measure_of(*h, *sums, *q),
            *class,
            c.deep_view(),
            handed.deep_view(),
            out.deep_view(),
            axis as nat,
        ),
{
    let binding: &Expr = match find_said(handed, c.name.as_str()) {
        Some(value) => value,
        None => match &c.binding {
            Some(value) => value,
            None => {
                return None;
            },
        },
    };
    if let Some(length) = h.do_filed(binding, axis, handed) {
        return Some(length);
    }
    if let Some(length) = flexible_size(
        q.registry,
        binding,
        axis,
        class.name.as_str(),
        &class.imports,
    ) {
        return Some(length);
    }
    if let Some(length) = range_length(sums, binding, axis, q.consts, out) {
        return Some(length);
    }
    match h.do_built(binding, q.consts, out, class.name.as_str(), &class.imports) {
        Some(shape) => {
            assert(shape.deep_view() =~= shape@);
            if axis < shape.len() {
                Some(shape[axis])
            } else {
                None
            }
        },
        None => None,
    }
}

fn measure_dimension<
    A1: Fn(&Expr, &str, &Vec<(String, String)>) -> Expr,
    A2: Fn(&Expr, usize, &Vec<(String, Expr)>) -> Option<i64>,
    A3: Fn(&Expr, &Table<Number>, &Table<Vec<i64>>, &str, &Vec<(String, String)>) -> Option<Vec<i64>>,
    W: Fn(Arith, Number, Number) -> Number,
    O: Fn(&str, &Vec<Number>) -> Option<Vec<Number>>,
    N: Fn(&str) -> String,
>(
    h: &Gauge<A1, A2, A3>,
    sums: &Sums<W, O, N>,
    q: &Measure,
    class: &ClassDef,
    c: &Component,
    handed: &Vec<(String, Expr)>,
    out: &Table<Vec<i64>>,
    axis: usize,
) -> (r: Option<i64>)
    requires
        gauges_true(*h),
        is_steady(*sums),
        axis < c.dimensions@.len(),
    ensures
        r == dimension_told(
            measure_of(*h, *sums, *q),
            *class,
            c.deep_view(),
            handed.deep_view(),
            out.deep_view(),
            axis as nat,
        ),
{
    assert(c.dimensions.deep_view()[axis as int] == c.dimensions@[axis as int].deep_view());
    let e = h.do_put(&c.dimensions[axis], class.name.as_str(), &class.imports);
    let ghost ev = e.deep_view();
    if let Expr::Ref(name) = &e {
        if same(name.as_str(), "Boolean") {
            return Some(2);
        }
    }
    assert(ev != ExprV::Ref("Boolean"@));
    if !q.given.is_empty() {
        if let Some(length) = const_eval(&e, q.given, sums) {
            return Some(length.to_int());
        }
    }
    match &e {
        Expr::Ref(name) => {
            if let Some(found) = lookup(
                q.registry,
                name.as_str(),
                class.name.as_str(),
                &class.imports,
            ) {
                if found.enumeration.len() > 0 {
                    return Some(found.enumeration.len() as i64);
                }
            }
            dimension_value(sums, &e, q.consts, out)
        },
        Expr::ColonSubscript => measure_colon(h, sums, q, class, c, handed, out, axis),
        _ => dimension_value(sums, &e, q.consts, out),
    }
}

proof fn lemma_dimensions_stop(
    k: MeasureV,
    class: ClassDef,
    c: ComponentV,
    handed: Seq<(Seq<char>, ExprV)>,
    out: Lengths,
    n: nat,
    all: nat,
)
    requires
        n <= all,
        dimensions_told(k, class, c, handed, out, n) is None,
    ensures
        dimensions_told(k, class, c, handed, out, all) is None,
    decreases all - n,
{
    if n < all {
        lemma_dimensions_stop(k, class, c, handed, out, n, (all - 1) as nat);
    }
}

fn put_shape<
    A1: Fn(&Expr, &str, &Vec<(String, String)>) -> Expr,
    A2: Fn(&Expr, usize, &Vec<(String, Expr)>) -> Option<i64>,
    A3: Fn(&Expr, &Table<Number>, &Table<Vec<i64>>, &str, &Vec<(String, String)>) -> Option<Vec<i64>>,
    W: Fn(Arith, Number, Number) -> Number,
    O: Fn(&str, &Vec<Number>) -> Option<Vec<Number>>,
    N: Fn(&str) -> String,
>(
    h: &Gauge<A1, A2, A3>,
    sums: &Sums<W, O, N>,
    q: &Measure,
    class: &ClassDef,
    prefix: &str,
    handed: &Vec<(String, Expr)>,
    c: &Component,
    out: &mut Table<Vec<i64>>,
)
    requires
        gauges_true(*h),
        is_steady(*sums),
    ensures
        final(out).deep_view() == shape_put(
            measure_of(*h, *sums, *q),
            *class,
            prefix@,
            handed.deep_view(),
            c.deep_view(),
            old(out).deep_view(),
        ),
{
    let ghost k = measure_of(*h, *sums, *q);
    let ghost cv = c.deep_view();
    let ghost hv = handed.deep_view();
    let ghost start = out.deep_view();
    assert(c.dimensions.deep_view().len() == c.dimensions@.len());
    if c.dimensions.len() == 0 {
        return;
    }
    let mut shape: Vec<i64> = Vec::new();
    let mut axis: usize = 0;
    assert(shape@ =~= Seq::empty());
    while axis < c.dimensions.len()
        invariant
            axis <= c.dimensions.len(),
            gauges_true(*h),
            is_steady(*sums),
            k == measure_of(*h, *sums, *q),
            cv == c.deep_view(),
            hv == handed.deep_view(),
            start == out.deep_view(),
            start == old(out).deep_view(),
            cv.dimensions.len() == c.dimensions@.len(),
            cv.dimensions.len() > 0,
            dimensions_told(k, *class, cv, hv, start, axis as nat) == Some(shape@),
        decreases c.dimensions.len() - axis,
    {
        match measure_dimension(h, sums, q, class, c, handed, out, axis) {
            Some(length) => {
                shape.push(length);
            },
            None => {
                proof {
                    lemma_dimensions_stop(
                        k,
                        *class,
                        cv,
                        hv,
                        start,
                        (axis + 1) as nat,
                        cv.dimensions.len(),
                    );
                }
                return;
            },
        }
        axis = axis + 1;
    }
    assert(shape.deep_view() =~= shape@);
    out.put(join2(prefix, c.name.as_str()), shape);
}

/// Measure every array component of a class and of its bases, and the members
/// of its records, told what the class was handed.
///
/// A flexible `:` length is read from the value a component is given, and a
/// value handed down beats the one the declaration wrote. Declarations are
/// visited in source order, so a length written as `size(v, 1)` can look up a
/// `v` already measured.
pub fn collect_shapes_under<
    A1: Fn(&Expr, &str, &Vec<(String, String)>) -> Expr,
    A2: Fn(&Expr, usize, &Vec<(String, Expr)>) -> Option<i64>,
    A3: Fn(&Expr, &Table<Number>, &Table<Vec<i64>>, &str, &Vec<(String, String)>) -> Option<Vec<i64>>,
    W: Fn(Arith, Number, Number) -> Number,
    O: Fn(&str, &Vec<Number>) -> Option<Vec<Number>>,
    N: Fn(&str) -> String,
>(
    h: &Gauge<A1, A2, A3>,
    sums: &Sums<W, O, N>,
    q: &Measure,
    class: &ClassDef,
    prefix: &str,
    handed: &Vec<(String, Expr)>,
    out: &mut Table<Vec<i64>>,
    depth: usize,
)
    requires
        gauges_true(*h),
        is_steady(*sums),
    ensures
        final(out).deep_view() == class_measured(
            measure_of(*h, *sums, *q),
            *class,
            prefix@,
            handed.deep_view(),
            old(out).deep_view(),
            depth as nat,
        ),
    decreases MAX_DEPTH + 1 - depth,
{
    if depth > MAX_DEPTH {
        return;
    }
    let ghost k = measure_of(*h, *sums, *q);
    let ghost hv = handed.deep_view();
    let ghost start = out.deep_view();
    let mut i: usize = 0;
    while i < class.extends.len()
        invariant
            i <= class.extends.len(),
            depth <= MAX_DEPTH,
            gauges_true(*h),
            is_steady(*sums),
            k == measure_of(*h, *sums, *q),
            hv == handed.deep_view(),
            out.deep_view() == bases_measured(
                k,
                *class,
                prefix@,
                hv,
                start,
                depth as nat,
                i as nat,
            ),
        decreases class.extends.len() - i,
    {
        let found = lookup(
            q.registry,
            class.extends[i].base.as_str(),
            class.name.as_str(),
            &class.imports,
        );
        if let Some(base) = found {
            collect_shapes_under(h, sums, q, base, prefix, handed, out, depth + 1);
        }
        i = i + 1;
    }
    let ghost inherited = out.deep_view();
    let none: Vec<(String, Expr)> = Vec::new();
    assert(none.deep_view() =~= Seq::empty());
    let mut i: usize = 0;
    while i < class.components.len()
        invariant
            i <= class.components.len(),
            depth <= MAX_DEPTH,
            gauges_true(*h),
            is_steady(*sums),
            k == measure_of(*h, *sums, *q),
            hv == handed.deep_view(),
            none.deep_view() == Seq::<(Seq<char>, ExprV)>::empty(),
            out.deep_view() == parts_measured(
                k,
                *class,
                prefix@,
                hv,
                inherited,
                depth as nat,
                i as nat,
            ),
        decreases class.components.len() - i,
    {
        let ghost before = out.deep_view();
        let mut c = class.components[i].clone();
        resolve_type(q.registry, &mut c, class.name.as_str(), &class.imports);
        let found = lookup(
            q.registry,
            c.of_type.as_str(),
            class.name.as_str(),
            &class.imports,
        );
        if let Some(of) = found {
            if of.kind == ClassKind::Record {
                let below = join3(prefix, c.name.as_str(), ".");
                collect_shapes_under(h, sums, q, of, below.as_str(), &none, out, depth + 1);
            }
        }
        put_shape(h, sums, q, class, prefix, handed, &c, out);
        assert(out.deep_view() == part_measured(
            k,
            *class,
            prefix@,
            hv,
            class.components@[i as int],
            before,
            depth as nat,
        ));
        i = i + 1;
    }
}

/// The dimensions of every array component of a class and of its bases, told
/// what the class was handed.
pub fn collect_shapes_given<
    A1: Fn(&Expr, &str, &Vec<(String, String)>) -> Expr,
    A2: Fn(&Expr, usize, &Vec<(String, Expr)>) -> Option<i64>,
    A3: Fn(&Expr, &Table<Number>, &Table<Vec<i64>>, &str, &Vec<(String, String)>) -> Option<Vec<i64>>,
    W: Fn(Arith, Number, Number) -> Number,
    O: Fn(&str, &Vec<Number>) -> Option<Vec<Number>>,
    N: Fn(&str) -> String,
>(
    h: &Gauge<A1, A2, A3>,
    sums: &Sums<W, O, N>,
    q: &Measure,
    class: &ClassDef,
    handed: &Vec<(String, Expr)>,
    out: &mut Table<Vec<i64>>,
    depth: usize,
)
    requires
        gauges_true(*h),
        is_steady(*sums),
    ensures
        final(out).deep_view() == class_measured(
            measure_of(*h, *sums, *q),
            *class,
            ""@,
            handed.deep_view(),
            old(out).deep_view(),
            depth as nat,
        ),
{
    collect_shapes_under(h, sums, q, class, "", handed, out, depth)
}

/// The dimensions of every array component of a class and of its bases.
pub fn collect_shapes<
    A1: Fn(&Expr, &str, &Vec<(String, String)>) -> Expr,
    A2: Fn(&Expr, usize, &Vec<(String, Expr)>) -> Option<i64>,
    A3: Fn(&Expr, &Table<Number>, &Table<Vec<i64>>, &str, &Vec<(String, String)>) -> Option<Vec<i64>>,
    W: Fn(Arith, Number, Number) -> Number,
    O: Fn(&str, &Vec<Number>) -> Option<Vec<Number>>,
    N: Fn(&str) -> String,
>(
    h: &Gauge<A1, A2, A3>,
    sums: &Sums<W, O, N>,
    q: &Measure,
    class: &ClassDef,
    out: &mut Table<Vec<i64>>,
    depth: usize,
)
    requires
        gauges_true(*h),
        is_steady(*sums),
    ensures
        final(out).deep_view() == class_measured(
            measure_of(*h, *sums, *q),
            *class,
            ""@,
            Seq::empty(),
            old(out).deep_view(),
            depth as nat,
        ),
{
    let none: Vec<(String, Expr)> = Vec::new();
    assert(none.deep_view() =~= Seq::empty());
    collect_shapes_under(h, sums, q, class, "", &none, out, depth)
}

/// What a component was handed beats what its declaration wrote: the length of a
/// `:` is read off the value that is handed down, whatever the declaration says.
pub proof fn law_a_handed_value_decides_a_length(
    k: MeasureV,
    class: ClassDef,
    c: ComponentV,
    other: Option<ExprV>,
    handed: Seq<(Seq<char>, ExprV)>,
    out: Lengths,
    axis: nat,
)
    requires
        said_of(handed, c.name) is Some,
    ensures
        colon_length(k, class, c, handed, out, axis) == colon_length(
            k,
            class,
            ComponentV { binding: other, ..c },
            handed,
            out,
            axis,
        ),
{
}

/// A list that is handed down is as long as it is written, where no file
/// answers for it.
pub proof fn law_a_list_handed_down_is_as_long_as_it_is(
    k: MeasureV,
    class: ClassDef,
    c: ComponentV,
    items: Seq<ExprV>,
    handed: Seq<(Seq<char>, ExprV)>,
    out: Lengths,
)
    requires
        said_of(handed, c.name) == Some(ExprV::Array(items)),
        (k.h.filed)(ExprV::Array(items), 0, handed) is None,
        length_stated(
            k.classes,
            ExprV::Array(items),
            0,
            class.name@,
            class.imports.deep_view(),
        ) is None,
    ensures
        colon_length(k, class, c, handed, out, 0) == Some(items.len() as i64),
{
}

}
