//! Folding what can already be seen: array dimensions, loop bounds,
//! subscripts.
use crate::expr::{expr_view, kids, lemma_kids_smaller, lemma_views, BinOp, Expr, ExprV, RelOp};
use crate::number::{larger, larger_of, one, smaller, smaller_of, truth, truth_of, Number};
use crate::sums::{is_steady, list_of, sums_of, Arith, Sums, SumsV};
use crate::table::Table;
use crate::text::same;
use vstd::prelude::*;

verus! {

/// What the names in view are worth.
pub type Worths = Map<Seq<char>, Number>;

/// What a comparison comes to.
pub open spec fn compared(op: RelOp, a: Number, b: Number) -> bool {
    match op {
        RelOp::Lt => a.below(b),
        RelOp::Le => a.below(b) || a.level(b),
        RelOp::Gt => b.below(a),
        RelOp::Ge => b.below(a) || a.level(b),
        RelOp::Eq => a.level(b),
        RelOp::Ne => !a.level(b),
    }
}

fn compare(op: RelOp, a: Number, b: Number) -> (r: bool)
    ensures
        r == compared(op, a, b),
{
    match op {
        RelOp::Lt => a.less(b),
        RelOp::Le => a.less(b) || a.equals(b),
        RelOp::Gt => b.less(a),
        RelOp::Ge => b.less(a) || a.equals(b),
        RelOp::Eq => a.equals(b),
        RelOp::Ne => !a.equals(b),
    }
}

pub open spec fn step_of(op: BinOp) -> Arith {
    match op {
        BinOp::Add => Arith::Add,
        BinOp::Sub => Arith::Sub,
        BinOp::Mul => Arith::Mul,
        BinOp::Div => Arith::Div,
        BinOp::Pow => Arith::Pow,
    }
}

fn find_step(op: BinOp) -> (r: Arith)
    ensures
        r == step_of(op),
{
    match op {
        BinOp::Add => Arith::Add,
        BinOp::Sub => Arith::Sub,
        BinOp::Mul => Arith::Mul,
        BinOp::Div => Arith::Div,
        BinOp::Pow => Arith::Pow,
    }
}

/// The numeric operators of one operand that are one step of arithmetic.
pub open spec fn unary_step(name: Seq<char>) -> Option<Arith> {
    if name == "sqrt"@ {
        Some(Arith::Sqrt)
    } else if name == "exp"@ {
        Some(Arith::Exp)
    } else if name == "log"@ {
        Some(Arith::Log)
    } else if name == "log10"@ {
        Some(Arith::Log10)
    } else if name == "sin"@ {
        Some(Arith::Sin)
    } else if name == "cos"@ {
        Some(Arith::Cos)
    } else if name == "tan"@ {
        Some(Arith::Tan)
    } else if name == "asin"@ {
        Some(Arith::Asin)
    } else if name == "acos"@ {
        Some(Arith::Acos)
    } else if name == "atan"@ {
        Some(Arith::Atan)
    } else if name == "sinh"@ {
        Some(Arith::Sinh)
    } else if name == "cosh"@ {
        Some(Arith::Cosh)
    } else if name == "tanh"@ {
        Some(Arith::Tanh)
    } else if name == "floor"@ || name == "integer"@ {
        Some(Arith::Floor)
    } else if name == "ceil"@ {
        Some(Arith::Ceil)
    } else {
        None
    }
}

fn find_unary(name: &str) -> (r: Option<Arith>)
    ensures
        r == unary_step(name@),
{
    if same(name, "sqrt") {
        Some(Arith::Sqrt)
    } else if same(name, "exp") {
        Some(Arith::Exp)
    } else if same(name, "log") {
        Some(Arith::Log)
    } else if same(name, "log10") {
        Some(Arith::Log10)
    } else if same(name, "sin") {
        Some(Arith::Sin)
    } else if same(name, "cos") {
        Some(Arith::Cos)
    } else if same(name, "tan") {
        Some(Arith::Tan)
    } else if same(name, "asin") {
        Some(Arith::Asin)
    } else if same(name, "acos") {
        Some(Arith::Acos)
    } else if same(name, "atan") {
        Some(Arith::Atan)
    } else if same(name, "sinh") {
        Some(Arith::Sinh)
    } else if same(name, "cosh") {
        Some(Arith::Cosh)
    } else if same(name, "tanh") {
        Some(Arith::Tanh)
    } else if same(name, "floor") || same(name, "integer") {
        Some(Arith::Floor)
    } else if same(name, "ceil") {
        Some(Arith::Ceil)
    } else {
        None
    }
}

/// What an operator of one operand comes to. An enumeration is carried as its
/// ordinal, so `Integer` of one leaves it as it is.
pub open spec fn unary(name: Seq<char>, a: Number, v: SumsV) -> Option<Number> {
    if name == "abs"@ {
        Some(a.unsigned())
    } else if name == "Integer"@ {
        Some(a)
    } else {
        match unary_step(name) {
            Some(op) => Some((v.work)(op, a, a)),
            None => None,
        }
    }
}

pub open spec fn is_unary(name: Seq<char>) -> bool {
    name == "abs"@ || name == "Integer"@ || unary_step(name) is Some
}

pub open spec fn is_binary(name: Seq<char>) -> bool {
    name == "atan2"@ || name == "min"@ || name == "max"@ || name == "div"@ || name == "mod"@
        || name == "rem"@
}

/// What an operator of two operands comes to.
pub open spec fn binary(name: Seq<char>, a: Number, b: Number, v: SumsV) -> Option<Number> {
    let quotient = (v.work)(Arith::Div, a, b);
    if name == "atan2"@ {
        Some((v.work)(Arith::Atan2, a, b))
    } else if name == "min"@ {
        Some(smaller_of(a, b))
    } else if name == "max"@ {
        Some(larger_of(a, b))
    } else if name == "div"@ {
        Some((v.work)(Arith::Trunc, quotient, quotient))
    } else if name == "mod"@ {
        let down = (v.work)(Arith::Floor, quotient, quotient);
        Some((v.work)(Arith::Sub, a, (v.work)(Arith::Mul, down, b)))
    } else if name == "rem"@ {
        let cut = (v.work)(Arith::Trunc, quotient, quotient);
        Some((v.work)(Arith::Sub, a, (v.work)(Arith::Mul, cut, b)))
    } else {
        None
    }
}

fn work_unary<
    W: Fn(Arith, Number, Number) -> Number,
    O: Fn(&str, &Vec<Number>) -> Option<Vec<Number>>,
    N: Fn(&str) -> String,
>(name: &str, a: Number, sums: &Sums<W, O, N>) -> (r: Option<Number>)
    requires
        is_steady(*sums),
    ensures
        r == unary(name@, a, sums_of(*sums)),
{
    if same(name, "abs") {
        Some(a.without_sign())
    } else if same(name, "Integer") {
        Some(a)
    } else {
        match find_unary(name) {
            Some(op) => Some(sums.step(op, a, a)),
            None => None,
        }
    }
}

fn work_binary<
    W: Fn(Arith, Number, Number) -> Number,
    O: Fn(&str, &Vec<Number>) -> Option<Vec<Number>>,
    N: Fn(&str) -> String,
>(name: &str, a: Number, b: Number, sums: &Sums<W, O, N>) -> (r: Option<Number>)
    requires
        is_steady(*sums),
    ensures
        r == binary(name@, a, b, sums_of(*sums)),
{
    if same(name, "atan2") {
        Some(sums.step(Arith::Atan2, a, b))
    } else if same(name, "min") {
        Some(smaller(a, b))
    } else if same(name, "max") {
        Some(larger(a, b))
    } else if same(name, "div") {
        let quotient = sums.step(Arith::Div, a, b);
        Some(sums.step(Arith::Trunc, quotient, quotient))
    } else if same(name, "mod") {
        let quotient = sums.step(Arith::Div, a, b);
        let down = sums.step(Arith::Floor, quotient, quotient);
        let whole = sums.step(Arith::Mul, down, b);
        Some(sums.step(Arith::Sub, a, whole))
    } else if same(name, "rem") {
        let quotient = sums.step(Arith::Div, a, b);
        let cut = sums.step(Arith::Trunc, quotient, quotient);
        let whole = sums.step(Arith::Mul, cut, b);
        Some(sums.step(Arith::Sub, a, whole))
    } else {
        None
    }
}

/// The largest or the smallest of a list of numbers.
pub open spec fn outermost(largest: bool, list: Seq<Number>) -> Number
    decreases list.len(),
{
    if list.len() <= 1 {
        list[0]
    } else if largest {
        larger_of(outermost(largest, list.drop_last()), list.last())
    } else {
        smaller_of(outermost(largest, list.drop_last()), list.last())
    }
}

pub fn find_outermost(largest: bool, list: &Vec<Number>) -> (r: Number)
    requires
        list.len() > 0,
    ensures
        r == outermost(largest, list@),
{
    let mut out: Number = list[0];
    let mut i: usize = 1;
    while i < list.len()
        invariant
            1 <= i <= list.len(),
            out == outermost(largest, list@.take(i as int)),
        decreases list.len() - i,
    {
        assert(list@.take(i + 1).drop_last() =~= list@.take(i as int));
        out = if largest {
            larger(out, list[i])
        } else {
            smaller(out, list[i])
        };
        i = i + 1;
    }
    assert(list@.take(i as int) =~= list@);
    out
}

/// What a constant expression is worth, where it is one.
///
/// What does not bear on the value is not asked for: `false and x` is false
/// whatever `x` is, and a condition that is settled leaves the other branch
/// alone.
pub open spec fn evaluated(e: ExprV, env: Worths, v: SumsV) -> Option<Number>
    decreases e, 0int, 0int,
{
    match e {
        ExprV::Number(n) => Some(n),
        ExprV::Bool(b) => Some(truth_of(b)),
        ExprV::Ref(name) => if env.contains_key(name) {
            Some(env[name])
        } else {
            None
        },
        ExprV::Neg(inner) => match evaluated(*inner, env, v) {
            Some(value) => Some(value.opposite()),
            None => None,
        },
        ExprV::Not(inner) => match evaluated(*inner, env, v) {
            Some(value) => Some(truth_of(value.is_nought())),
            None => None,
        },
        ExprV::And(l, r) => match evaluated(*l, env, v) {
            Some(a) => if a.is_nought() {
                Some(truth_of(false))
            } else {
                match evaluated(*r, env, v) {
                    Some(b) => Some(truth_of(!b.is_nought())),
                    None => None,
                }
            },
            None => None,
        },
        ExprV::Or(l, r) => match evaluated(*l, env, v) {
            Some(a) => if !a.is_nought() {
                Some(truth_of(true))
            } else {
                match evaluated(*r, env, v) {
                    Some(b) => Some(truth_of(!b.is_nought())),
                    None => None,
                }
            },
            None => None,
        },
        ExprV::Rel(op, l, r) => match (evaluated(*l, env, v), evaluated(*r, env, v)) {
            (Some(a), Some(b)) => Some(truth_of(compared(op, a, b))),
            _ => None,
        },
        ExprV::If(c, a, b) => match evaluated(*c, env, v) {
            Some(yes) => if !yes.is_nought() {
                evaluated(*a, env, v)
            } else {
                evaluated(*b, env, v)
            },
            None => None,
        },
        ExprV::Bin(op, l, r) => match (evaluated(*l, env, v), evaluated(*r, env, v)) {
            (Some(a), Some(b)) => Some((v.work)(step_of(op), a, b)),
            _ => None,
        },
        ExprV::Index(base, subscripts) => if subscripts.len() == 1 {
            match *base {
                ExprV::Call(called, args) => match (
                    given(args, args.len(), env, v),
                    evaluated(subscripts[0], env, v),
                ) {
                    (Some(list), Some(which)) => picked_answer(
                        (v.answer)(called, list),
                        which.clipped(),
                    ),
                    _ => None,
                },
                _ => None,
            }
        } else {
            None
        },
        ExprV::Call(name, args) => {
            let plain = (v.plain)(name);
            if (plain == "min"@ || plain == "max"@) && args.len() == 1 {
                match flattened(args[0], env, v) {
                    Some(list) => if list.len() > 0 {
                        Some(outermost(plain == "max"@, list))
                    } else {
                        None
                    },
                    None => None,
                }
            } else if is_unary(plain) && args.len() > 0 {
                match evaluated(args[0], env, v) {
                    Some(a) => unary(plain, a, v),
                    None => None,
                }
            } else if is_binary(plain) && args.len() > 1 {
                match (evaluated(args[0], env, v), evaluated(args[1], env, v)) {
                    (Some(a), Some(b)) => binary(plain, a, b, v),
                    _ => None,
                }
            } else {
                None
            }
        },
        _ => None,
    }
}

/// The place of an answer that a subscript counting from one takes.
pub open spec fn picked_answer(answer: Option<Seq<Number>>, which: int) -> Option<Number> {
    match answer {
        Some(list) => if 1 <= which <= list.len() {
            Some(list[which - 1])
        } else {
            None
        },
        None => None,
    }
}

/// What the first `n` arguments of a call are worth, an array laid out.
pub open spec fn given(args: Seq<ExprV>, n: nat, env: Worths, v: SumsV) -> Option<Seq<Number>>
    decreases args, 1int, n,
{
    if n == 0 || n > args.len() {
        Some(Seq::empty())
    } else {
        match (given(args, (n - 1) as nat, env, v), laid_out(args[n - 1], env, v)) {
            (Some(before), Some(more)) => Some(before + more),
            _ => None,
        }
    }
}

/// What one argument is worth: an array as each of its items.
pub open spec fn laid_out(e: ExprV, env: Worths, v: SumsV) -> Option<Seq<Number>>
    decreases e, 2int, 0int,
{
    match e {
        ExprV::Array(items) => each(items, items.len(), env, v),
        _ => match evaluated(e, env, v) {
            Some(value) => Some(seq![value]),
            None => None,
        },
    }
}

/// What the first `n` of a list are worth.
pub open spec fn each(items: Seq<ExprV>, n: nat, env: Worths, v: SumsV) -> Option<Seq<Number>>
    decreases items, 1int, n,
{
    if n == 0 || n > items.len() {
        Some(Seq::empty())
    } else {
        match (each(items, (n - 1) as nat, env, v), evaluated(items[n - 1], env, v)) {
            (Some(before), Some(value)) => Some(before.push(value)),
            _ => None,
        }
    }
}

/// Every number a value written out holds, however deeply it nests.
pub open spec fn flattened(e: ExprV, env: Worths, v: SumsV) -> Option<Seq<Number>>
    decreases e, 2int, 0int,
{
    if e is Array || e is MatrixRows {
        kids_flattened(e, kids(e).len(), env, v)
    } else {
        match evaluated(e, env, v) {
            Some(value) => Some(seq![value]),
            None => None,
        }
    }
}

/// The same over the first `n` children.
pub open spec fn kids_flattened(e: ExprV, n: nat, env: Worths, v: SumsV) -> Option<Seq<Number>>
    decreases e, 1int, n,
{
    proof {
        lemma_kids_smaller(e);
    }
    if n == 0 || n > kids(e).len() {
        Some(Seq::empty())
    } else {
        match (kids_flattened(e, (n - 1) as nat, env, v), flattened(kids(e)[n - 1], env, v)) {
            (Some(before), Some(more)) => Some(before + more),
            _ => None,
        }
    }
}

proof fn lemma_given_stops(args: Seq<ExprV>, n: nat, all: nat, env: Worths, v: SumsV)
    requires
        n <= all <= args.len(),
        given(args, n, env, v) is None,
    ensures
        given(args, all, env, v) is None,
    decreases all,
{
    if n < all {
        lemma_given_stops(args, n, (all - 1) as nat, env, v);
    }
}

proof fn lemma_each_stops(items: Seq<ExprV>, n: nat, all: nat, env: Worths, v: SumsV)
    requires
        n <= all <= items.len(),
        each(items, n, env, v) is None,
    ensures
        each(items, all, env, v) is None,
    decreases all,
{
    if n < all {
        lemma_each_stops(items, n, (all - 1) as nat, env, v);
    }
}

proof fn lemma_flattened_stops(e: ExprV, n: nat, all: nat, env: Worths, v: SumsV)
    requires
        n <= all <= kids(e).len(),
        kids_flattened(e, n, env, v) is None,
    ensures
        kids_flattened(e, all, env, v) is None,
    decreases all,
{
    if n < all {
        lemma_flattened_stops(e, n, (all - 1) as nat, env, v);
    }
}

fn fold_each<
    W: Fn(Arith, Number, Number) -> Number,
    O: Fn(&str, &Vec<Number>) -> Option<Vec<Number>>,
    N: Fn(&str) -> String,
>(items: &Vec<Expr>, env: &Table<Number>, sums: &Sums<W, O, N>) -> (r: Option<Vec<Number>>)
    requires
        is_steady(*sums),
    ensures
        list_of(r) == each(
            items.deep_view(),
            items.deep_view().len(),
            env.deep_view(),
            sums_of(*sums),
        ),
    decreases items.deep_view(), 1int, items@.len(),
{
    let ghost all = items.deep_view();
    let mut out: Vec<Number> = Vec::new();
    let mut i: usize = 0;
    while i < items.len()
        invariant
            is_steady(*sums),
            i <= items.len(),
            all == items.deep_view(),
            each(all, i as nat, env.deep_view(), sums_of(*sums)) == Some(out@),
        decreases items.len() - i,
    {
        assert(all[i as int] == items@[i as int].deep_view());
        match const_eval(&items[i], env, sums) {
            Some(value) => {
                out.push(value);
            },
            None => {
                proof {
                    lemma_each_stops(
                        all,
                        (i + 1) as nat,
                        all.len(),
                        env.deep_view(),
                        sums_of(*sums),
                    );
                }
                return None;
            },
        }
        i = i + 1;
    }
    Some(out)
}

fn fold_given<
    W: Fn(Arith, Number, Number) -> Number,
    O: Fn(&str, &Vec<Number>) -> Option<Vec<Number>>,
    N: Fn(&str) -> String,
>(args: &Vec<Expr>, env: &Table<Number>, sums: &Sums<W, O, N>) -> (r: Option<Vec<Number>>)
    requires
        is_steady(*sums),
    ensures
        list_of(r) == given(
            args.deep_view(),
            args.deep_view().len(),
            env.deep_view(),
            sums_of(*sums),
        ),
    decreases args.deep_view(), 1int, args@.len(),
{
    let ghost all = args.deep_view();
    let mut out: Vec<Number> = Vec::new();
    let mut i: usize = 0;
    while i < args.len()
        invariant
            is_steady(*sums),
            i <= args.len(),
            all == args.deep_view(),
            given(all, i as nat, env.deep_view(), sums_of(*sums)) == Some(out@),
        decreases args.len() - i,
    {
        assert(all[i as int] == args@[i as int].deep_view());
        let more = match &args[i] {
            Expr::Array(items) => {
                proof {
                    lemma_views(*items);
                }
                assert(all[i as int] == ExprV::Array(items.deep_view()));
                assert(decreases_to!(all => all[i as int]));
                fold_each(items, env, sums)
            },
            plain => match const_eval(plain, env, sums) {
                Some(value) => {
                    let mut one: Vec<Number> = Vec::new();
                    one.push(value);
                    assert(one@ =~= seq![value]);
                    Some(one)
                },
                None => None,
            },
        };
        assert(list_of(more) == laid_out(all[i as int], env.deep_view(), sums_of(*sums)));
        match more {
            Some(mut more) => {
                out.append(&mut more);
            },
            None => {
                proof {
                    lemma_given_stops(
                        all,
                        (i + 1) as nat,
                        all.len(),
                        env.deep_view(),
                        sums_of(*sums),
                    );
                }
                return None;
            },
        }
        i = i + 1;
    }
    Some(out)
}

/// Every number a value written out holds, however deeply it nests.
///
/// `[a; b]` is a matrix of two rows and `{a, b}` a list of two, and `min` and
/// `max` of either is over all the numbers in it.
pub fn flat_numbers<
    W: Fn(Arith, Number, Number) -> Number,
    O: Fn(&str, &Vec<Number>) -> Option<Vec<Number>>,
    N: Fn(&str) -> String,
>(expr: &Expr, env: &Table<Number>, sums: &Sums<W, O, N>) -> (r: Option<Vec<Number>>)
    requires
        is_steady(*sums),
    ensures
        list_of(r) == flattened(expr.deep_view(), env.deep_view(), sums_of(*sums)),
    decreases expr.deep_view(), 2int, 0int,
{
    let ghost shape = expr.deep_view();
    let mut out: Vec<Number> = Vec::new();
    if !matches!(expr, Expr::Array(_) | Expr::MatrixRows(_)) {
        return match const_eval(expr, env, sums) {
            Some(value) => {
                out.push(value);
                assert(out@ =~= seq![value]);
                Some(out)
            },
            None => None,
        };
    }
    let below = expr.children();
    let mut i: usize = 0;
    proof {
        lemma_kids_smaller(shape);
    }
    while i < below.len()
        invariant
            is_steady(*sums),
            i <= below.len(),
            shape == expr.deep_view(),
            shape is Array || shape is MatrixRows,
            below.deep_view() == kids(shape),
            forall|k: int|
                0 <= k < kids(shape).len() ==> (#[trigger] decreases_to!(shape => kids(shape)[k])),
            kids_flattened(shape, i as nat, env.deep_view(), sums_of(*sums)) == Some(out@),
        decreases below.len() - i,
    {
        assert(below.deep_view()[i as int] == below@[i as int].deep_view());
        assert(decreases_to!(shape => kids(shape)[i as int]));
        match flat_numbers(below[i], env, sums) {
            Some(mut more) => {
                out.append(&mut more);
            },
            None => {
                proof {
                    lemma_flattened_stops(
                        shape,
                        (i + 1) as nat,
                        kids(shape).len(),
                        env.deep_view(),
                        sums_of(*sums),
                    );
                }
                return None;
            },
        }
        i = i + 1;
    }
    Some(out)
}

fn fold_call<
    W: Fn(Arith, Number, Number) -> Number,
    O: Fn(&str, &Vec<Number>) -> Option<Vec<Number>>,
    N: Fn(&str) -> String,
>(name: &str, args: &Vec<Expr>, env: &Table<Number>, sums: &Sums<W, O, N>) -> (r: Option<Number>)
    requires
        is_steady(*sums),
    ensures
        r == evaluated(ExprV::Call(name@, args.deep_view()), env.deep_view(), sums_of(*sums)),
    decreases args.deep_view(), 1int, args@.len(),
{
    let ghost v = sums_of(*sums);
    let plain = sums.plainly(name);
    let least: bool = same(plain.as_str(), "min");
    let largest: bool = same(plain.as_str(), "max");
    if (least || largest) && args.len() == 1 {
        assert(args.deep_view()[0] == args@[0].deep_view());
        return match flat_numbers(&args[0], env, sums) {
            Some(list) => if list.len() > 0 {
                Some(find_outermost(largest, &list))
            } else {
                None
            },
            None => None,
        };
    }
    if args.len() == 0 {
        return None;
    }
    assert(args.deep_view()[0] == args@[0].deep_view());
    let first = const_eval(&args[0], env, sums);
    let alone: bool = same(plain.as_str(), "abs") || same(plain.as_str(), "Integer")
        || find_unary(plain.as_str()).is_some();
    if alone {
        return match first {
            Some(a) => work_unary(plain.as_str(), a, sums),
            None => None,
        };
    }
    if args.len() < 2 {
        return None;
    }
    assert(args.deep_view()[1] == args@[1].deep_view());
    let second = const_eval(&args[1], env, sums);
    match (first, second) {
        (Some(a), Some(b)) => work_binary(plain.as_str(), a, b, sums),
        _ => None,
    }
}

/// Evaluate a compile-time constant expression (array dimensions, loop
/// bounds, subscripts). Only the arithmetic that can appear there is
/// supported; anything else means the value is not constant.
pub fn const_eval<
    W: Fn(Arith, Number, Number) -> Number,
    O: Fn(&str, &Vec<Number>) -> Option<Vec<Number>>,
    N: Fn(&str) -> String,
>(expr: &Expr, env: &Table<Number>, sums: &Sums<W, O, N>) -> (r: Option<Number>)
    requires
        is_steady(*sums),
    ensures
        r == evaluated(expr.deep_view(), env.deep_view(), sums_of(*sums)),
    decreases expr.deep_view(), 0int, 0int,
{
    match expr {
        Expr::Number(n) => Some(*n),
        Expr::Bool(b) => Some(truth(*b)),
        Expr::Ref(name) => match env.get(name.as_str()) {
            Some(value) => Some(*value),
            None => None,
        },
        Expr::Neg(inner) => {
            assert((**inner).deep_view() == expr_view(**inner));
            match const_eval(inner, env, sums) {
                Some(value) => Some(value.negated()),
                None => None,
            }
        },
        Expr::Not(inner) => {
            assert((**inner).deep_view() == expr_view(**inner));
            match const_eval(inner, env, sums) {
                Some(value) => Some(truth(value.is_zero())),
                None => None,
            }
        },
        Expr::And(l, r) => {
            assert((**l).deep_view() == expr_view(**l));
            assert((**r).deep_view() == expr_view(**r));
            match const_eval(l, env, sums) {
                Some(a) => if a.is_zero() {
                    Some(truth(false))
                } else {
                    match const_eval(r, env, sums) {
                        Some(b) => Some(truth(!b.is_zero())),
                        None => None,
                    }
                },
                None => None,
            }
        },
        Expr::Or(l, r) => {
            assert((**l).deep_view() == expr_view(**l));
            assert((**r).deep_view() == expr_view(**r));
            match const_eval(l, env, sums) {
                Some(a) => if !a.is_zero() {
                    Some(truth(true))
                } else {
                    match const_eval(r, env, sums) {
                        Some(b) => Some(truth(!b.is_zero())),
                        None => None,
                    }
                },
                None => None,
            }
        },
        Expr::Rel(op, l, r) => {
            assert((**l).deep_view() == expr_view(**l));
            assert((**r).deep_view() == expr_view(**r));
            match (const_eval(l, env, sums), const_eval(r, env, sums)) {
                (Some(a), Some(b)) => Some(truth(compare(*op, a, b))),
                _ => None,
            }
        },
        Expr::If(c, a, b) => {
            assert((**c).deep_view() == expr_view(**c));
            assert((**a).deep_view() == expr_view(**a));
            assert((**b).deep_view() == expr_view(**b));
            match const_eval(c, env, sums) {
                Some(yes) => if !yes.is_zero() {
                    const_eval(a, env, sums)
                } else {
                    const_eval(b, env, sums)
                },
                None => None,
            }
        },
        Expr::Bin(op, l, r) => {
            assert((**l).deep_view() == expr_view(**l));
            assert((**r).deep_view() == expr_view(**r));
            match (const_eval(l, env, sums), const_eval(r, env, sums)) {
                (Some(a), Some(b)) => Some(sums.step(find_step(*op), a, b)),
                _ => None,
            }
        },
        Expr::Index(base, subscripts) => {
            proof {
                lemma_views(*subscripts);
            }
            assert((**base).deep_view() == expr_view(**base));
            if subscripts.len() != 1 {
                return None;
            }
            assert(subscripts.deep_view()[0] == subscripts@[0].deep_view());
            match &**base {
                Expr::Call(called, args) => {
                    proof {
                        lemma_views(*args);
                    }
                    let list = match fold_given(args, env, sums) {
                        Some(list) => list,
                        None => return None,
                    };
                    let which: i64 = match const_eval(&subscripts[0], env, sums) {
                        Some(which) => which.to_int(),
                        None => return None,
                    };
                    match sums.ask(called.as_str(), &list) {
                        Some(answer) => if which >= 1 && which as u64 <= answer.len() as u64 {
                            Some(answer[(which - 1) as usize])
                        } else {
                            None
                        },
                        None => None,
                    }
                },
                _ => None,
            }
        },
        Expr::Call(name, args) => {
            proof {
                lemma_views(*args);
            }
            fold_call(name.as_str(), args, env, sums)
        },
        _ => None,
    }
}

/// Whether every name that is known is known for the same number among more.
pub open spec fn knows_as_much(env: Worths, more: Worths) -> bool {
    forall|name: Seq<char>| #[trigger]
        env.contains_key(name) ==> more.contains_key(name) && more[name] == env[name]
}

/// A value that is worked out stays what it is where more names are known.
pub proof fn law_more_names_keep_a_value(e: ExprV, env: Worths, more: Worths, v: SumsV)
    requires
        knows_as_much(env, more),
    ensures
        evaluated(e, env, v) is Some ==> evaluated(e, more, v) == evaluated(e, env, v),
    decreases e, 0int, 0int,
{
    match e {
        ExprV::Neg(inner) => law_more_names_keep_a_value(*inner, env, more, v),
        ExprV::Not(inner) => law_more_names_keep_a_value(*inner, env, more, v),
        ExprV::And(l, r) => {
            law_more_names_keep_a_value(*l, env, more, v);
            law_more_names_keep_a_value(*r, env, more, v);
        },
        ExprV::Or(l, r) => {
            law_more_names_keep_a_value(*l, env, more, v);
            law_more_names_keep_a_value(*r, env, more, v);
        },
        ExprV::Rel(_, l, r) => {
            law_more_names_keep_a_value(*l, env, more, v);
            law_more_names_keep_a_value(*r, env, more, v);
        },
        ExprV::If(c, a, b) => {
            law_more_names_keep_a_value(*c, env, more, v);
            law_more_names_keep_a_value(*a, env, more, v);
            law_more_names_keep_a_value(*b, env, more, v);
        },
        ExprV::Bin(_, l, r) => {
            law_more_names_keep_a_value(*l, env, more, v);
            law_more_names_keep_a_value(*r, env, more, v);
        },
        ExprV::Index(base, subscripts) => if subscripts.len() == 1 {
            law_more_names_keep_a_value(subscripts[0], env, more, v);
            if let ExprV::Call(_, args) = *base {
                lemma_given_keeps(args, args.len(), env, more, v);
            }
        },
        ExprV::Call(_, args) => {
            if args.len() > 0 {
                law_more_names_keep_a_value(args[0], env, more, v);
                lemma_flattened_keeps(args[0], env, more, v);
            }
            if args.len() > 1 {
                law_more_names_keep_a_value(args[1], env, more, v);
            }
        },
        _ => {},
    }
}

proof fn lemma_given_keeps(args: Seq<ExprV>, n: nat, env: Worths, more: Worths, v: SumsV)
    requires
        knows_as_much(env, more),
    ensures
        given(args, n, env, v) is Some ==> given(args, n, more, v) == given(args, n, env, v),
    decreases args, 1int, n,
{
    if n > 0 && n <= args.len() {
        lemma_given_keeps(args, (n - 1) as nat, env, more, v);
        let e = args[n - 1];
        if let ExprV::Array(items) = e {
            lemma_each_keeps(items, items.len(), env, more, v);
        } else {
            law_more_names_keep_a_value(e, env, more, v);
        }
        assert(laid_out(e, env, v) is Some ==> laid_out(e, more, v) == laid_out(e, env, v));
    }
}

proof fn lemma_each_keeps(items: Seq<ExprV>, n: nat, env: Worths, more: Worths, v: SumsV)
    requires
        knows_as_much(env, more),
    ensures
        each(items, n, env, v) is Some ==> each(items, n, more, v) == each(items, n, env, v),
    decreases items, 1int, n,
{
    if n > 0 && n <= items.len() {
        lemma_each_keeps(items, (n - 1) as nat, env, more, v);
        law_more_names_keep_a_value(items[n - 1], env, more, v);
    }
}

proof fn lemma_flattened_keeps(e: ExprV, env: Worths, more: Worths, v: SumsV)
    requires
        knows_as_much(env, more),
    ensures
        flattened(e, env, v) is Some ==> flattened(e, more, v) == flattened(e, env, v),
    decreases e, 2int, 0int,
{
    if e is Array || e is MatrixRows {
        lemma_kids_flattened_keeps(e, kids(e).len(), env, more, v);
    } else {
        law_more_names_keep_a_value(e, env, more, v);
    }
}

proof fn lemma_kids_flattened_keeps(e: ExprV, n: nat, env: Worths, more: Worths, v: SumsV)
    requires
        knows_as_much(env, more),
    ensures
        kids_flattened(e, n, env, v) is Some ==> kids_flattened(e, n, more, v) == kids_flattened(
            e,
            n,
            env,
            v,
        ),
    decreases e, 1int, n,
{
    lemma_kids_smaller(e);
    if n > 0 && n <= kids(e).len() {
        lemma_kids_flattened_keeps(e, (n - 1) as nat, env, more, v);
        lemma_flattened_keeps(kids(e)[n - 1], env, more, v);
    }
}

}
