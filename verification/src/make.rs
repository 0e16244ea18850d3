//! Putting expressions together.
use crate::expr::{expr_view, lemma_views, BinOp, Expr, ExprV, RelOp};
use crate::number::Number;
use vstd::prelude::*;

verus! {

pub fn name(text: String) -> (r: Expr)
    ensures
        r.deep_view() == ExprV::Ref(text@),
{
    Expr::Ref(text)
}

pub fn number(value: Number) -> (r: Expr)
    ensures
        r.deep_view() == ExprV::Number(value),
{
    Expr::Number(value)
}

pub fn boolean(value: bool) -> (r: Expr)
    ensures
        r.deep_view() == ExprV::Bool(value),
{
    Expr::Bool(value)
}

pub fn neg(a: Expr) -> (r: Expr)
    ensures
        r.deep_view() == ExprV::Neg(Box::new(a.deep_view())),
{
    Expr::Neg(Box::new(a))
}

pub fn not(a: Expr) -> (r: Expr)
    ensures
        r.deep_view() == ExprV::Not(Box::new(a.deep_view())),
{
    Expr::Not(Box::new(a))
}

pub fn bin(op: BinOp, a: Expr, b: Expr) -> (r: Expr)
    ensures
        r.deep_view() == ExprV::Bin(op, Box::new(a.deep_view()), Box::new(b.deep_view())),
{
    Expr::Bin(op, Box::new(a), Box::new(b))
}

pub fn rel(op: RelOp, a: Expr, b: Expr) -> (r: Expr)
    ensures
        r.deep_view() == ExprV::Rel(op, Box::new(a.deep_view()), Box::new(b.deep_view())),
{
    Expr::Rel(op, Box::new(a), Box::new(b))
}

pub fn and(a: Expr, b: Expr) -> (r: Expr)
    ensures
        r.deep_view() == ExprV::And(Box::new(a.deep_view()), Box::new(b.deep_view())),
{
    Expr::And(Box::new(a), Box::new(b))
}

pub fn or(a: Expr, b: Expr) -> (r: Expr)
    ensures
        r.deep_view() == ExprV::Or(Box::new(a.deep_view()), Box::new(b.deep_view())),
{
    Expr::Or(Box::new(a), Box::new(b))
}

pub fn either(c: Expr, a: Expr, b: Expr) -> (r: Expr)
    ensures
        r.deep_view() == ExprV::If(
            Box::new(c.deep_view()),
            Box::new(a.deep_view()),
            Box::new(b.deep_view()),
        ),
{
    Expr::If(Box::new(c), Box::new(a), Box::new(b))
}

pub fn call(called: &str, args: Vec<Expr>) -> (r: Expr)
    ensures
        r.deep_view() == ExprV::Call(called@, args.deep_view()),
{
    proof {
        lemma_views(args);
    }
    Expr::Call(called.to_owned(), args)
}

pub fn call1(called: &str, a: Expr) -> (r: Expr)
    ensures
        r.deep_view() == ExprV::Call(called@, seq![a.deep_view()]),
{
    let mut args: Vec<Expr> = Vec::new();
    args.push(a);
    assert(args.deep_view() =~= seq![a.deep_view()]);
    call(called, args)
}

pub fn call2(called: &str, a: Expr, b: Expr) -> (r: Expr)
    ensures
        r.deep_view() == ExprV::Call(called@, seq![a.deep_view(), b.deep_view()]),
{
    let mut args: Vec<Expr> = Vec::new();
    args.push(a);
    args.push(b);
    assert(args.deep_view() =~= seq![a.deep_view(), b.deep_view()]);
    call(called, args)
}

pub fn array(items: Vec<Expr>) -> (r: Expr)
    ensures
        r.deep_view() == ExprV::Array(items.deep_view()),
{
    proof {
        lemma_views(items);
    }
    Expr::Array(items)
}

pub fn index(base: Expr, subscripts: Vec<Expr>) -> (r: Expr)
    ensures
        r.deep_view() == ExprV::Index(Box::new(base.deep_view()), subscripts.deep_view()),
{
    proof {
        lemma_views(subscripts);
    }
    assert(base.deep_view() == expr_view(base));
    Expr::Index(Box::new(base), subscripts)
}

pub fn with_derivative(value: Expr, rule: Expr, seeds: Vec<(String, Expr)>) -> (r: Expr)
    ensures
        r.deep_view() == ExprV::WithDerivative(
            Box::new(value.deep_view()),
            Box::new(rule.deep_view()),
            seeds.deep_view(),
        ),
{
    assert(value.deep_view() == expr_view(value));
    assert(rule.deep_view() == expr_view(rule));
    let ghost named = seeds.deep_view();
    let out = Expr::WithDerivative(Box::new(value), Box::new(rule), seeds);
    assert(named =~= expr_view(out)->WithDerivative_2);
    out
}

}
