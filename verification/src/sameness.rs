//! When two expressions are the same: the same form, and the same parts in the
//! same places. Numbers are the same where they compare equal, so a NaN is the
//! same as nothing and the two zeros are the same.
use crate::expr::{kids, lemma_kids_smaller, lemma_rows, lemma_tuple_view, lemma_views, Expr, ExprV};
use crate::text::same;
use vstd::prelude::*;

verus! {

/// Whether two expressions are the same but for the expressions they are made
/// of: the same operator, the same names, and parts in the same places.
pub open spec fn same_form(a: ExprV, b: ExprV) -> bool {
    match (a, b) {
        (ExprV::Number(_), ExprV::Number(_)) => true,
        (ExprV::Bool(x), ExprV::Bool(y)) => x == y,
        (ExprV::Str(x), ExprV::Str(y)) => x == y,
        (ExprV::Ref(x), ExprV::Ref(y)) => x == y,
        (ExprV::Time, ExprV::Time) => true,
        (ExprV::Neg(_), ExprV::Neg(_)) => true,
        (ExprV::Not(_), ExprV::Not(_)) => true,
        (ExprV::Bin(o, _, _), ExprV::Bin(p, _, _)) => o == p,
        (ExprV::Elementwise(o, _, _), ExprV::Elementwise(p, _, _)) => o == p,
        (ExprV::Rel(o, _, _), ExprV::Rel(p, _, _)) => o == p,
        (ExprV::And(_, _), ExprV::And(_, _)) => true,
        (ExprV::Or(_, _), ExprV::Or(_, _)) => true,
        (ExprV::If(_, _, _), ExprV::If(_, _, _)) => true,
        (ExprV::Call(f, x), ExprV::Call(g, y)) => f == g && x.len() == y.len(),
        (ExprV::Index(_, x), ExprV::Index(_, y)) => x.len() == y.len(),
        (ExprV::Member(_, m), ExprV::Member(_, n)) => m == n,
        (ExprV::Array(x), ExprV::Array(y)) => x.len() == y.len(),
        (ExprV::MatrixRows(x), ExprV::MatrixRows(y)) => x.len() == y.len() && forall|i: int|
            0 <= i < x.len() ==> (#[trigger] x[i]).len() == y[i].len(),
        (ExprV::Range(_, s, _), ExprV::Range(_, t, _)) => s is Some == t is Some,
        (ExprV::Comprehension(_, v, _), ExprV::Comprehension(_, w, _)) => v == w,
        (ExprV::ColonSubscript, ExprV::ColonSubscript) => true,
        (ExprV::EndSubscript, ExprV::EndSubscript) => true,
        (ExprV::NamedArg(m, _), ExprV::NamedArg(n, _)) => m == n,
        (ExprV::Tuple(x), ExprV::Tuple(y)) => x.len() == y.len() && forall|i: int|
            0 <= i < x.len() ==> (#[trigger] x[i]) is Some == y[i] is Some,
        (ExprV::WithDerivative(_, _, x), ExprV::WithDerivative(_, _, y)) => same_names(x, y),
        _ => false,
    }
}

/// Whether two expressions are the same.
pub open spec fn alike(a: ExprV, b: ExprV) -> bool
    decreases a,
{
    proof {
        lemma_kids_smaller(a);
    }
    match (a, b) {
        (ExprV::Number(x), ExprV::Number(y)) => x.level(y),
        _ => same_form(a, b) && kids(a).len() == kids(b).len() && forall|i: int|
            0 <= i < kids(a).len() ==> alike(#[trigger] kids(a)[i], kids(b)[i]),
    }
}

fn has_same_form(a: &Expr, b: &Expr) -> (r: bool)
    ensures
        r == same_form(a.deep_view(), b.deep_view()),
{
    match a {
        Expr::Number(_) => match b {
            Expr::Number(_) => true,
            _ => false,
        },
        Expr::Bool(x) => match b {
            Expr::Bool(y) => *x == *y,
            _ => false,
        },
        Expr::Str(x) => match b {
            Expr::Str(y) => same(x.as_str(), y.as_str()),
            _ => false,
        },
        Expr::Ref(x) => match b {
            Expr::Ref(y) => same(x.as_str(), y.as_str()),
            _ => false,
        },
        Expr::Time => match b {
            Expr::Time => true,
            _ => false,
        },
        Expr::Neg(_) => match b {
            Expr::Neg(_) => true,
            _ => false,
        },
        Expr::Not(_) => match b {
            Expr::Not(_) => true,
            _ => false,
        },
        Expr::Bin(o, _, _) => match b {
            Expr::Bin(p, _, _) => *o == *p,
            _ => false,
        },
        Expr::Elementwise(o, _, _) => match b {
            Expr::Elementwise(p, _, _) => *o == *p,
            _ => false,
        },
        Expr::Rel(o, _, _) => match b {
            Expr::Rel(p, _, _) => *o == *p,
            _ => false,
        },
        Expr::And(_, _) => match b {
            Expr::And(_, _) => true,
            _ => false,
        },
        Expr::Or(_, _) => match b {
            Expr::Or(_, _) => true,
            _ => false,
        },
        Expr::If(_, _, _) => match b {
            Expr::If(_, _, _) => true,
            _ => false,
        },
        Expr::Call(f, x) => match b {
            Expr::Call(g, y) => {
                proof {
                    lemma_views(*x);
                    lemma_views(*y);
                }
                same(f.as_str(), g.as_str()) && x.len() == y.len()
            },
            _ => false,
        },
        Expr::Index(_, x) => match b {
            Expr::Index(_, y) => {
                proof {
                    lemma_views(*x);
                    lemma_views(*y);
                }
                x.len() == y.len()
            },
            _ => false,
        },
        Expr::Member(_, m) => match b {
            Expr::Member(_, n) => same(m.as_str(), n.as_str()),
            _ => false,
        },
        Expr::Array(x) => match b {
            Expr::Array(y) => {
                proof {
                    lemma_views(*x);
                    lemma_views(*y);
                }
                x.len() == y.len()
            },
            _ => false,
        },
        Expr::MatrixRows(x) => match b {
            Expr::MatrixRows(y) => {
                proof {
                    lemma_rows(*x);
                    lemma_rows(*y);
                }
                have_same_rows(x, y)
            },
            _ => false,
        },
        Expr::Range(_, s, _) => match b {
            Expr::Range(_, t, _) => s.is_some() == t.is_some(),
            _ => false,
        },
        Expr::Comprehension(_, v, _) => match b {
            Expr::Comprehension(_, w, _) => same(v.as_str(), w.as_str()),
            _ => false,
        },
        Expr::ColonSubscript => match b {
            Expr::ColonSubscript => true,
            _ => false,
        },
        Expr::EndSubscript => match b {
            Expr::EndSubscript => true,
            _ => false,
        },
        Expr::NamedArg(m, _) => match b {
            Expr::NamedArg(n, _) => same(m.as_str(), n.as_str()),
            _ => false,
        },
        Expr::Tuple(x) => match b {
            Expr::Tuple(y) => {
                proof {
                    lemma_tuple_view(*x);
                    lemma_tuple_view(*y);
                }
                have_same_places(x, y)
            },
            _ => false,
        },
        Expr::WithDerivative(_, _, x) => match b {
            Expr::WithDerivative(_, _, y) => {
                assert(a.deep_view()->WithDerivative_2 =~= x.deep_view());
                assert(b.deep_view()->WithDerivative_2 =~= y.deep_view());
                have_same_names(x, y)
            },
            _ => false,
        },
    }
}

/// Whether two lists name the same things in the same order.
pub open spec fn same_names(x: Seq<(Seq<char>, ExprV)>, y: Seq<(Seq<char>, ExprV)>) -> bool {
    x.len() == y.len() && forall|i: int| 0 <= i < x.len() ==> (#[trigger] x[i]).0 == y[i].0
}

fn have_same_names(x: &Vec<(String, Expr)>, y: &Vec<(String, Expr)>) -> (r: bool)
    ensures
        r == same_names(x.deep_view(), y.deep_view()),
{
    let ghost xv = x.deep_view();
    let ghost yv = y.deep_view();
    assert(xv.len() == x@.len());
    assert(yv.len() == y@.len());
    if x.len() != y.len() {
        return false;
    }
    let mut i: usize = 0;
    while i < x.len()
        invariant
            i <= x.len(),
            x.len() == y.len(),
            xv == x.deep_view(),
            yv == y.deep_view(),
            xv.len() == x@.len(),
            yv.len() == y@.len(),
            forall|k: int| 0 <= k < i ==> (#[trigger] xv[k]).0 == yv[k].0,
        decreases x.len() - i,
    {
        assert(xv[i as int] == x@[i as int].deep_view());
        assert(yv[i as int] == y@[i as int].deep_view());
        if !same(x[i].0.as_str(), y[i].0.as_str()) {
            return false;
        }
        i = i + 1;
    }
    true
}

fn have_same_rows(x: &Vec<Vec<Expr>>, y: &Vec<Vec<Expr>>) -> (r: bool)
    ensures
        r == same_form(ExprV::MatrixRows(x.deep_view()), ExprV::MatrixRows(y.deep_view())),
{
    let ghost xv = x.deep_view();
    let ghost yv = y.deep_view();
    assert(xv.len() == x@.len());
    assert(yv.len() == y@.len());
    if x.len() != y.len() {
        return false;
    }
    let mut i: usize = 0;
    while i < x.len()
        invariant
            i <= x.len(),
            x.len() == y.len(),
            xv == x.deep_view(),
            yv == y.deep_view(),
            xv.len() == x@.len(),
            yv.len() == y@.len(),
            forall|k: int| 0 <= k < i ==> (#[trigger] xv[k]).len() == yv[k].len(),
        decreases x.len() - i,
    {
        assert(xv[i as int] == x@[i as int].deep_view());
        assert(yv[i as int] == y@[i as int].deep_view());
        if x[i].len() != y[i].len() {
            return false;
        }
        i = i + 1;
    }
    true
}

fn have_same_places(x: &Vec<Option<Expr>>, y: &Vec<Option<Expr>>) -> (r: bool)
    ensures
        r == same_form(ExprV::Tuple(x.deep_view()), ExprV::Tuple(y.deep_view())),
{
    let ghost xv = x.deep_view();
    let ghost yv = y.deep_view();
    assert(xv.len() == x@.len());
    assert(yv.len() == y@.len());
    if x.len() != y.len() {
        return false;
    }
    let mut i: usize = 0;
    while i < x.len()
        invariant
            i <= x.len(),
            x.len() == y.len(),
            xv == x.deep_view(),
            yv == y.deep_view(),
            xv.len() == x@.len(),
            yv.len() == y@.len(),
            forall|k: int| 0 <= k < i ==> (#[trigger] xv[k]) is Some == yv[k] is Some,
        decreases x.len() - i,
    {
        assert(xv[i as int] == x@[i as int].deep_view());
        assert(yv[i as int] == y@[i as int].deep_view());
        if x[i].is_some() != y[i].is_some() {
            return false;
        }
        i = i + 1;
    }
    true
}

/// Whether two expressions are the same: the same form, and the same parts in
/// the same places.
pub fn are_alike(a: &Expr, b: &Expr) -> (r: bool)
    ensures
        r == alike(a.deep_view(), b.deep_view()),
    decreases a.deep_view(),
{
    let ghost av = a.deep_view();
    let ghost bv = b.deep_view();
    if let (Expr::Number(x), Expr::Number(y)) = (a, b) {
        return x.equals(*y);
    }
    assert(!(av is Number && bv is Number));
    if !has_same_form(a, b) {
        return false;
    }
    let xs = a.children();
    let ys = b.children();
    assert(kids(av).len() == xs@.len());
    assert(kids(bv).len() == ys@.len());
    if xs.len() != ys.len() {
        return false;
    }
    proof {
        lemma_kids_smaller(av);
    }
    let mut i: usize = 0;
    while i < xs.len()
        invariant
            i <= xs.len(),
            xs.len() == ys.len(),
            av == a.deep_view(),
            bv == b.deep_view(),
            !(av is Number && bv is Number),
            same_form(av, bv),
            xs.deep_view() == kids(av),
            ys.deep_view() == kids(bv),
            forall|k: int|
                0 <= k < kids(av).len() ==> (#[trigger] decreases_to!(av => kids(av)[k])),
            forall|k: int| 0 <= k < i ==> alike(#[trigger] kids(av)[k], kids(bv)[k]),
        decreases xs.len() - i,
    {
        assert(xs.deep_view()[i as int] == xs@[i as int].deep_view());
        assert(ys.deep_view()[i as int] == ys@[i as int].deep_view());
        assert(decreases_to!(av => kids(av)[i as int]));
        let x: &Expr = xs[i];
        let y: &Expr = ys[i];
        if !are_alike(x, y) {
            assert(!alike(kids(av)[i as int], kids(bv)[i as int]));
            return false;
        }
        i = i + 1;
    }
    true
}

/// Whether no number an expression holds is a NaN.
pub open spec fn holds_no_nan(e: ExprV) -> bool
    decreases e,
{
    proof {
        lemma_kids_smaller(e);
    }
    (e matches ExprV::Number(n) ==> !n.is_nan()) && forall|i: int|
        0 <= i < kids(e).len() ==> holds_no_nan(#[trigger] kids(e)[i])
}

/// An expression is the same as itself, unless it holds a NaN.
pub proof fn law_an_expression_is_itself(e: ExprV)
    requires
        holds_no_nan(e),
    ensures
        alike(e, e),
    decreases e,
{
    lemma_kids_smaller(e);
    assert forall|i: int| 0 <= i < kids(e).len() implies alike(#[trigger] kids(e)[i], kids(e)[i]) by {
        assert(holds_no_nan(kids(e)[i]));
        assert(decreases_to!(e => kids(e)[i]));
        law_an_expression_is_itself(kids(e)[i]);
    }
}

/// Being the same goes both ways.
pub proof fn law_sameness_goes_both_ways(a: ExprV, b: ExprV)
    requires
        alike(a, b),
    ensures
        alike(b, a),
    decreases a,
{
    lemma_kids_smaller(a);
    assert forall|i: int| 0 <= i < kids(b).len() implies alike(#[trigger] kids(b)[i], kids(a)[i]) by {
        assert(alike(kids(a)[i], kids(b)[i]));
        assert(decreases_to!(a => kids(a)[i]));
        law_sameness_goes_both_ways(kids(a)[i], kids(b)[i]);
    }
    match (a, b) {
        (ExprV::MatrixRows(x), ExprV::MatrixRows(y)) => {
            assert forall|i: int| 0 <= i < y.len() implies (#[trigger] y[i]).len() == x[i].len() by {
                assert(x[i].len() == y[i].len());
            }
        },
        (ExprV::Tuple(x), ExprV::Tuple(y)) => {
            assert forall|i: int| 0 <= i < y.len() implies (#[trigger] y[i]) is Some == x[i] is Some by {
                assert(x[i] is Some == y[i] is Some);
            }
        },
        (ExprV::WithDerivative(_, _, x), ExprV::WithDerivative(_, _, y)) => {
            assert forall|i: int| 0 <= i < y.len() implies (#[trigger] y[i]).0 == x[i].0 by {
                assert(x[i].0 == y[i].0);
            }
        },
        _ => {},
    }
}

}
