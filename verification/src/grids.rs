//! Tables written as a grid: a second abscissa along the top row, a first down
//! the left column, and a value at every crossing.
use crate::expr::{told, BinOp, Expr, ExprV, RelOp};
use crate::make;
use crate::number::{from_count, nearest, one, zero, Number};
use crate::sums::{is_steady, sums_of, Arith, Sums, SumsV};
use crate::text::{join3, join5, join7, signed, whole};
use vstd::prelude::*;

verus! {

/// How a table is read between its points.
#[derive(Clone, Copy, Debug, PartialEq, Eq, Structural)]
pub enum Smoothness {
    Linear,
    Constant,
    Akima,
    Other(i64),
}

/// What a table says beyond its points.
#[derive(Clone, Copy, Debug, PartialEq, Eq, Structural)]
pub enum Extrapolation {
    LastTwoPoints,
    HoldLastPoint,
    Periodic,
    Refused,
    Other(i64),
}

/// A two-dimensional table as it is written: its top row is the second
/// abscissa, its left column the first, and the corner cell belongs to neither.
#[derive(Debug)]
pub struct Grid {
    pub rows: Vec<Vec<Number>>,
    pub smoothness: Smoothness,
    pub extrapolation: Extrapolation,
}

pub ghost struct GridV {
    pub rows: Seq<Seq<Number>>,
    pub smoothness: Smoothness,
    pub extrapolation: Extrapolation,
}

impl DeepView for Grid {
    type V = GridV;

    open spec fn deep_view(&self) -> GridV {
        GridV {
            rows: Seq::new(self.rows@.len(), |i: int| self.rows@[i]@),
            smoothness: self.smoothness,
            extrapolation: self.extrapolation,
        }
    }
}

/// What is wanted of a two-dimensional table at a point: the value there, or
/// how fast it changes along one abscissa or the other.
#[derive(Clone, Copy, Debug, PartialEq, Eq, Structural)]
pub enum Wanted {
    Value,
    SlopeDown,
    SlopeAcross,
}

/// What drawing a grid leans on: `akima` is the slopes an Akima spline gives
/// values at points, and `show` writes a number out.
pub struct Drawing<A1, A2> {
    pub akima: A1,
    pub show: A2,
    /// What they answer, mathematically.
    pub model: Ghost<DrawingV>,
}

/// The same, mathematically.
pub ghost struct DrawingV {
    pub akima: spec_fn(Seq<Number>, Seq<Number>) -> Seq<Number>,
    pub show: spec_fn(Number) -> Seq<char>,
}

/// Whether each of them may be asked anything, and answers as `m` says.
pub open spec fn draws_true_to<
    A1: Fn(&Vec<Number>, &Vec<Number>) -> Vec<Number>,
    A2: Fn(Number) -> String,
>(
    akima: A1,
    show: A2,
    m: DrawingV,
) -> bool {
    &&& forall|at: &Vec<Number>, values: &Vec<Number>| #[trigger] call_requires(akima, (at, values))
    &&& forall|at: &Vec<Number>, values: &Vec<Number>, r: Vec<Number>| #[trigger]
        call_ensures(akima, (at, values), r) ==> r@ == (m.akima)(at@, values@)
    &&& forall|n: Number| #[trigger] call_requires(show, (n,))
    &&& forall|n: Number, r: String| #[trigger]
        call_ensures(show, (n,), r) ==> r@ == (m.show)(n)
}

/// Whether each of them may be asked anything, and answers as its model says.
pub open spec fn draws_true<
    A1: Fn(&Vec<Number>, &Vec<Number>) -> Vec<Number>,
    A2: Fn(Number) -> String,
>(s: Drawing<A1, A2>) -> bool {
    draws_true_to(s.akima, s.show, s.model@)
}

/// What they answer, mathematically.
pub open spec fn drawing_of<
    A1: Fn(&Vec<Number>, &Vec<Number>) -> Vec<Number>,
    A2: Fn(Number) -> String,
>(s: Drawing<A1, A2>) -> DrawingV {
    s.model@
}

impl<
    A1: Fn(&Vec<Number>, &Vec<Number>) -> Vec<Number>,
    A2: Fn(Number) -> String,
> Drawing<A1, A2> {
    /// The bundle of such functions, where there is anything they answer at all.
    pub fn new(akima: A1, show: A2) -> (r: Self)
        requires
            exists|m: DrawingV| #[trigger] draws_true_to(akima, show, m),
        ensures
            draws_true(r),
            r.akima == akima,
            r.show == show,
    {
        Drawing {
            akima,
            show,
            model: Ghost(choose|m: DrawingV| #[trigger] draws_true_to(akima, show, m)),
        }
    }

    pub fn do_akima(&self, at: &Vec<Number>, values: &Vec<Number>) -> (r: Vec<Number>)
        requires
            draws_true(*self),
        ensures
            r@ == (drawing_of(*self).akima)(at@, values@),
    {
        let f = &self.akima;
        f(at, values)
    }

    pub fn do_show(&self, n: Number) -> (r: String)
        requires
            draws_true(*self),
        ensures
            r@ == (drawing_of(*self).show)(n),
    {
        let f = &self.show;
        f(n)
    }
}

/// Whether a table is a matrix: a row at the top, and every row as long as it.
pub open spec fn is_matrix(rows: Seq<Seq<Number>>) -> bool {
    &&& rows.len() > 0
    &&& rows[0].len() > 0
    &&& forall|i: int| 0 <= i < rows.len() ==> (#[trigger] rows[i]).len() == rows[0].len()
}

pub open spec fn less_by(v: SumsV, a: Number, b: Number) -> Number {
    (v.work)(Arith::Sub, a, b)
}

pub open spec fn more_by(v: SumsV, a: Number, b: Number) -> Number {
    (v.work)(Arith::Add, a, b)
}

pub open spec fn product(v: SumsV, a: Number, b: Number) -> Number {
    (v.work)(Arith::Mul, a, b)
}

pub open spec fn ratio(v: SumsV, a: Number, b: Number) -> Number {
    (v.work)(Arith::Div, a, b)
}

/// The first abscissa.
pub open spec fn axis_down(g: GridV) -> Seq<Number> {
    Seq::new((g.rows.len() - 1) as nat, |i: int| g.rows[i + 1][0])
}

/// The second abscissa.
pub open spec fn axis_across(g: GridV) -> Seq<Number> {
    g.rows[0].skip(1)
}

pub open spec fn at_most(i: nat, most: int) -> int {
    if i <= most {
        i as int
    } else {
        most
    }
}

/// The value at a crossing, held at the edge of the grid.
pub open spec fn cell_at(g: GridV, i: nat, j: nat) -> Number {
    g.rows[1 + at_most(i, g.rows.len() - 2)][1 + at_most(j, g.rows[0].len() - 2)]
}

/// The `i`-th of a list of slopes.
pub open spec fn slope_in(list: Seq<Number>, i: nat) -> Number {
    if i < list.len() {
        list[i as int]
    } else {
        zero()
    }
}

/// The slope along the first abscissa.
pub open spec fn down_slope(h: DrawingV, g: GridV, i: nat, j: nat) -> Number {
    slope_in(
        (h.akima)(
            axis_down(g),
            Seq::new(axis_down(g).len(), |a: int| cell_at(g, a as nat, j)),
        ),
        i,
    )
}

/// The slope along the second abscissa.
pub open spec fn across_slope(h: DrawingV, g: GridV, i: nat, j: nat) -> Number {
    slope_in(
        (h.akima)(
            axis_across(g),
            Seq::new(axis_across(g).len(), |b: int| cell_at(g, i, b as nat)),
        ),
        j,
    )
}

/// The slope down, splined along the second abscissa.
pub open spec fn corner_slope(h: DrawingV, g: GridV, i: nat, j: nat) -> Number {
    slope_in(
        (h.akima)(
            axis_across(g),
            Seq::new(axis_across(g).len(), |b: int| down_slope(h, g, i, b as nat)),
        ),
        j,
    )
}

/// How basis function `a` is made of the powers of the fraction: the first and
/// third carry the values at the ends of an interval, the others the slopes.
pub open spec fn hermite(a: nat, p: nat) -> Number {
    if a == 0 {
        if p == 0 {
            one()
        } else if p == 1 {
            zero()
        } else if p == 2 {
            nearest(3).opposite()
        } else {
            nearest(2)
        }
    } else if a == 1 {
        if p == 0 {
            zero()
        } else if p == 1 {
            one()
        } else if p == 2 {
            nearest(2).opposite()
        } else {
            one()
        }
    } else if a == 2 {
        if p <= 1 {
            zero()
        } else if p == 2 {
            nearest(3)
        } else {
            nearest(2).opposite()
        }
    } else {
        if p <= 1 {
            zero()
        } else if p == 2 {
            one().opposite()
        } else {
            one()
        }
    }
}

fn find_hermite(a: usize, p: usize) -> (r: Number)
    ensures
        r == hermite(a as nat, p as nat),
{
    if a == 0 {
        if p == 0 {
            one()
        } else if p == 1 {
            zero()
        } else if p == 2 {
            from_count(3).negated()
        } else {
            from_count(2)
        }
    } else if a == 1 {
        if p == 0 {
            zero()
        } else if p == 1 {
            one()
        } else if p == 2 {
            from_count(2).negated()
        } else {
            one()
        }
    } else if a == 2 {
        if p <= 1 {
            zero()
        } else if p == 2 {
            from_count(3)
        } else {
            from_count(2).negated()
        }
    } else {
        if p <= 1 {
            zero()
        } else if p == 2 {
            one().negated()
        } else {
            one()
        }
    }
}

/// The values and slopes at the four corners of a cell, row by row: a slope is
/// written in the fraction rather than in the abscissa, so it is multiplied by
/// how wide the interval is.
pub open spec fn corners(
    h: DrawingV,
    v: SumsV,
    g: GridV,
    i: nat,
    j: nat,
    wide_down: Number,
    wide_across: Number,
) -> Seq<Number> {
    let last_i = axis_down(g).len() - 1;
    let last_j = axis_across(g).len() - 1;
    let i0 = at_most(i, last_i) as nat;
    let j0 = at_most(j, last_j) as nat;
    let i1 = at_most(i0 + 1, last_i) as nat;
    let j1 = at_most(j0 + 1, last_j) as nat;
    seq![
        cell_at(g, i0, j0),
        product(v, across_slope(h, g, i0, j0), wide_across),
        cell_at(g, i0, j1),
        product(v, across_slope(h, g, i0, j1), wide_across),
        product(v, down_slope(h, g, i0, j0), wide_down),
        product(v, product(v, corner_slope(h, g, i0, j0), wide_down), wide_across),
        product(v, down_slope(h, g, i0, j1), wide_down),
        product(v, product(v, corner_slope(h, g, i0, j1), wide_down), wide_across),
        cell_at(g, i1, j0),
        product(v, across_slope(h, g, i1, j0), wide_across),
        cell_at(g, i1, j1),
        product(v, across_slope(h, g, i1, j1), wide_across),
        product(v, down_slope(h, g, i1, j0), wide_down),
        product(v, product(v, corner_slope(h, g, i1, j0), wide_down), wide_across),
        product(v, down_slope(h, g, i1, j1), wide_down),
        product(v, product(v, corner_slope(h, g, i1, j1), wide_down), wide_across),
    ]
}

/// What multiplies `s^p * t^q` in a cell, summed over the first `n` corners'
/// entries.
pub open spec fn power_of(v: SumsV, m: Seq<Number>, p: nat, q: nat, n: nat) -> Number
    decreases n,
{
    if n == 0 {
        zero()
    } else {
        more_by(
            v,
            power_of(v, m, p, q, (n - 1) as nat),
            product(
                v,
                product(v, hermite(((n - 1) / 4) as nat, p), m[n - 1]),
                hermite(((n - 1) % 4) as nat, q),
            ),
        )
    }
}

/// A fraction raised to a power, where that is anything but one.
pub open spec fn raised(base: ExprV, power: nat) -> Option<ExprV>
    decreases power,
{
    if power == 0 {
        None
    } else {
        match raised(base, (power - 1) as nat) {
            None => Some(base),
            Some(so_far) => Some(ExprV::Bin(BinOp::Mul, Box::new(so_far), Box::new(base))),
        }
    }
}

fn raise(base: &Expr, power: usize) -> (r: Option<Expr>)
    ensures
        r.deep_view() == raised(base.deep_view(), power as nat),
{
    let ghost bv = base.deep_view();
    let mut out: Option<Expr> = None;
    let mut i: usize = 0;
    while i < power
        invariant
            i <= power,
            bv == base.deep_view(),
            out.deep_view() == raised(bv, i as nat),
        decreases power - i,
    {
        out = match out {
            None => Some(base.clone()),
            Some(so_far) => Some(make::bin(BinOp::Mul, so_far, base.clone())),
        };
        i = i + 1;
    }
    out
}

pub open spec fn multiplied(term: ExprV, part: Option<ExprV>) -> ExprV {
    match part {
        None => term,
        Some(part) => ExprV::Bin(BinOp::Mul, Box::new(term), Box::new(part)),
    }
}

fn multiply(term: Expr, part: Option<Expr>) -> (r: Expr)
    ensures
        r.deep_view() == multiplied(term.deep_view(), part.deep_view()),
{
    match part {
        None => term,
        Some(part) => make::bin(BinOp::Mul, term, part),
    }
}

/// One term of a cell: what differentiating does to it, or nothing where that
/// wipes it out.
pub open spec fn term_of(
    v: SumsV,
    m: Seq<Number>,
    s: ExprV,
    t: ExprV,
    wanted: Wanted,
    wide_down: Number,
    wide_across: Number,
    p: nat,
    q: nat,
) -> Option<ExprV> {
    let power = power_of(v, m, p, q, 16);
    let (kept, factor, p, q) = match wanted {
        Wanted::Value => (true, one(), p, q),
        Wanted::SlopeDown => if p == 0 {
            (false, one(), p, q)
        } else {
            (true, ratio(v, nearest(p), wide_down), (p - 1) as nat, q)
        },
        Wanted::SlopeAcross => if q == 0 {
            (false, one(), p, q)
        } else {
            (true, ratio(v, nearest(q), wide_across), p, (q - 1) as nat)
        },
    };
    let coefficient = product(v, power, factor);
    if !kept || coefficient.level(zero()) {
        None
    } else {
        Some(
            multiplied(multiplied(ExprV::Number(coefficient), raised(s, p)), raised(t, q)),
        )
    }
}

/// The sum of the first `n` terms of a cell.
pub open spec fn terms_summed(
    v: SumsV,
    m: Seq<Number>,
    s: ExprV,
    t: ExprV,
    wanted: Wanted,
    wide_down: Number,
    wide_across: Number,
    n: nat,
) -> Option<ExprV>
    decreases n,
{
    if n == 0 {
        None
    } else {
        let before = terms_summed(v, m, s, t, wanted, wide_down, wide_across, (n - 1) as nat);
        match term_of(
            v,
            m,
            s,
            t,
            wanted,
            wide_down,
            wide_across,
            ((n - 1) / 4) as nat,
            ((n - 1) % 4) as nat,
        ) {
            None => before,
            Some(term) => match before {
                None => Some(term),
                Some(so_far) => Some(ExprV::Bin(BinOp::Add, Box::new(so_far), Box::new(term))),
            },
        }
    }
}

/// A splined cell written out in the two fractions, as a value or as a slope
/// along one abscissa.
pub open spec fn cell_written(
    v: SumsV,
    m: Seq<Number>,
    s: ExprV,
    t: ExprV,
    wanted: Wanted,
    wide_down: Number,
    wide_across: Number,
) -> ExprV {
    match terms_summed(v, m, s, t, wanted, wide_down, wide_across, 16) {
        Some(e) => e,
        None => ExprV::Number(zero()),
    }
}

fn find_power<
    W: Fn(Arith, Number, Number) -> Number,
    O: Fn(&str, &Vec<Number>) -> Option<Vec<Number>>,
    N: Fn(&str) -> String,
>(sums: &Sums<W, O, N>, m: &Vec<Number>, p: usize, q: usize) -> (r: Number)
    requires
        is_steady(*sums),
        m@.len() == 16,
    ensures
        r == power_of(sums_of(*sums), m@, p as nat, q as nat, 16),
{
    let ghost v = sums_of(*sums);
    let mut out = zero();
    let mut n: usize = 0;
    while n < 16
        invariant
            n <= 16,
            is_steady(*sums),
            m@.len() == 16,
            v == sums_of(*sums),
            out == power_of(v, m@, p as nat, q as nat, n as nat),
        decreases 16 - n,
    {
        let first = sums.step(Arith::Mul, find_hermite(n / 4, p), m[n]);
        let whole = sums.step(Arith::Mul, first, find_hermite(n % 4, q));
        out = sums.step(Arith::Add, out, whole);
        n = n + 1;
    }
    out
}

fn write_term<
    W: Fn(Arith, Number, Number) -> Number,
    O: Fn(&str, &Vec<Number>) -> Option<Vec<Number>>,
    N: Fn(&str) -> String,
>(
    sums: &Sums<W, O, N>,
    m: &Vec<Number>,
    s: &Expr,
    t: &Expr,
    wanted: Wanted,
    wide_down: Number,
    wide_across: Number,
    p: usize,
    q: usize,
) -> (r: Option<Expr>)
    requires
        is_steady(*sums),
        m@.len() == 16,
        p < 4,
        q < 4,
    ensures
        r.deep_view() == term_of(
            sums_of(*sums),
            m@,
            s.deep_view(),
            t.deep_view(),
            wanted,
            wide_down,
            wide_across,
            p as nat,
            q as nat,
        ),
{
    let power = find_power(sums, m, p, q);
    let mut factor = one();
    let mut a: usize = p;
    let mut b: usize = q;
    match wanted {
        Wanted::Value => {},
        Wanted::SlopeDown => {
            if p == 0 {
                return None;
            }
            factor = sums.step(Arith::Div, from_count(p as u64), wide_down);
            a = p - 1;
        },
        Wanted::SlopeAcross => {
            if q == 0 {
                return None;
            }
            factor = sums.step(Arith::Div, from_count(q as u64), wide_across);
            b = q - 1;
        },
    }
    let coefficient = sums.step(Arith::Mul, power, factor);
    if coefficient.equals(zero()) {
        return None;
    }
    let first = multiply(make::number(coefficient), raise(s, a));
    Some(multiply(first, raise(t, b)))
}

/// A cell of powers written out as an expression in the two fractions.
fn powers_written<
    W: Fn(Arith, Number, Number) -> Number,
    O: Fn(&str, &Vec<Number>) -> Option<Vec<Number>>,
    N: Fn(&str) -> String,
>(
    sums: &Sums<W, O, N>,
    m: &Vec<Number>,
    s: &Expr,
    t: &Expr,
    wanted: Wanted,
    wide_down: Number,
    wide_across: Number,
) -> (r: Expr)
    requires
        is_steady(*sums),
        m@.len() == 16,
    ensures
        r.deep_view() == cell_written(
            sums_of(*sums),
            m@,
            s.deep_view(),
            t.deep_view(),
            wanted,
            wide_down,
            wide_across,
        ),
{
    let ghost v = sums_of(*sums);
    let ghost sv = s.deep_view();
    let ghost tv = t.deep_view();
    let mut out: Option<Expr> = None;
    let mut n: usize = 0;
    while n < 16
        invariant
            n <= 16,
            is_steady(*sums),
            m@.len() == 16,
            v == sums_of(*sums),
            sv == s.deep_view(),
            tv == t.deep_view(),
            out.deep_view() == terms_summed(
                v,
                m@,
                sv,
                tv,
                wanted,
                wide_down,
                wide_across,
                n as nat,
            ),
        decreases 16 - n,
    {
        if let Some(term) = write_term(
            sums,
            m,
            s,
            t,
            wanted,
            wide_down,
            wide_across,
            n / 4,
            n % 4,
        ) {
            out = match out {
                None => Some(term),
                Some(so_far) => Some(make::bin(BinOp::Add, so_far, term)),
            };
        }
        n = n + 1;
    }
    match out {
        Some(e) => e,
        None => make::number(zero()),
    }
}

/// Whether the fraction is pinned to the interval rather than carrying the
/// plane on.
pub open spec fn holds_beyond(g: GridV) -> bool {
    g.extrapolation == Extrapolation::HoldLastPoint || g.smoothness == Smoothness::Constant
        || g.extrapolation == Extrapolation::Refused
}

/// How far into an interval a value is: written out rather than worked out,
/// since what the table is asked at is not known until the run.
pub open spec fn fraction_along(v: SumsV, g: GridV, axis: Seq<Number>, u: ExprV, at: nat) -> ExprV {
    if axis.len() <= 1 {
        ExprV::Number(zero())
    } else {
        let near = axis[at as int];
        let run = less_by(v, axis[at as int + 1], near);
        if run.level(zero()) || g.smoothness == Smoothness::Constant {
            ExprV::Number(zero())
        } else {
            let fraction = ExprV::Bin(
                BinOp::Div,
                Box::new(ExprV::Bin(BinOp::Sub, Box::new(u), Box::new(ExprV::Number(near)))),
                Box::new(ExprV::Number(run)),
            );
            if holds_beyond(g) {
                ExprV::Call(
                    "min"@,
                    seq![
                        ExprV::Number(one()),
                        ExprV::Call("max"@, seq![ExprV::Number(zero()), fraction]),
                    ],
                )
            } else {
                fraction
            }
        }
    }
}

fn write_fraction<
    W: Fn(Arith, Number, Number) -> Number,
    O: Fn(&str, &Vec<Number>) -> Option<Vec<Number>>,
    N: Fn(&str) -> String,
>(sums: &Sums<W, O, N>, g: &Grid, axis: &Vec<Number>, u: &Expr, at: usize) -> (r: Expr)
    requires
        is_steady(*sums),
        axis@.len() > 1 ==> at < axis@.len() - 1,
    ensures
        r.deep_view() == fraction_along(
            sums_of(*sums),
            g.deep_view(),
            axis@,
            u.deep_view(),
            at as nat,
        ),
{
    if axis.len() <= 1 {
        return make::number(zero());
    }
    let near = axis[at];
    let run = sums.step(Arith::Sub, axis[at + 1], near);
    if run.equals(zero()) || g.smoothness == Smoothness::Constant {
        return make::number(zero());
    }
    let fraction = make::bin(
        BinOp::Div,
        make::bin(BinOp::Sub, u.clone(), make::number(near)),
        make::number(run),
    );
    if g.extrapolation == Extrapolation::HoldLastPoint || g.smoothness == Smoothness::Constant
        || g.extrapolation == Extrapolation::Refused {
        make::call2(
            "min",
            make::number(one()),
            make::call2("max", make::number(zero()), fraction),
        )
    } else {
        fraction
    }
}

/// How wide an interval is, and `alone` where there is none.
pub open spec fn width_of(v: SumsV, axis: Seq<Number>, at: nat, alone: Number) -> Number {
    if axis.len() > 1 {
        less_by(v, axis[at as int + 1], axis[at as int])
    } else {
        alone
    }
}

fn find_width<
    W: Fn(Arith, Number, Number) -> Number,
    O: Fn(&str, &Vec<Number>) -> Option<Vec<Number>>,
    N: Fn(&str) -> String,
>(sums: &Sums<W, O, N>, axis: &Vec<Number>, at: usize, alone: Number) -> (r: Number)
    requires
        is_steady(*sums),
        axis@.len() > 1 ==> at < axis@.len() - 1,
    ensures
        r == width_of(sums_of(*sums), axis@, at as nat, alone),
{
    if axis.len() > 1 {
        sums.step(Arith::Sub, axis[at + 1], axis[at])
    } else {
        alone
    }
}

pub open spec fn plus(a: ExprV, b: ExprV) -> ExprV {
    ExprV::Bin(BinOp::Add, Box::new(a), Box::new(b))
}

pub open spec fn scaled(a: ExprV, b: ExprV) -> ExprV {
    ExprV::Bin(BinOp::Mul, Box::new(a), Box::new(b))
}

/// What the grid says in one cell: the four corners weighted by how far into
/// the cell the point is, or how fast that changes along one abscissa.
pub open spec fn piece_of(
    h: DrawingV,
    v: SumsV,
    g: GridV,
    u1: ExprV,
    u2: ExprV,
    wanted: Wanted,
    i: nat,
    j: nat,
) -> ExprV {
    let down = axis_down(g);
    let across = axis_across(g);
    let far_i = if down.len() > 1 {
        i + 1
    } else {
        i
    };
    let far_j = if across.len() > 1 {
        j + 1
    } else {
        j
    };
    let c00 = cell_at(g, i, j);
    let c10 = cell_at(g, far_i, j);
    let c01 = cell_at(g, i, far_j);
    let c11 = cell_at(g, far_i, far_j);
    let s = fraction_along(v, g, down, u1, i);
    let t = fraction_along(v, g, across, u2, j);
    if g.smoothness == Smoothness::Akima {
        let wide_down = width_of(v, down, i, one());
        let wide_across = width_of(v, across, j, one());
        cell_written(
            v,
            corners(h, v, g, i, j, wide_down, wide_across),
            s,
            t,
            wanted,
            wide_down,
            wide_across,
        )
    } else {
        let corner = more_by(v, less_by(v, less_by(v, c00, c10), c01), c11);
        match wanted {
            Wanted::Value => plus(
                plus(
                    plus(ExprV::Number(c00), scaled(ExprV::Number(less_by(v, c10, c00)), s)),
                    scaled(ExprV::Number(less_by(v, c01, c00)), t),
                ),
                scaled(ExprV::Number(corner), scaled(s, t)),
            ),
            Wanted::SlopeDown => {
                let run = width_of(v, down, i, zero());
                if run.level(zero()) || g.smoothness == Smoothness::Constant {
                    ExprV::Number(zero())
                } else {
                    plus(
                        ExprV::Number(ratio(v, less_by(v, c10, c00), run)),
                        scaled(ExprV::Number(ratio(v, corner, run)), t),
                    )
                }
            },
            Wanted::SlopeAcross => {
                let run = width_of(v, across, j, zero());
                if run.level(zero()) || g.smoothness == Smoothness::Constant {
                    ExprV::Number(zero())
                } else {
                    plus(
                        ExprV::Number(ratio(v, less_by(v, c01, c00), run)),
                        scaled(ExprV::Number(ratio(v, corner, run)), s),
                    )
                }
            },
        }
    }
}

/// What an abscissa that repeats is asked at: brought back into the one grid it
/// was written for.
pub open spec fn brought_back(v: SumsV, g: GridV, axis: Seq<Number>, u: ExprV) -> ExprV {
    let period = less_by(v, axis.last(), axis[0]);
    if g.extrapolation != Extrapolation::Periodic || period.below(zero()) || period.level(zero()) {
        u
    } else {
        ExprV::Bin(
            BinOp::Add,
            Box::new(ExprV::Number(axis[0])),
            Box::new(
                ExprV::Call(
                    "mod"@,
                    seq![
                        ExprV::Bin(BinOp::Sub, Box::new(u), Box::new(ExprV::Number(axis[0]))),
                        ExprV::Number(period),
                    ],
                ),
            ),
        )
    }
}

fn bring_back<
    W: Fn(Arith, Number, Number) -> Number,
    O: Fn(&str, &Vec<Number>) -> Option<Vec<Number>>,
    N: Fn(&str) -> String,
>(sums: &Sums<W, O, N>, g: &Grid, axis: &Vec<Number>, u: &Expr) -> (r: Expr)
    requires
        is_steady(*sums),
        axis@.len() > 0,
    ensures
        r.deep_view() == brought_back(sums_of(*sums), g.deep_view(), axis@, u.deep_view()),
{
    let period = sums.step(Arith::Sub, axis[axis.len() - 1], axis[0]);
    if g.extrapolation != Extrapolation::Periodic || period.less(zero()) || period.equals(zero()) {
        return u.clone();
    }
    make::bin(
        BinOp::Add,
        make::number(axis[0]),
        make::call2(
            "mod",
            make::bin(BinOp::Sub, u.clone(), make::number(axis[0])),
            make::number(period),
        ),
    )
}

/// The check that a value stays within an abscissa.
pub open spec fn scope_check(h: DrawingV, axis: Seq<Number>, u: ExprV, which: Seq<char>) -> (
    ExprV,
    Seq<char>,
) {
    (
        ExprV::And(
            Box::new(
                ExprV::Rel(RelOp::Ge, Box::new(u), Box::new(ExprV::Number(axis[0]))),
            ),
            Box::new(
                ExprV::Rel(RelOp::Le, Box::new(u), Box::new(ExprV::Number(axis.last()))),
            ),
        ),
        "a two-dimensional table asked for no extrapolation is read outside the scope its "@
            + which + " abscissa was written for, which is "@ + (h.show)(axis[0]) + " to "@
            + (h.show)(axis.last()),
    )
}

/// The checks a grid leaves for the class being instantiated to take up.
pub open spec fn scope_checks(h: DrawingV, g: GridV, u1: ExprV, u2: ExprV) -> Seq<
    (ExprV, Seq<char>),
> {
    if g.extrapolation == Extrapolation::Refused {
        seq![
            scope_check(h, axis_down(g), u1, "first"@),
            scope_check(h, axis_across(g), u2, "second"@),
        ]
    } else {
        Seq::empty()
    }
}

fn check_scope<
    A1: Fn(&Vec<Number>, &Vec<Number>) -> Vec<Number>,
    A2: Fn(Number) -> String,
>(
    h: &Drawing<A1, A2>,
    axis: &Vec<Number>,
    u: &Expr,
    which: &str,
) -> (r: (Expr, String))
    requires
        draws_true(*h),
        axis@.len() > 0,
    ensures
        r.deep_view() == scope_check(drawing_of(*h), axis@, u.deep_view(), which@),
{
    let near = axis[0];
    let far = axis[axis.len() - 1];
    let a = h.do_show(near);
    let b = h.do_show(far);
    let condition = make::and(
        make::rel(RelOp::Ge, u.clone(), make::number(near)),
        make::rel(RelOp::Le, u.clone(), make::number(far)),
    );
    let said = join7(
        "a two-dimensional table asked for no extrapolation is read outside the scope its ",
        which,
        " abscissa was written for, which is ",
        a.as_str(),
        " to ",
        b.as_str(),
        "",
    );
    proof {
        reveal_strlit("");
        assert(said@ =~= scope_check(drawing_of(*h), axis@, u.deep_view(), which@).1);
    }
    (condition, said)
}

/// The first point from the `i`-th on that is the one before it again.
pub open spec fn repeated_from(axis: Seq<Number>, i: nat) -> Option<Number>
    decreases axis.len() - i,
{
    if i >= axis.len() {
        None
    } else if i > 0 && axis[i as int].level(axis[i - 1]) {
        Some(axis[i as int])
    } else {
        repeated_from(axis, i + 1)
    }
}

fn find_repeated(axis: &Vec<Number>) -> (r: Option<Number>)
    ensures
        r == repeated_from(axis@, 0),
{
    let mut i: usize = 0;
    while i < axis.len()
        invariant
            i <= axis.len(),
            repeated_from(axis@, 0) == repeated_from(axis@, i as nat),
        decreases axis.len() - i,
    {
        if i > 0 && axis[i].equals(axis[i - 1]) {
            return Some(axis[i]);
        }
        i = i + 1;
    }
    None
}

/// What a spline is told whose points do not follow one another.
pub open spec fn point_twice(h: DrawingV, point: Number, which: Seq<char>) -> Seq<char> {
    "a two-dimensional table asked for an Akima spline gives "@ + (h.show)(point)
        + " twice on its "@ + which
        + " abscissa, and a spline needs the points to follow one another"@
}

/// The index of the last interval of an abscissa.
pub open spec fn last_interval(axis: Seq<Number>) -> nat {
    if axis.len() < 2 {
        0
    } else {
        (axis.len() - 2) as nat
    }
}

/// One row of the grid, from the `j`-th interval on: the nearest test first.
pub open spec fn row_from(
    h: DrawingV,
    v: SumsV,
    g: GridV,
    u1: ExprV,
    u2: ExprV,
    wanted: Wanted,
    i: nat,
    j: nat,
) -> ExprV
    decreases last_interval(axis_across(g)) - j,
{
    if j >= last_interval(axis_across(g)) {
        piece_of(h, v, g, u1, u2, wanted, i, last_interval(axis_across(g)))
    } else {
        ExprV::If(
            Box::new(
                ExprV::Rel(
                    RelOp::Lt,
                    Box::new(u2),
                    Box::new(ExprV::Number(axis_across(g)[j as int + 1])),
                ),
            ),
            Box::new(piece_of(h, v, g, u1, u2, wanted, i, j)),
            Box::new(row_from(h, v, g, u1, u2, wanted, i, j + 1)),
        )
    }
}

/// The grid, from the `i`-th interval on.
pub open spec fn grid_from(
    h: DrawingV,
    v: SumsV,
    g: GridV,
    u1: ExprV,
    u2: ExprV,
    wanted: Wanted,
    i: nat,
) -> ExprV
    decreases last_interval(axis_down(g)) - i,
{
    if i >= last_interval(axis_down(g)) {
        row_from(h, v, g, u1, u2, wanted, last_interval(axis_down(g)), 0)
    } else {
        ExprV::If(
            Box::new(
                ExprV::Rel(
                    RelOp::Lt,
                    Box::new(u1),
                    Box::new(ExprV::Number(axis_down(g)[i as int + 1])),
                ),
            ),
            Box::new(row_from(h, v, g, u1, u2, wanted, i, 0)),
            Box::new(grid_from(h, v, g, u1, u2, wanted, i + 1)),
        )
    }
}

/// A slope along an abscissa whose edge is held: past the edge nothing changes
/// any more.
pub open spec fn held_slope(g: GridV, axis: Seq<Number>, u: ExprV, slope: ExprV) -> ExprV {
    if g.extrapolation == Extrapolation::HoldLastPoint && axis.len() > 1 {
        ExprV::If(
            Box::new(
                ExprV::And(
                    Box::new(
                        ExprV::Rel(RelOp::Ge, Box::new(u), Box::new(ExprV::Number(axis[0]))),
                    ),
                    Box::new(
                        ExprV::Rel(RelOp::Le, Box::new(u), Box::new(ExprV::Number(axis.last()))),
                    ),
                ),
            ),
            Box::new(slope),
            Box::new(ExprV::Number(zero())),
        )
    } else {
        slope
    }
}

/// What is asked of the grid, with the slope past a held edge flat.
pub open spec fn flat_past_the_edge(
    g: GridV,
    u1: ExprV,
    u2: ExprV,
    wanted: Wanted,
    written: ExprV,
) -> ExprV {
    match wanted {
        Wanted::Value => written,
        Wanted::SlopeDown => held_slope(g, axis_down(g), u1, written),
        Wanted::SlopeAcross => held_slope(g, axis_across(g), u2, written),
    }
}

fn hold_slope(g: &Grid, axis: &Vec<Number>, u: &Expr, slope: Expr) -> (r: Expr)
    ensures
        r.deep_view() == held_slope(g.deep_view(), axis@, u.deep_view(), slope.deep_view()),
{
    if g.extrapolation == Extrapolation::HoldLastPoint && axis.len() > 1 {
        make::either(
            make::and(
                make::rel(RelOp::Ge, u.clone(), make::number(axis[0])),
                make::rel(RelOp::Le, u.clone(), make::number(axis[axis.len() - 1])),
            ),
            slope,
            make::number(zero()),
        )
    } else {
        slope
    }
}

/// What a grid is read as, and what it checks.
pub ghost struct ReadV {
    pub written: ExprV,
    pub checks: Seq<(ExprV, Seq<char>)>,
}

/// What a two-dimensional table says at a point.
pub open spec fn grid_read(
    h: DrawingV,
    v: SumsV,
    g: GridV,
    u1: ExprV,
    u2: ExprV,
    wanted: Wanted,
) -> Result<ReadV, Seq<char>> {
    match (g.smoothness, g.extrapolation) {
        (Smoothness::Other(code), _) => Err(
            "a two-dimensional table asks for smoothness "@ + signed(code as int)
                + ", and this compiler writes out the linear, the constant and the Akima spline only"@,
        ),
        (_, Extrapolation::Other(code)) => Err(
            "a two-dimensional table asks for extrapolation "@ + signed(code as int)
                + ", which this compiler does not know"@,
        ),
        _ => {
            let down = axis_down(g);
            let across = axis_across(g);
            if down.len() == 0 || across.len() == 0 {
                Err("a two-dimensional table has no grid to read"@)
            } else {
                let u1 = brought_back(v, g, down, u1);
                let u2 = brought_back(v, g, across, u2);
                let twice = if g.smoothness != Smoothness::Akima {
                    None
                } else {
                    match repeated_from(down, 0) {
                        Some(point) => Some(point_twice(h, point, "first"@)),
                        None => match repeated_from(across, 0) {
                            Some(point) => Some(point_twice(h, point, "second"@)),
                            None => None,
                        },
                    }
                };
                match twice {
                    Some(why) => Err(why),
                    None => Ok(
                        ReadV {
                            written: flat_past_the_edge(
                                g,
                                u1,
                                u2,
                                wanted,
                                grid_from(h, v, g, u1, u2, wanted, 0),
                            ),
                            checks: scope_checks(h, g, u1, u2),
                        },
                    ),
                }
            }
        },
    }
}

/// What a grid is read as, as it is held.
pub struct Read {
    pub written: Expr,
    pub checks: Vec<(Expr, String)>,
}

impl DeepView for Read {
    type V = ReadV;

    open spec fn deep_view(&self) -> ReadV {
        ReadV { written: self.written.deep_view(), checks: self.checks.deep_view() }
    }
}

/// The slopes an Akima spline gives a grid, along each abscissa and across
/// both, row by row.
struct GridSlopes {
    down: Vec<Vec<Number>>,
    across: Vec<Vec<Number>>,
    corner: Vec<Vec<Number>>,
}

spec fn are_slopes(h: DrawingV, g: GridV, s: GridSlopes) -> bool {
    let m = axis_down(g).len();
    let n = axis_across(g).len();
    &&& s.down@.len() == n
    &&& s.across@.len() == m
    &&& s.corner@.len() == m
    &&& forall|i: nat, j: nat|
        i < m && j < n ==> slope_in(s.down@[j as int]@, i) == #[trigger] down_slope(h, g, i, j)
    &&& forall|i: nat, j: nat|
        i < m && j < n ==> slope_in(s.across@[i as int]@, j) == #[trigger] across_slope(
            h,
            g,
            i,
            j,
        )
    &&& forall|i: nat, j: nat|
        i < m && j < n ==> slope_in(s.corner@[i as int]@, j) == #[trigger] corner_slope(
            h,
            g,
            i,
            j,
        )
}

fn pick(list: &Vec<Number>, i: usize) -> (r: Number)
    ensures
        r == slope_in(list@, i as nat),
{
    if i < list.len() {
        list[i]
    } else {
        zero()
    }
}

fn find_cell(g: &Grid, i: usize, j: usize) -> (r: Number)
    requires
        is_matrix(g.deep_view().rows),
        g.rows@.len() >= 2,
        g.rows@[0]@.len() >= 2,
    ensures
        r == cell_at(g.deep_view(), i as nat, j as nat),
{
    let ghost rows = g.deep_view().rows;
    assert(rows[0] == g.rows@[0]@);
    let most_i: usize = g.rows.len() - 2;
    let most_j: usize = g.rows[0].len() - 2;
    let a: usize = if i <= most_i {
        i
    } else {
        most_i
    };
    let b: usize = if j <= most_j {
        j
    } else {
        most_j
    };
    assert(rows[1 + a] == g.rows@[1 + a]@);
    g.rows[1 + a][1 + b]
}

fn find_down(g: &Grid) -> (r: Vec<Number>)
    requires
        is_matrix(g.deep_view().rows),
    ensures
        r@ == axis_down(g.deep_view()),
{
    let ghost rows = g.deep_view().rows;
    let ghost whole = axis_down(g.deep_view());
    let mut out: Vec<Number> = Vec::new();
    let mut i: usize = 1;
    while i < g.rows.len()
        invariant
            1 <= i <= g.rows.len(),
            rows == g.deep_view().rows,
            is_matrix(rows),
            whole == axis_down(g.deep_view()),
            out@ == whole.take(i - 1),
        decreases g.rows.len() - i,
    {
        assert(rows[i as int] == g.rows@[i as int]@);
        assert(whole[i - 1] == rows[i as int][0]);
        out.push(g.rows[i][0]);
        assert(out@ =~= whole.take(i as int));
        i = i + 1;
    }
    assert(whole.take(i - 1) =~= whole);
    out
}

fn find_across(g: &Grid) -> (r: Vec<Number>)
    requires
        is_matrix(g.deep_view().rows),
    ensures
        r@ == axis_across(g.deep_view()),
{
    let ghost rows = g.deep_view().rows;
    let ghost whole = axis_across(g.deep_view());
    assert(rows[0] == g.rows@[0]@);
    let row = &g.rows[0];
    let mut out: Vec<Number> = Vec::new();
    let mut j: usize = 1;
    while j < row.len()
        invariant
            1 <= j <= row@.len(),
            whole == row@.skip(1),
            out@ == whole.take(j - 1),
        decreases row.len() - j,
    {
        out.push(row[j]);
        assert(out@ =~= whole.take(j as int));
        j = j + 1;
    }
    assert(whole.take(j - 1) =~= whole);
    out
}

fn find_down_slopes<
    A1: Fn(&Vec<Number>, &Vec<Number>) -> Vec<Number>,
    A2: Fn(Number) -> String,
>(
    h: &Drawing<A1, A2>,
    g: &Grid,
    down: &Vec<Number>,
    j: usize,
) -> (r: Vec<Number>)
    requires
        draws_true(*h),
        is_matrix(g.deep_view().rows),
        g.rows@.len() >= 2,
        g.rows@[0]@.len() >= 2,
        down@ == axis_down(g.deep_view()),
    ensures
        forall|i: nat| slope_in(r@, i) == #[trigger] down_slope(
            drawing_of(*h),
            g.deep_view(),
            i,
            j as nat,
        ),
{
    let ghost gv = g.deep_view();
    let ghost whole = Seq::new(down@.len(), |a: int| cell_at(gv, a as nat, j as nat));
    let mut values: Vec<Number> = Vec::new();
    let mut a: usize = 0;
    while a < down.len()
        invariant
            a <= down.len(),
            gv == g.deep_view(),
            is_matrix(gv.rows),
            g.rows@.len() >= 2,
            g.rows@[0]@.len() >= 2,
            whole == Seq::new(down@.len(), |a: int| cell_at(gv, a as nat, j as nat)),
            values@ == whole.take(a as int),
        decreases down.len() - a,
    {
        values.push(find_cell(g, a, j));
        assert(values@ =~= whole.take(a + 1));
        a = a + 1;
    }
    assert(whole.take(a as int) =~= whole);
    h.do_akima(down, &values)
}

fn find_across_slopes<
    A1: Fn(&Vec<Number>, &Vec<Number>) -> Vec<Number>,
    A2: Fn(Number) -> String,
>(
    h: &Drawing<A1, A2>,
    g: &Grid,
    across: &Vec<Number>,
    i: usize,
) -> (r: Vec<Number>)
    requires
        draws_true(*h),
        is_matrix(g.deep_view().rows),
        g.rows@.len() >= 2,
        g.rows@[0]@.len() >= 2,
        across@ == axis_across(g.deep_view()),
    ensures
        forall|j: nat| slope_in(r@, j) == #[trigger] across_slope(
            drawing_of(*h),
            g.deep_view(),
            i as nat,
            j,
        ),
{
    let ghost gv = g.deep_view();
    let ghost whole = Seq::new(across@.len(), |b: int| cell_at(gv, i as nat, b as nat));
    let mut values: Vec<Number> = Vec::new();
    let mut b: usize = 0;
    while b < across.len()
        invariant
            b <= across.len(),
            gv == g.deep_view(),
            is_matrix(gv.rows),
            g.rows@.len() >= 2,
            g.rows@[0]@.len() >= 2,
            whole == Seq::new(across@.len(), |b: int| cell_at(gv, i as nat, b as nat)),
            values@ == whole.take(b as int),
        decreases across.len() - b,
    {
        values.push(find_cell(g, i, b));
        assert(values@ =~= whole.take(b + 1));
        b = b + 1;
    }
    assert(whole.take(b as int) =~= whole);
    h.do_akima(across, &values)
}

fn find_corner_slopes<
    A1: Fn(&Vec<Number>, &Vec<Number>) -> Vec<Number>,
    A2: Fn(Number) -> String,
>(
    h: &Drawing<A1, A2>,
    g: &Grid,
    across: &Vec<Number>,
    down_slopes: &Vec<Vec<Number>>,
    i: usize,
) -> (r: Vec<Number>)
    requires
        draws_true(*h),
        across@ == axis_across(g.deep_view()),
        down_slopes@.len() == across@.len(),
        forall|j: int|
            0 <= j < across@.len() ==> slope_in((#[trigger] down_slopes@[j])@, i as nat)
                == down_slope(drawing_of(*h), g.deep_view(), i as nat, j as nat),
    ensures
        forall|j: nat| slope_in(r@, j) == #[trigger] corner_slope(
            drawing_of(*h),
            g.deep_view(),
            i as nat,
            j,
        ),
{
    let ghost gv = g.deep_view();
    let ghost hv = drawing_of(*h);
    let ghost whole = Seq::new(across@.len(), |b: int| down_slope(hv, gv, i as nat, b as nat));
    let mut values: Vec<Number> = Vec::new();
    let mut b: usize = 0;
    while b < across.len()
        invariant
            b <= across.len(),
            down_slopes@.len() == across@.len(),
            forall|j: int|
                0 <= j < across@.len() ==> slope_in((#[trigger] down_slopes@[j])@, i as nat)
                    == down_slope(hv, gv, i as nat, j as nat),
            whole == Seq::new(across@.len(), |b: int| down_slope(hv, gv, i as nat, b as nat)),
            values@ == whole.take(b as int),
        decreases across.len() - b,
    {
        values.push(pick(&down_slopes[b], i));
        assert(values@ =~= whole.take(b + 1));
        b = b + 1;
    }
    assert(whole.take(b as int) =~= whole);
    h.do_akima(across, &values)
}

/// The slopes of a grid: Akima's rule along one abscissa, then along the other.
fn grid_slopes<
    A1: Fn(&Vec<Number>, &Vec<Number>) -> Vec<Number>,
    A2: Fn(Number) -> String,
    W: Fn(Arith, Number, Number) -> Number,
    O: Fn(&str, &Vec<Number>) -> Option<Vec<Number>>,
    N: Fn(&str) -> String,
>(
    h: &Drawing<A1, A2>,
    sums: &Sums<W, O, N>,
    g: &Grid,
    down: &Vec<Number>,
    across: &Vec<Number>,
) -> (r: GridSlopes)
    requires
        draws_true(*h),
        is_matrix(g.deep_view().rows),
        g.rows@.len() >= 2,
        g.rows@[0]@.len() >= 2,
        down@ == axis_down(g.deep_view()),
        across@ == axis_across(g.deep_view()),
    ensures
        are_slopes(drawing_of(*h), g.deep_view(), r),
{
    let ghost hv = drawing_of(*h);
    let ghost gv = g.deep_view();
    let mut along_down: Vec<Vec<Number>> = Vec::new();
    let mut j: usize = 0;
    while j < across.len()
        invariant
            j <= across.len(),
            draws_true(*h),
            hv == drawing_of(*h),
            gv == g.deep_view(),
            is_matrix(gv.rows),
            g.rows@.len() >= 2,
            g.rows@[0]@.len() >= 2,
            down@ == axis_down(gv),
            along_down@.len() == j,
            forall|i: nat, b: nat|
                i < down@.len() && b < j ==> slope_in(along_down@[b as int]@, i)
                    == #[trigger] down_slope(hv, gv, i, b),
        decreases across.len() - j,
    {
        along_down.push(find_down_slopes(h, g, down, j));
        j = j + 1;
    }
    let mut along_across: Vec<Vec<Number>> = Vec::new();
    let mut corner: Vec<Vec<Number>> = Vec::new();
    let mut i: usize = 0;
    while i < down.len()
        invariant
            i <= down.len(),
            draws_true(*h),
            hv == drawing_of(*h),
            gv == g.deep_view(),
            is_matrix(gv.rows),
            g.rows@.len() >= 2,
            g.rows@[0]@.len() >= 2,
            across@ == axis_across(gv),
            along_down@.len() == across@.len(),
            forall|a: nat, b: nat|
                a < down@.len() && b < across@.len() ==> slope_in(along_down@[b as int]@, a)
                    == #[trigger] down_slope(hv, gv, a, b),
            along_across@.len() == i,
            corner@.len() == i,
            forall|a: nat, b: nat|
                a < i && b < across@.len() ==> slope_in(along_across@[a as int]@, b)
                    == #[trigger] across_slope(hv, gv, a, b),
            forall|a: nat, b: nat|
                a < i && b < across@.len() ==> slope_in(corner@[a as int]@, b)
                    == #[trigger] corner_slope(hv, gv, a, b),
        decreases down.len() - i,
    {
        along_across.push(find_across_slopes(h, g, across, i));
        corner.push(find_corner_slopes(h, g, across, &along_down, i));
        i = i + 1;
    }
    GridSlopes { down: along_down, across: along_across, corner }
}

/// The values and slopes at the four corners of a cell.
fn cell_powers<
    A1: Fn(&Vec<Number>, &Vec<Number>) -> Vec<Number>,
    A2: Fn(Number) -> String,
    W: Fn(Arith, Number, Number) -> Number,
    O: Fn(&str, &Vec<Number>) -> Option<Vec<Number>>,
    N: Fn(&str) -> String,
>(
    h: &Drawing<A1, A2>,
    sums: &Sums<W, O, N>,
    g: &Grid,
    slopes: &GridSlopes,
    i: usize,
    j: usize,
    wide_down: Number,
    wide_across: Number,
) -> (r: Vec<Number>)
    requires
        draws_true(*h),
        is_steady(*sums),
        is_matrix(g.deep_view().rows),
        g.rows@.len() >= 2,
        g.rows@[0]@.len() >= 2,
        are_slopes(drawing_of(*h), g.deep_view(), *slopes),
    ensures
        r@ == corners(
            drawing_of(*h),
            sums_of(*sums),
            g.deep_view(),
            i as nat,
            j as nat,
            wide_down,
            wide_across,
        ),
{
    let ghost hv = drawing_of(*h);
    let ghost gv = g.deep_view();
    let ghost rows = gv.rows;
    assert(rows[0] == g.rows@[0]@);
    let last_i: usize = g.rows.len() - 2;
    let last_j: usize = g.rows[0].len() - 2;
    assert(axis_down(gv).len() == last_i + 1);
    assert(axis_across(gv).len() == last_j + 1);
    let i0: usize = if i <= last_i {
        i
    } else {
        last_i
    };
    let j0: usize = if j <= last_j {
        j
    } else {
        last_j
    };
    let i1: usize = if i0 + 1 <= last_i {
        i0 + 1
    } else {
        last_i
    };
    let j1: usize = if j0 + 1 <= last_j {
        j0 + 1
    } else {
        last_j
    };
    let a00 = sums.step(Arith::Mul, pick(&slopes.across[i0], j0), wide_across);
    let a01 = sums.step(Arith::Mul, pick(&slopes.across[i0], j1), wide_across);
    let a10 = sums.step(Arith::Mul, pick(&slopes.across[i1], j0), wide_across);
    let a11 = sums.step(Arith::Mul, pick(&slopes.across[i1], j1), wide_across);
    let d00 = sums.step(Arith::Mul, pick(&slopes.down[j0], i0), wide_down);
    let d01 = sums.step(Arith::Mul, pick(&slopes.down[j1], i0), wide_down);
    let d10 = sums.step(Arith::Mul, pick(&slopes.down[j0], i1), wide_down);
    let d11 = sums.step(Arith::Mul, pick(&slopes.down[j1], i1), wide_down);
    let k00 = sums.step(Arith::Mul, pick(&slopes.corner[i0], j0), wide_down);
    let k01 = sums.step(Arith::Mul, pick(&slopes.corner[i0], j1), wide_down);
    let k10 = sums.step(Arith::Mul, pick(&slopes.corner[i1], j0), wide_down);
    let k11 = sums.step(Arith::Mul, pick(&slopes.corner[i1], j1), wide_down);
    let mut out: Vec<Number> = Vec::new();
    out.push(find_cell(g, i0, j0));
    out.push(a00);
    out.push(find_cell(g, i0, j1));
    out.push(a01);
    out.push(d00);
    out.push(sums.step(Arith::Mul, k00, wide_across));
    out.push(d01);
    out.push(sums.step(Arith::Mul, k01, wide_across));
    out.push(find_cell(g, i1, j0));
    out.push(a10);
    out.push(find_cell(g, i1, j1));
    out.push(a11);
    out.push(d10);
    out.push(sums.step(Arith::Mul, k10, wide_across));
    out.push(d11);
    out.push(sums.step(Arith::Mul, k11, wide_across));
    assert(out@ =~= corners(
        hv,
        sums_of(*sums),
        gv,
        i as nat,
        j as nat,
        wide_down,
        wide_across,
    ));
    out
}

/// What is fixed while a grid is written out.
struct Sheet<'s> {
    g: &'s Grid,
    down: &'s Vec<Number>,
    across: &'s Vec<Number>,
    slopes: &'s Option<GridSlopes>,
    u1: &'s Expr,
    u2: &'s Expr,
    wanted: Wanted,
}

spec fn sheet_true<'s>(h: DrawingV, w: Sheet<'s>) -> bool {
    let gv = w.g.deep_view();
    &&& is_matrix(gv.rows)
    &&& w.g.rows@.len() >= 2
    &&& w.g.rows@[0]@.len() >= 2
    &&& w.down@ == axis_down(gv)
    &&& w.across@ == axis_across(gv)
    &&& match *w.slopes {
        Some(slopes) => gv.smoothness == Smoothness::Akima && are_slopes(h, gv, slopes),
        None => gv.smoothness != Smoothness::Akima,
    }
}

fn write_piece<
    A1: Fn(&Vec<Number>, &Vec<Number>) -> Vec<Number>,
    A2: Fn(Number) -> String,
    W: Fn(Arith, Number, Number) -> Number,
    O: Fn(&str, &Vec<Number>) -> Option<Vec<Number>>,
    N: Fn(&str) -> String,
>(
    h: &Drawing<A1, A2>,
    sums: &Sums<W, O, N>,
    w: &Sheet,
    i: usize,
    j: usize,
) -> (r: Expr)
    requires
        draws_true(*h),
        is_steady(*sums),
        sheet_true(drawing_of(*h), *w),
        i <= last_interval(w.down@),
        j <= last_interval(w.across@),
    ensures
        r.deep_view() == piece_of(
            drawing_of(*h),
            sums_of(*sums),
            w.g.deep_view(),
            w.u1.deep_view(),
            w.u2.deep_view(),
            w.wanted,
            i as nat,
            j as nat,
        ),
{
    let s = write_fraction(sums, w.g, w.down, w.u1, i);
    let t = write_fraction(sums, w.g, w.across, w.u2, j);
    if let Some(slopes) = w.slopes {
        let wide_down = find_width(sums, w.down, i, one());
        let wide_across = find_width(sums, w.across, j, one());
        let m = cell_powers(h, sums, w.g, slopes, i, j, wide_down, wide_across);
        return powers_written(sums, &m, &s, &t, w.wanted, wide_down, wide_across);
    }
    let far_i: usize = if w.down.len() > 1 {
        i + 1
    } else {
        i
    };
    let far_j: usize = if w.across.len() > 1 {
        j + 1
    } else {
        j
    };
    let c00 = find_cell(w.g, i, j);
    let c10 = find_cell(w.g, far_i, j);
    let c01 = find_cell(w.g, i, far_j);
    let c11 = find_cell(w.g, far_i, far_j);
    let first = sums.step(Arith::Sub, c00, c10);
    let second = sums.step(Arith::Sub, first, c01);
    let corner = sums.step(Arith::Add, second, c11);
    match w.wanted {
        Wanted::Value => {
            let d10 = sums.step(Arith::Sub, c10, c00);
            let d01 = sums.step(Arith::Sub, c01, c00);
            let product = make::bin(BinOp::Mul, s.clone(), t.clone());
            make::bin(
                BinOp::Add,
                make::bin(
                    BinOp::Add,
                    make::bin(
                        BinOp::Add,
                        make::number(c00),
                        make::bin(BinOp::Mul, make::number(d10), s),
                    ),
                    make::bin(BinOp::Mul, make::number(d01), t),
                ),
                make::bin(BinOp::Mul, make::number(corner), product),
            )
        },
        Wanted::SlopeDown => {
            let run = find_width(sums, w.down, i, zero());
            if run.equals(zero()) || w.g.smoothness == Smoothness::Constant {
                return make::number(zero());
            }
            let d10 = sums.step(Arith::Sub, c10, c00);
            let flat = sums.step(Arith::Div, d10, run);
            let turn = sums.step(Arith::Div, corner, run);
            make::bin(
                BinOp::Add,
                make::number(flat),
                make::bin(BinOp::Mul, make::number(turn), t),
            )
        },
        Wanted::SlopeAcross => {
            let run = find_width(sums, w.across, j, zero());
            if run.equals(zero()) || w.g.smoothness == Smoothness::Constant {
                return make::number(zero());
            }
            let d01 = sums.step(Arith::Sub, c01, c00);
            let flat = sums.step(Arith::Div, d01, run);
            let turn = sums.step(Arith::Div, corner, run);
            make::bin(
                BinOp::Add,
                make::number(flat),
                make::bin(BinOp::Mul, make::number(turn), s),
            )
        },
    }
}

fn find_last(axis: &Vec<Number>) -> (r: usize)
    ensures
        r == last_interval(axis@),
{
    if axis.len() < 2 {
        0
    } else {
        axis.len() - 2
    }
}

fn write_row<
    A1: Fn(&Vec<Number>, &Vec<Number>) -> Vec<Number>,
    A2: Fn(Number) -> String,
    W: Fn(Arith, Number, Number) -> Number,
    O: Fn(&str, &Vec<Number>) -> Option<Vec<Number>>,
    N: Fn(&str) -> String,
>(h: &Drawing<A1, A2>, sums: &Sums<W, O, N>, w: &Sheet, i: usize) -> (r: Expr)
    requires
        draws_true(*h),
        is_steady(*sums),
        sheet_true(drawing_of(*h), *w),
        i <= last_interval(w.down@),
    ensures
        r.deep_view() == row_from(
            drawing_of(*h),
            sums_of(*sums),
            w.g.deep_view(),
            w.u1.deep_view(),
            w.u2.deep_view(),
            w.wanted,
            i as nat,
            0,
        ),
{
    let ghost hv = drawing_of(*h);
    let ghost v = sums_of(*sums);
    let ghost gv = w.g.deep_view();
    let ghost a = w.u1.deep_view();
    let ghost b = w.u2.deep_view();
    let last: usize = find_last(w.across);
    let mut row = write_piece(h, sums, w, i, last);
    let mut j: usize = last;
    while j > 0
        invariant
            j <= last,
            last == last_interval(w.across@),
            draws_true(*h),
            is_steady(*sums),
            sheet_true(hv, *w),
            hv == drawing_of(*h),
            v == sums_of(*sums),
            gv == w.g.deep_view(),
            a == w.u1.deep_view(),
            b == w.u2.deep_view(),
            i <= last_interval(w.down@),
            row.deep_view() == row_from(hv, v, gv, a, b, w.wanted, i as nat, j as nat),
        decreases j,
    {
        j = j - 1;
        let test = make::rel(RelOp::Lt, w.u2.clone(), make::number(w.across[j + 1]));
        let piece = write_piece(h, sums, w, i, j);
        row = make::either(test, piece, row);
    }
    row
}

fn write_grid<
    A1: Fn(&Vec<Number>, &Vec<Number>) -> Vec<Number>,
    A2: Fn(Number) -> String,
    W: Fn(Arith, Number, Number) -> Number,
    O: Fn(&str, &Vec<Number>) -> Option<Vec<Number>>,
    N: Fn(&str) -> String,
>(h: &Drawing<A1, A2>, sums: &Sums<W, O, N>, w: &Sheet) -> (r: Expr)
    requires
        draws_true(*h),
        is_steady(*sums),
        sheet_true(drawing_of(*h), *w),
    ensures
        r.deep_view() == grid_from(
            drawing_of(*h),
            sums_of(*sums),
            w.g.deep_view(),
            w.u1.deep_view(),
            w.u2.deep_view(),
            w.wanted,
            0,
        ),
{
    let ghost hv = drawing_of(*h);
    let ghost v = sums_of(*sums);
    let ghost gv = w.g.deep_view();
    let ghost a = w.u1.deep_view();
    let ghost b = w.u2.deep_view();
    let last: usize = find_last(w.down);
    let mut written = write_row(h, sums, w, last);
    let mut i: usize = last;
    while i > 0
        invariant
            i <= last,
            last == last_interval(w.down@),
            draws_true(*h),
            is_steady(*sums),
            sheet_true(hv, *w),
            hv == drawing_of(*h),
            v == sums_of(*sums),
            gv == w.g.deep_view(),
            a == w.u1.deep_view(),
            b == w.u2.deep_view(),
            written.deep_view() == grid_from(hv, v, gv, a, b, w.wanted, i as nat),
        decreases i,
    {
        i = i - 1;
        let test = make::rel(RelOp::Lt, w.u1.clone(), make::number(w.down[i + 1]));
        let row = write_row(h, sums, w, i);
        written = make::either(test, row, written);
    }
    written
}

/// What a two-dimensional table says at `(u1, u2)`.
///
/// A point inside falls in one cell of the grid, and what the table says there
/// is the four corners weighted by how far into the cell it is. Outside the
/// grid, what the table asked for: the edge cell's plane carried on, the edge
/// itself held, the grid repeated, or the run told it has gone wrong. Past an
/// edge that is held, the slope along that abscissa is nothing.
pub fn on_the_grid<
    A1: Fn(&Vec<Number>, &Vec<Number>) -> Vec<Number>,
    A2: Fn(Number) -> String,
    W: Fn(Arith, Number, Number) -> Number,
    O: Fn(&str, &Vec<Number>) -> Option<Vec<Number>>,
    N: Fn(&str) -> String,
>(
    h: &Drawing<A1, A2>,
    sums: &Sums<W, O, N>,
    g: &Grid,
    u1: &Expr,
    u2: &Expr,
    wanted: Wanted,
) -> (r: Result<Read, String>)
    requires
        draws_true(*h),
        is_steady(*sums),
        is_matrix(g.deep_view().rows),
    ensures
        told(r) == grid_read(
            drawing_of(*h),
            sums_of(*sums),
            g.deep_view(),
            u1.deep_view(),
            u2.deep_view(),
            wanted,
        ),
{
    let ghost hv = drawing_of(*h);
    let ghost gv = g.deep_view();
    if let Smoothness::Other(code) = g.smoothness {
        let text = whole(code);
        return Err(
            join3(
                "a two-dimensional table asks for smoothness ",
                text.as_str(),
                ", and this compiler writes out the linear, the constant and the Akima spline only",
            ),
        );
    }
    if let Extrapolation::Other(code) = g.extrapolation {
        let text = whole(code);
        return Err(
            join3(
                "a two-dimensional table asks for extrapolation ",
                text.as_str(),
                ", which this compiler does not know",
            ),
        );
    }
    let down = find_down(g);
    let across = find_across(g);
    if down.len() == 0 || across.len() == 0 {
        return Err("a two-dimensional table has no grid to read".to_owned());
    }
    assert(gv.rows[0] == g.rows@[0]@);
    let a = bring_back(sums, g, &down, u1);
    let b = bring_back(sums, g, &across, u2);
    let mut checks: Vec<(Expr, String)> = Vec::new();
    assert(checks.deep_view() =~= Seq::empty());
    if g.extrapolation == Extrapolation::Refused {
        let first = check_scope(h, &down, &a, "first");
        let second = check_scope(h, &across, &b, "second");
        let ghost fv = first.deep_view();
        let ghost sv = second.deep_view();
        checks.push(first);
        checks.push(second);
        assert(checks.deep_view() =~= seq![fv, sv]);
    }
    let slopes: Option<GridSlopes> = if g.smoothness == Smoothness::Akima {
        if let Some(point) = find_repeated(&down) {
            let shown = h.do_show(point);
            return Err(
                join5(
                    "a two-dimensional table asked for an Akima spline gives ",
                    shown.as_str(),
                    " twice on its ",
                    "first",
                    " abscissa, and a spline needs the points to follow one another",
                ),
            );
        }
        if let Some(point) = find_repeated(&across) {
            let shown = h.do_show(point);
            return Err(
                join5(
                    "a two-dimensional table asked for an Akima spline gives ",
                    shown.as_str(),
                    " twice on its ",
                    "second",
                    " abscissa, and a spline needs the points to follow one another",
                ),
            );
        }
        Some(grid_slopes(h, sums, g, &down, &across))
    } else {
        None
    };
    let w = Sheet { g, down: &down, across: &across, slopes: &slopes, u1: &a, u2: &b, wanted };
    let written = write_grid(h, sums, &w);
    let written = match wanted {
        Wanted::Value => written,
        Wanted::SlopeDown => hold_slope(g, &down, &a, written),
        Wanted::SlopeAcross => hold_slope(g, &across, &b, written),
    };
    Ok(Read { written, checks })
}

}
