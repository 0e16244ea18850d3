//! What a splined two-dimensional table is worth while the model runs: in each cell
//! the surface that takes the values and the slopes given at the cell's corners.
use crate::agreeing::lemma_opposite;
use crate::crossings::{
    given_at, how_far, is_drawn, is_exact, is_pinned, is_read_in, last_between, lemma_axes,
    lemma_cell, lemma_fraction, lemma_grid, points_across, points_down,
};
use crate::expr::ExprV;
use crate::grids::{
    axis_across, axis_down, brought_back, cell_written, corners, fraction_along, grid_read, hermite,
    multiplied, power_of, raised, repeated_from, term_of, terms_summed, width_of, DrawingV,
    Extrapolation, GridV, Smoothness, Wanted,
};
use crate::meaning::{
    law_a_count_is_worth_itself, lemma_level_with_zero, lemma_one, lemma_plain_products,
    lemma_products, lemma_zero, real_of, worth, Moment,
};
use crate::number::{nearest, one, zero, Number};
use crate::sums::{Arith, SumsV};
use vstd::prelude::*;

verus! {

/// The curve over one interval that is one, or climbs at one, at one end, and is
/// flat and nothing otherwise: the first is one at the near end, the second climbs
/// there, the third is one at the far end, and the fourth climbs there.
pub open spec fn curve(a: nat, x: real) -> real {
    let square = x * x;
    let cube = x * x * x;
    if a == 0 {
        1 as real - 3 as real * square + 2 as real * cube
    } else if a == 1 {
        x - 2 as real * square + cube
    } else if a == 2 {
        3 as real * square - 2 as real * cube
    } else {
        cube - square
    }
}

/// What multiplies each power in such a curve.
pub open spec fn share(a: nat, p: nat) -> int {
    if a == 0 {
        if p == 0 {
            1
        } else if p == 1 {
            0
        } else if p == 2 {
            -3
        } else {
            2
        }
    } else if a == 1 {
        if p == 0 {
            0
        } else if p == 1 {
            1
        } else if p == 2 {
            -2
        } else {
            1
        }
    } else if a == 2 {
        if p == 0 || p == 1 {
            0
        } else if p == 2 {
            3
        } else {
            -2
        }
    } else {
        if p == 0 || p == 1 {
            0
        } else if p == 2 {
            -1
        } else {
            1
        }
    }
}

proof fn lemma_share(a: nat, p: nat)
    ensures
        hermite(a, p).is_finite(),
        real_of(hermite(a, p)) == share(a, p) as real,
        -3 <= share(a, p) <= 3,
{
    lemma_zero();
    lemma_one();
    law_a_count_is_worth_itself(2);
    law_a_count_is_worth_itself(3);
    crate::number::law_a_count_is_whole(2);
    crate::number::law_a_count_is_whole(3);
    lemma_opposite(nearest(2));
    lemma_opposite(nearest(3));
    lemma_opposite(one());
}

/// The largest whole number up to which every one can be told from the next.
pub open spec fn most_whole() -> int {
    0x20_0000_0000_0000
}

pub open spec fn is_within_whole(x: int) -> bool {
    -most_whole() <= x <= most_whole()
}

/// Whether a number is worth a whole number.
pub open spec fn is_whole(n: Number, k: int) -> bool {
    real_of(n) == k as real && is_within_whole(k)
}

/// Whether a sum of whole numbers comes out exactly, where it is not too large.
pub open spec fn adds(v: SumsV, a: Number, b: Number, k: int, l: int) -> bool {
    is_whole(a, k) && is_whole(b, l) && is_within_whole(k + l) ==> is_whole(
        (v.work)(Arith::Add, a, b),
        k + l,
    )
}

/// Whether a product of whole numbers does.
pub open spec fn multiplies(v: SumsV, a: Number, b: Number, k: int, l: int) -> bool {
    is_whole(a, k) && is_whole(b, l) && is_within_whole(k * l) ==> is_whole(
        (v.work)(Arith::Mul, a, b),
        k * l,
    )
}

/// Whether adding and multiplying whole numbers come out exactly, as long as what
/// they come to is not too large.
pub open spec fn works_whole(v: SumsV) -> bool {
    &&& forall|a: Number, b: Number, k: int, l: int| #[trigger] adds(v, a, b, k, l)
    &&& forall|a: Number, b: Number, k: int, l: int| #[trigger] multiplies(v, a, b, k, l)
}

/// How large the values and slopes at the corners of a cell may be.
pub open spec fn most_corner() -> int {
    0x100_0000_0000
}

/// Whether the values and slopes at the corners of a cell are whole numbers.
pub open spec fn are_whole(m: Seq<Number>, w: Seq<int>) -> bool {
    &&& m.len() == 16
    &&& w.len() == 16
    &&& forall|k: int|
        0 <= k < 16 ==> is_whole(#[trigger] m[k], w[k]) && -most_corner() <= w[k] <= most_corner()
}

/// What multiplies a product of powers, summed over the first corners' entries.
spec fn shares(w: Seq<int>, p: nat, q: nat, n: nat) -> int
    decreases n,
{
    if n == 0 {
        0
    } else {
        shares(w, p, q, (n - 1) as nat) + (share(((n - 1) / 4) as nat, p) * w[n - 1]) * share(
            ((n - 1) % 4) as nat,
            q,
        )
    }
}

proof fn lemma_small(c: int, x: int, most: int)
    requires
        -3 <= c <= 3,
        -most <= x <= most,
    ensures
        -3 * most <= c * x <= 3 * most,
        x * c == c * x,
{
    assert(x * c == c * x) by (nonlinear_arith);
    if c == -3 {
        assert(c * x == -3 * x);
    } else if c == -2 {
        assert(c * x == -2 * x);
    } else if c == -1 {
        assert(c * x == -x);
    } else if c == 0 {
        assert(c * x == 0);
    } else if c == 1 {
        assert(c * x == x);
    } else if c == 2 {
        assert(c * x == 2 * x);
    } else {
        assert(c * x == 3 * x);
    }
}

proof fn lemma_power(v: SumsV, m: Seq<Number>, w: Seq<int>, p: nat, q: nat, n: nat)
    requires
        works_whole(v),
        are_whole(m, w),
        n <= 16,
    ensures
        is_whole(power_of(v, m, p, q, n), shares(w, p, q, n)),
        -9 * n * most_corner() <= shares(w, p, q, n) <= 9 * n * most_corner(),
    decreases n,
{
    lemma_zero();
    if n > 0 {
        let less = (n - 1) as nat;
        lemma_power(v, m, w, p, q, less);
        let a = (less / 4) as nat;
        let b = (less % 4) as nat;
        let x = w[n - 1];
        let c = share(a, p);
        let d = share(b, q);
        lemma_share(a, p);
        lemma_share(b, q);
        assert(is_whole(m[n - 1], x));
        lemma_small(c, x, most_corner());
        lemma_small(d, c * x, 3 * most_corner());
        assert(is_whole(hermite(a, p), c));
        assert(is_whole(hermite(b, q), d));
        let first = (v.work)(Arith::Mul, hermite(a, p), m[n - 1]);
        assert(multiplies(v, hermite(a, p), m[n - 1], c, x));
        assert(is_whole(first, c * x));
        let second = (v.work)(Arith::Mul, first, hermite(b, q));
        assert(multiplies(v, first, hermite(b, q), c * x, d));
        assert(is_whole(second, (c * x) * d));
        let before = power_of(v, m, p, q, less);
        assert(is_whole(before, shares(w, p, q, less)));
        assert(adds(v, before, second, shares(w, p, q, less), (c * x) * d));
    }
}

/// A value raised to a power.
pub open spec fn to_the(x: real, p: nat) -> real
    decreases p,
{
    if p == 0 {
        1 as real
    } else {
        to_the(x, (p - 1) as nat) * x
    }
}

proof fn lemma_raised(e: ExprV, p: nat, m: Moment)
    ensures
        match raised(e, p) {
            Some(made) => p > 0 && worth(made, m) == to_the(worth(e, m), p),
            None => p == 0,
        },
    decreases p,
{
    if p > 0 {
        let less = (p - 1) as nat;
        lemma_raised(e, less, m);
        match raised(e, less) {
            Some(before) => {
                let made = ExprV::Bin(crate::expr::BinOp::Mul, Box::new(before), Box::new(e));
                assert(worth(made, m) == worth(before, m) * worth(e, m));
            },
            None => {
                lemma_plain_products(worth(e, m));
                assert(to_the(worth(e, m), 0) == 1 as real);
            },
        }
    }
}

proof fn lemma_multiplied(term: ExprV, e: ExprV, p: nat, m: Moment)
    ensures
        worth(multiplied(term, raised(e, p)), m) == worth(term, m) * to_the(worth(e, m), p),
{
    lemma_raised(e, p, m);
    match raised(e, p) {
        Some(part) => {
            let made = ExprV::Bin(crate::expr::BinOp::Mul, Box::new(term), Box::new(part));
            assert(worth(made, m) == worth(term, m) * worth(part, m));
        },
        None => {
            lemma_plain_products(worth(term, m));
            lemma_products(worth(term, m), 1 as real, 0 as real);
        },
    }
}

/// The first terms of a cell added up, each a number and the powers of how far
/// along both ways.
spec fn powers_summed(w: Seq<int>, s: real, t: real, entries: nat, n: nat) -> real
    decreases n,
{
    if n == 0 {
        0 as real
    } else {
        let p = ((n - 1) / 4) as nat;
        let q = ((n - 1) % 4) as nat;
        powers_summed(w, s, t, entries, (n - 1) as nat) + (shares(w, p, q, entries) as real
            * to_the(s, p)) * to_the(t, q)
    }
}

proof fn lemma_terms(
    v: SumsV,
    m: Seq<Number>,
    w: Seq<int>,
    s: ExprV,
    t: ExprV,
    a: Number,
    b: Number,
    n: nat,
    mo: Moment,
)
    requires
        works_whole(v),
        are_whole(m, w),
        n <= 16,
    ensures
        match terms_summed(v, m, s, t, Wanted::Value, a, b, n) {
            Some(e) => worth(e, mo),
            None => 0 as real,
        } == powers_summed(w, worth(s, mo), worth(t, mo), 16, n),
    decreases n,
{
    if n > 0 {
        let less = (n - 1) as nat;
        lemma_terms(v, m, w, s, t, a, b, less, mo);
        let p = (less / 4) as nat;
        let q = (less % 4) as nat;
        lemma_power(v, m, w, p, q, 16);
        let power = power_of(v, m, p, q, 16);
        let k = shares(w, p, q, 16);
        lemma_one();
        assert(is_whole(one(), 1));
        let number = (v.work)(Arith::Mul, power, one());
        assert(multiplies(v, power, one(), k, 1));
        assert(is_whole(number, k));
        let x = worth(s, mo);
        let y = worth(t, mo);
        let one_term = term_of(v, m, s, t, Wanted::Value, a, b, p, q);
        if number.level(zero()) {
            lemma_level_with_zero(number);
            lemma_plain_products(to_the(x, p));
            lemma_plain_products(to_the(y, q));
            assert(one_term is None);
        } else {
            let c = ExprV::Number(number);
            assert(worth(c, mo) == k as real);
            let first = multiplied(c, raised(s, p));
            let whole = multiplied(first, raised(t, q));
            lemma_multiplied(c, s, p, mo);
            lemma_multiplied(first, t, q, mo);
            assert(one_term == Some(whole));
            match terms_summed(v, m, s, t, Wanted::Value, a, b, less) {
                Some(before) => {
                    let sum = ExprV::Bin(
                        crate::expr::BinOp::Add,
                        Box::new(before),
                        Box::new(whole),
                    );
                    assert(worth(sum, mo) == worth(before, mo) + worth(whole, mo));
                },
                None => {},
            }
        }
    }
}

/// The surface over a cell: each corner's value or slope times the two curves that
/// carry it.
pub open spec fn surface(w: Seq<int>, s: real, t: real, n: nat) -> real
    decreases n,
{
    if n == 0 {
        0 as real
    } else {
        surface(w, s, t, (n - 1) as nat) + (curve(((n - 1) / 4) as nat, s) * (w[n - 1] as real))
            * curve(((n - 1) % 4) as nat, t)
    }
}

proof fn lemma_four_by_four(
    x0: real,
    x1: real,
    x2: real,
    x3: real,
    y0: real,
    y1: real,
    y2: real,
    y3: real,
)
    ensures
        (x0 + x1 + x2 + x3) * (y0 + y1 + y2 + y3) == x0 * y0 + x0 * y1 + x0 * y2 + x0 * y3 + x1 * y0
            + x1 * y1 + x1 * y2 + x1 * y3 + x2 * y0 + x2 * y1 + x2 * y2 + x2 * y3 + x3 * y0 + x3
            * y1 + x3 * y2 + x3 * y3,
{
    let y = y0 + y1 + y2 + y3;
    lemma_by_four(x0, y0, y1, y2, y3);
    lemma_by_four(x1, y0, y1, y2, y3);
    lemma_by_four(x2, y0, y1, y2, y3);
    lemma_by_four(x3, y0, y1, y2, y3);
    lemma_by_four(y, x0, x1, x2, x3);
    lemma_products(y, x0 + x1 + x2 + x3, 0 as real);
    lemma_products(y, x0, 0 as real);
    lemma_products(y, x1, 0 as real);
    lemma_products(y, x2, 0 as real);
    lemma_products(y, x3, 0 as real);
}

proof fn lemma_by_four(x: real, a: real, b: real, c: real, d: real)
    ensures
        x * (a + b + c + d) == x * a + x * b + x * c + x * d,
{
    lemma_products(x, a + b + c, d);
    lemma_products(x, a + b, c);
    lemma_products(x, a, b);
}

proof fn lemma_some_times(c: int, y: real)
    ensures
        c == 0 ==> (c as real) * y == 0 as real,
        c == 1 ==> (c as real) * y == y,
        c == 2 ==> (c as real) * y == 2 as real * y,
        c == 3 ==> (c as real) * y == 3 as real * y,
        c == -1 ==> (c as real) * y == -y,
        c == -2 ==> (c as real) * y == -(2 as real * y),
        c == -3 ==> (c as real) * y == -(3 as real * y),
{
    assert(0 as real * y == 0 as real) by (nonlinear_arith);
    assert(1 as real * y == y) by (nonlinear_arith);
    assert((-1) as real * y == -y) by (nonlinear_arith);
    assert((-2) as real * y == -(2 as real * y)) by (nonlinear_arith);
    assert((-3) as real * y == -(3 as real * y)) by (nonlinear_arith);
}

proof fn lemma_curve(a: nat, x: real)
    requires
        a < 4,
    ensures
        curve(a, x) == (share(a, 0) as real) * to_the(x, 0) + (share(a, 1) as real) * to_the(x, 1)
            + (share(a, 2) as real) * to_the(x, 2) + (share(a, 3) as real) * to_the(x, 3),
{
    reveal_with_fuel(to_the, 4);
    lemma_plain_products(x);
    lemma_some_times(share(a, 0), to_the(x, 0));
    lemma_some_times(share(a, 1), to_the(x, 1));
    lemma_some_times(share(a, 2), to_the(x, 2));
    lemma_some_times(share(a, 3), to_the(x, 3));
    assert(to_the(x, 1) == x);
    assert(to_the(x, 2) == x * x);
    assert(to_the(x, 3) == x * x * x);
}

proof fn lemma_whole_product(a: int, b: int)
    ensures
        (a * b) as real == (a as real) * (b as real),
{
    assert((a * b) as real == (a as real) * (b as real)) by (nonlinear_arith);
}

proof fn lemma_moved(a: real, b: real, c: real)
    ensures
        (a * b) * c == (a * c) * b,
        (a * b) * c == a * (b * c),
{
    assert((a * b) * c == (a * c) * b) by (nonlinear_arith);
    assert((a * b) * c == a * (b * c)) by (nonlinear_arith);
}

/// What one entry adds to a term is what it carries times the two powers.
proof fn lemma_entry(c: int, x: int, d: int, u: real, z: real)
    ensures
        ((((c * x) * d) as real) * u) * z == ((c as real * u) * (x as real)) * (d as real * z),
{
    let a = c as real;
    let b = x as real;
    let e = d as real;
    lemma_whole_product(c, x);
    lemma_whole_product(c * x, d);
    lemma_moved(a * b, e, u);
    lemma_moved(a, b, u);
    lemma_moved((a * u) * b, e, z);
}

spec fn entry(w: Seq<int>, k: int, p: nat, q: nat) -> int {
    (share((k / 4) as nat, p) * w[k]) * share((k % 4) as nat, q)
}

spec fn entry_summed(w: Seq<int>, k: int, s: real, t: real, n: nat) -> real
    decreases n,
{
    if n == 0 {
        0 as real
    } else {
        let p = ((n - 1) / 4) as nat;
        let q = ((n - 1) % 4) as nat;
        entry_summed(w, k, s, t, (n - 1) as nat) + ((entry(w, k, p, q) as real) * to_the(s, p))
            * to_the(t, q)
    }
}

proof fn lemma_one_more_entry(w: Seq<int>, s: real, t: real, k: nat, n: nat)
    ensures
        powers_summed(w, s, t, k + 1, n) == powers_summed(w, s, t, k, n) + entry_summed(
            w,
            k as int,
            s,
            t,
            n,
        ),
    decreases n,
{
    if n > 0 {
        let less = (n - 1) as nat;
        lemma_one_more_entry(w, s, t, k, less);
        let p = (less / 4) as nat;
        let q = (less % 4) as nat;
        let a = shares(w, p, q, k) as real;
        let b = entry(w, k as int, p, q) as real;
        assert(shares(w, p, q, k + 1) as real == a + b);
        let x = to_the(s, p);
        let y = to_the(t, q);
        lemma_products(x, a, b);
        lemma_products(x, a + b, 0 as real);
        lemma_products(x, b, 0 as real);
        lemma_products(y, a * x, b * x);
        lemma_products(y, (a + b) * x, 0 as real);
        lemma_products(y, a * x, 0 as real);
        lemma_products(y, b * x, 0 as real);
    }
}

proof fn lemma_entry_is(w: Seq<int>, k: int, s: real, t: real)
    requires
        0 <= k < 16,
    ensures
        entry_summed(w, k, s, t, 16) == (curve((k / 4) as nat, s) * (w[k] as real)) * curve(
            (k % 4) as nat,
            t,
        ),
{
    let a = (k / 4) as nat;
    let b = (k % 4) as nat;
    lemma_curve(a, s);
    lemma_curve(b, t);
    let r = w[k] as real;
    let x0 = share(a, 0) as real * to_the(s, 0);
    let x1 = share(a, 1) as real * to_the(s, 1);
    let x2 = share(a, 2) as real * to_the(s, 2);
    let x3 = share(a, 3) as real * to_the(s, 3);
    let y0 = share(b, 0) as real * to_the(t, 0);
    let y1 = share(b, 1) as real * to_the(t, 1);
    let y2 = share(b, 2) as real * to_the(t, 2);
    let y3 = share(b, 3) as real * to_the(t, 3);
    lemma_by_four(r, x0, x1, x2, x3);
    lemma_products(r, x0, 0 as real);
    lemma_products(r, x1, 0 as real);
    lemma_products(r, x2, 0 as real);
    lemma_products(r, x3, 0 as real);
    lemma_products(r, x0 + x1 + x2 + x3, 0 as real);
    lemma_four_by_four(x0 * r, x1 * r, x2 * r, x3 * r, y0, y1, y2, y3);
    reveal_with_fuel(entry_summed, 17);
    lemma_row_of(w, k, s, t, 0);
    lemma_row_of(w, k, s, t, 1);
    lemma_row_of(w, k, s, t, 2);
    lemma_row_of(w, k, s, t, 3);
}

/// What an entry adds to the four terms of one power of the first.
proof fn lemma_row_of(w: Seq<int>, k: int, s: real, t: real, p: nat)
    requires
        p < 4,
    ensures
        ({
            let a = (k / 4) as nat;
            let b = (k % 4) as nat;
            let x = (share(a, p) as real * to_the(s, p)) * (w[k] as real);
            forall|q: nat|
                q < 4 ==> ((#[trigger] entry(w, k, p, q) as real) * to_the(s, p)) * to_the(t, q) == x
                    * (share(b, q) as real * to_the(t, q))
        }),
{
    let a = (k / 4) as nat;
    let b = (k % 4) as nat;
    let x = (share(a, p) as real * to_the(s, p)) * (w[k] as real);
    assert forall|q: nat| q < 4 implies ((#[trigger] entry(w, k, p, q) as real) * to_the(s, p))
        * to_the(t, q) == x * (share(b, q) as real * to_the(t, q)) by {
        lemma_entry(share(a, p), w[k], share(b, q), to_the(s, p), to_the(t, q));
    }
}

proof fn lemma_surface(w: Seq<int>, s: real, t: real, n: nat)
    requires
        n <= 16,
    ensures
        powers_summed(w, s, t, n, 16) == surface(w, s, t, n),
    decreases n,
{
    if n == 0 {
        lemma_nothing_summed(w, s, t, 16);
    } else {
        let less = (n - 1) as nat;
        lemma_surface(w, s, t, less);
        lemma_one_more_entry(w, s, t, less, 16);
        lemma_entry_is(w, less as int, s, t);
    }
}

proof fn lemma_nothing_summed(w: Seq<int>, s: real, t: real, n: nat)
    ensures
        powers_summed(w, s, t, 0, n) == 0 as real,
    decreases n,
{
    if n > 0 {
        let less = (n - 1) as nat;
        lemma_nothing_summed(w, s, t, less);
        let p = (less / 4) as nat;
        let q = (less % 4) as nat;
        lemma_plain_products(to_the(s, p));
        lemma_plain_products(to_the(t, q));
    }
}

/// A splined cell is worth the surface that takes the values and the slopes at its
/// corners.
pub proof fn law_a_splined_cell_is_the_surface_of_its_corners(
    v: SumsV,
    m: Seq<Number>,
    w: Seq<int>,
    s: ExprV,
    t: ExprV,
    a: Number,
    b: Number,
    mo: Moment,
)
    requires
        works_whole(v),
        are_whole(m, w),
    ensures
        worth(cell_written(v, m, s, t, Wanted::Value, a, b), mo) == surface(
            w,
            worth(s, mo),
            worth(t, mo),
            16,
        ),
{
    lemma_zero();
    assert(worth(ExprV::Number(zero()), mo) == 0 as real);
    lemma_terms(v, m, w, s, t, a, b, 16, mo);
    lemma_surface(w, worth(s, mo), worth(t, mo), 16);
}

proof fn lemma_ends_of_curves(x: real)
    requires
        x == 0 as real || x == 1 as real,
    ensures
        curve(0, x) == 1 as real - x,
        curve(1, x) == 0 as real,
        curve(2, x) == x,
        curve(3, x) == 0 as real,
{
    lemma_plain_products(x);
    assert(x * x == x);
    assert(x * x * x == x);
}

/// At a corner the surface takes the value given there.
proof fn lemma_at_a_corner(w: Seq<int>, s: real, t: real)
    requires
        w.len() == 16,
        s == 0 as real || s == 1 as real,
        t == 0 as real || t == 1 as real,
    ensures
        surface(w, s, t, 16) == if s == 0 as real {
            if t == 0 as real {
                w[0] as real
            } else {
                w[2] as real
            }
        } else {
            if t == 0 as real {
                w[8] as real
            } else {
                w[10] as real
            }
        },
{
    lemma_ends_of_curves(s);
    lemma_ends_of_curves(t);
    reveal_with_fuel(surface, 17);
    lemma_carried(w, s, t, 0);
    lemma_carried(w, s, t, 1);
    lemma_carried(w, s, t, 2);
    lemma_carried(w, s, t, 3);
    lemma_carried(w, s, t, 4);
    lemma_carried(w, s, t, 5);
    lemma_carried(w, s, t, 6);
    lemma_carried(w, s, t, 7);
    lemma_carried(w, s, t, 8);
    lemma_carried(w, s, t, 9);
    lemma_carried(w, s, t, 10);
    lemma_carried(w, s, t, 11);
    lemma_carried(w, s, t, 12);
    lemma_carried(w, s, t, 13);
    lemma_carried(w, s, t, 14);
    lemma_carried(w, s, t, 15);
}

proof fn lemma_carried(w: Seq<int>, s: real, t: real, k: int)
    requires
        0 <= k < 16,
        s == 0 as real || s == 1 as real,
        t == 0 as real || t == 1 as real,
    ensures
        (curve((k / 4) as nat, s) * (w[k] as real)) * curve((k % 4) as nat, t) == (if ((k / 4 == 0
            && s == 0 as real) || (k / 4 == 2 && s == 1 as real)) && ((k % 4 == 0 && t == 0 as real)
            || (k % 4 == 2 && t == 1 as real)) {
            w[k] as real
        } else {
            0 as real
        }),
{
    lemma_ends_of_curves(s);
    lemma_ends_of_curves(t);
    let a = curve((k / 4) as nat, s);
    let b = curve((k % 4) as nat, t);
    let r = w[k] as real;
    lemma_plain_products(r);
    lemma_plain_products(b);
    lemma_products(r, b, 0 as real);
    lemma_plain_products(a * r);
    lemma_products(a * r, b, 0 as real);
}

/// A splined table is, at every crossing, worth what is given there.
pub proof fn law_a_splined_table_is_what_is_given_at_a_crossing(
    h: DrawingV,
    v: SumsV,
    g: GridV,
    w: Seq<int>,
    u1: ExprV,
    u2: ExprV,
    i: nat,
    j: nat,
    far_down: bool,
    far_across: bool,
    mo: Moment,
)
    requires
        g.smoothness == Smoothness::Akima,
        g.extrapolation != Extrapolation::Periodic,
        !(g.extrapolation is Other),
        is_drawn(g),
        is_exact(v, g),
        works_whole(v),
        points_down(g).len() >= 2,
        points_across(g).len() >= 2,
        i <= last_between(points_down(g)),
        j <= last_between(points_across(g)),
        repeated_from(axis_down(g), 0) is None,
        repeated_from(axis_across(g), 0) is None,
        worth(u1, mo) == points_down(g)[if far_down {
            i as int + 1
        } else {
            i as int
        }],
        worth(u2, mo) == points_across(g)[if far_across {
            j as int + 1
        } else {
            j as int
        }],
        is_read_in(points_down(g), i as int, worth(u1, mo)),
        is_read_in(points_across(g), j as int, worth(u2, mo)),
        are_whole(
            corners(
                h,
                v,
                g,
                i,
                j,
                width_of(v, axis_down(g), i, one()),
                width_of(v, axis_across(g), j, one()),
            ),
            w,
        ),
    ensures
        grid_read(h, v, g, u1, u2, Wanted::Value) matches Ok(read) && worth(read.written, mo)
            == given_at(
            g,
            if far_down {
                i as int + 1
            } else {
                i as int
            },
            if far_across {
                j as int + 1
            } else {
                j as int
            },
        ),
{
    lemma_axes(g);
    let down = axis_down(g);
    let across = axis_across(g);
    assert(brought_back(v, g, down, u1) == u1);
    assert(brought_back(v, g, across, u2) == u2);
    lemma_grid(h, v, g, u1, u2, Wanted::Value, 0, i, j, mo);
    lemma_fraction(v, g, down, points_down(g), u1, i, mo);
    lemma_fraction(v, g, across, points_across(g), u2, j, mo);
    let s = fraction_along(v, g, down, u1, i);
    let t = fraction_along(v, g, across, u2, j);
    lemma_at_an_end(points_down(g), i as int, far_down, is_pinned(g));
    lemma_at_an_end(points_across(g), j as int, far_across, is_pinned(g));
    let wide_down = width_of(v, down, i, one());
    let wide_across = width_of(v, across, j, one());
    let m = corners(h, v, g, i, j, wide_down, wide_across);
    law_a_splined_cell_is_the_surface_of_its_corners(v, m, w, s, t, wide_down, wide_across, mo);
    lemma_at_a_corner(w, worth(s, mo), worth(t, mo));
    lemma_cell(g, i, j);
    lemma_cell(g, i, j + 1);
    lemma_cell(g, i + 1, j);
    lemma_cell(g, i + 1, j + 1);
    assert(is_whole(m[0], w[0]) && is_whole(m[2], w[2]) && is_whole(m[8], w[8]) && is_whole(
        m[10],
        w[10],
    ));
}

proof fn lemma_at_an_end(points: Seq<real>, at: int, far: bool, pinned: bool)
    requires
        crate::crossings::is_rising(points),
        0 <= at,
        at + 1 < points.len(),
    ensures
        how_far(
            points,
            at,
            points[if far {
                at + 1
            } else {
                at
            }],
            pinned,
        ) == if far {
            1 as real
        } else {
            0 as real
        },
{
    let wide = points[at + 1] - points[at];
    assert(points[at] < points[at + 1]);
    crate::meaning::lemma_nothing_over(wide);
    crate::meaning::lemma_times_over(1 as real, wide);
    lemma_plain_products(wide);
}

}
