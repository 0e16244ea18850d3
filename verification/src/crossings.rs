//! What a two-dimensional table is worth while the model runs: the value given at
//! every crossing, and between them the mix of the four corners of the cell.
use crate::expr::{BinOp, ExprV, RelOp};
use crate::grids::{
    axis_across, axis_down, brought_back, cell_at, fraction_along, grid_from, grid_read, held_slope,
    holds_beyond, is_matrix, last_interval, less_by, more_by, piece_of, plus, ratio, row_from,
    scaled, DrawingV, Extrapolation, GridV, Smoothness, Wanted,
};
use crate::meaning::{
    compared_reals, holds, larger_real, lemma_level_with_zero, lemma_nothing_over, lemma_one,
    lemma_plain_products, lemma_products, lemma_three, lemma_times_over, lemma_zero, looks_back_at,
    real_of, smaller_real, worth, Moment,
};
use crate::number::{one, zero, Number};
use crate::sums::{Arith, SumsV};
use vstd::prelude::*;

verus! {

/// The points of the first abscissa, down the left column.
pub open spec fn points_down(g: GridV) -> Seq<real> {
    Seq::new((g.rows.len() - 1) as nat, |i: int| real_of(g.rows[i + 1][0]))
}

/// The points of the second abscissa, along the top row.
pub open spec fn points_across(g: GridV) -> Seq<real> {
    Seq::new((g.rows[0].len() - 1) as nat, |j: int| real_of(g.rows[0][j + 1]))
}

/// What is given at a crossing.
pub open spec fn given_at(g: GridV, i: int, j: int) -> real {
    real_of(g.rows[i + 1][j + 1])
}

pub open spec fn is_rising(points: Seq<real>) -> bool {
    forall|a: int, b: int| 0 <= a < b < points.len() ==> #[trigger] points[a] < #[trigger] points[b]
}

/// Whether a table is a matrix with a point on each abscissa at least, both rising.
pub open spec fn is_drawn(g: GridV) -> bool {
    &&& is_matrix(g.rows)
    &&& g.rows.len() >= 2
    &&& g.rows[0].len() >= 2
    &&& is_rising(points_down(g))
    &&& is_rising(points_across(g))
}

/// Whether a number is written in a table.
pub open spec fn is_in_table(g: GridV, n: Number) -> bool {
    exists|i: int, j: int|
        0 <= i < g.rows.len() && 0 <= j < g.rows[i].len() && #[trigger] g.rows[i][j] == n
}

/// Whether taking one number from another comes out exactly.
pub open spec fn takes(v: SumsV, a: Number, b: Number) -> bool {
    real_of((v.work)(Arith::Sub, a, b)) == real_of(a) - real_of(b)
}

/// Whether what four corners leave over comes out exactly.
pub open spec fn crosses(v: SumsV, a: Number, b: Number, c: Number, d: Number) -> bool {
    real_of(
        (v.work)(Arith::Add, (v.work)(Arith::Sub, (v.work)(Arith::Sub, a, b), c), d),
    ) == real_of(a) - real_of(b) - real_of(c) + real_of(d)
}

/// Whether the differences between the numbers of a table come out exactly, as they
/// do where the numbers are whole and not too large.
pub open spec fn is_exact(v: SumsV, g: GridV) -> bool {
    &&& forall|a: Number, b: Number|
        is_in_table(g, a) && is_in_table(g, b) ==> #[trigger] takes(v, a, b)
    &&& forall|a: Number, b: Number, c: Number, d: Number|
        is_in_table(g, a) && is_in_table(g, b) && is_in_table(g, c) && is_in_table(g, d)
            ==> #[trigger] crosses(v, a, b, c, d)
}

/// The last interval between points.
pub open spec fn last_between(points: Seq<real>) -> int {
    if points.len() < 2 {
        0
    } else {
        points.len() - 2
    }
}

/// Whether a value is read in the `at`-th interval of an abscissa: the one that
/// holds it, and the first or the last where none does.
pub open spec fn is_read_in(points: Seq<real>, at: int, x: real) -> bool {
    &&& 0 <= at <= last_between(points)
    &&& at > 0 ==> points[at] <= x
    &&& at < last_between(points) ==> x < points[at + 1]
}

/// How far into an interval a value is, from nothing at its near end to one at its
/// far end, and pinned to those where the table does not carry on beyond its edge.
pub open spec fn how_far(points: Seq<real>, at: int, x: real, pinned: bool) -> real {
    if points.len() < 2 {
        0 as real
    } else {
        let share = (x - points[at]) / (points[at + 1] - points[at]);
        if pinned && share < 0 as real {
            0 as real
        } else if pinned && share > 1 as real {
            1 as real
        } else {
            share
        }
    }
}

/// Whether a table that is read between its points holds its edge.
pub open spec fn is_pinned(g: GridV) -> bool {
    g.extrapolation == Extrapolation::HoldLastPoint || g.extrapolation == Extrapolation::Refused
}

/// The next point along, where there is one.
pub open spec fn far_end(points: Seq<real>, at: int) -> int {
    if points.len() < 2 {
        at
    } else {
        at + 1
    }
}

/// What lies a share of the way from one value to another.
pub open spec fn between(a: real, b: real, share: real) -> real {
    a + share * (b - a)
}

/// What a cell is worth at a point: between the corners along the first abscissa,
/// and then between those along the second.
pub open spec fn mix_of_corners(g: GridV, i: int, j: int, s: real, t: real) -> real {
    let far_i = far_end(points_down(g), i);
    let far_j = far_end(points_across(g), j);
    between(
        between(given_at(g, i, j), given_at(g, far_i, j), s),
        between(given_at(g, i, far_j), given_at(g, far_i, far_j), s),
        t,
    )
}

pub proof fn lemma_axes(g: GridV)
    requires
        is_drawn(g),
    ensures
        axis_down(g).len() == points_down(g).len(),
        axis_across(g).len() == points_across(g).len(),
        forall|i: int|
            0 <= i < axis_down(g).len() ==> real_of(#[trigger] axis_down(g)[i]) == points_down(g)[i]
                && is_in_table(g, axis_down(g)[i]),
        forall|j: int|
            0 <= j < axis_across(g).len() ==> real_of(#[trigger] axis_across(g)[j])
                == points_across(g)[j] && is_in_table(g, axis_across(g)[j]),
        last_interval(axis_down(g)) == last_between(points_down(g)),
        last_interval(axis_across(g)) == last_between(points_across(g)),
{
    assert forall|i: int| 0 <= i < axis_down(g).len() implies real_of(#[trigger] axis_down(g)[i])
        == points_down(g)[i] && is_in_table(g, axis_down(g)[i]) by {
        assert(g.rows[i + 1].len() == g.rows[0].len());
        assert(g.rows[i + 1][0] == axis_down(g)[i]);
    }
    assert forall|j: int| 0 <= j < axis_across(g).len() implies real_of(#[trigger] axis_across(g)[j])
        == points_across(g)[j] && is_in_table(g, axis_across(g)[j]) by {
        assert(g.rows[0][j + 1] == axis_across(g)[j]);
    }
}

pub proof fn lemma_cell(g: GridV, i: nat, j: nat)
    requires
        is_drawn(g),
        i < g.rows.len() - 1,
        j < g.rows[0].len() - 1,
    ensures
        real_of(cell_at(g, i, j)) == given_at(g, i as int, j as int),
        is_in_table(g, cell_at(g, i, j)),
{
    let a = i as int + 1;
    let b = j as int + 1;
    assert(g.rows[a].len() == g.rows[0].len());
    assert(g.rows[a][b] == cell_at(g, i, j));
}

pub proof fn lemma_fraction(
    v: SumsV,
    g: GridV,
    axis: Seq<Number>,
    points: Seq<real>,
    u: ExprV,
    at: nat,
    m: Moment,
)
    requires
        g.smoothness == Smoothness::Linear || g.smoothness == Smoothness::Akima,
        axis.len() == points.len(),
        forall|k: int|
            0 <= k < axis.len() ==> real_of(#[trigger] axis[k]) == points[k] && is_in_table(
                g,
                axis[k],
            ),
        is_rising(points),
        is_exact(v, g),
        points.len() >= 2 ==> at + 1 < points.len(),
    ensures
        worth(fraction_along(v, g, axis, u, at), m) == how_far(
            points,
            at as int,
            worth(u, m),
            is_pinned(g),
        ),
{
    lemma_zero();
    lemma_one();
    let none = ExprV::Number(zero());
    assert(worth(none, m) == 0 as real);
    if axis.len() >= 2 {
        let i = at as int;
        let near = axis[i];
        let far = axis[i + 1];
        let run = less_by(v, far, near);
        assert(takes(v, far, near));
        assert(points[i] < points[i + 1]);
        assert(real_of(run) == points[i + 1] - points[i]);
        if run.level(zero()) {
            lemma_level_with_zero(run);
            assert(false);
        }
        let low = ExprV::Number(near);
        let span = ExprV::Number(run);
        let gone = ExprV::Bin(BinOp::Sub, Box::new(u), Box::new(low));
        let share = ExprV::Bin(BinOp::Div, Box::new(gone), Box::new(span));
        assert(worth(low, m) == points[i]);
        assert(worth(span, m) == points[i + 1] - points[i]);
        assert(worth(gone, m) == worth(u, m) - worth(low, m));
        assert(worth(share, m) == worth(gone, m) / worth(span, m));
        if holds_beyond(g) {
            reveal_strlit("max");
            reveal_strlit("min");
            reveal_strlit("previous");
            reveal_strlit("pre");
            assert("max"@[1] == 'a' && "min"@[1] == 'i' && "min"@[0] == 'm' && "max"@[0] == 'm');
            assert("pre"@[0] == 'p' && "previous"@[0] == 'p');
            let unit = ExprV::Number(one());
            assert(worth(unit, m) == 1 as real);
            let inner = seq![none, share];
            let least = ExprV::Call("max"@, inner);
            assert(looks_back_at("max"@, inner) is None);
            assert(worth(inner[0], m) == 0 as real && worth(inner[1], m) == worth(share, m));
            assert(worth(least, m) == larger_real(0 as real, worth(share, m)));
            let outer = seq![unit, least];
            assert(looks_back_at("min"@, outer) is None);
            assert(worth(outer[0], m) == 1 as real && worth(outer[1], m) == worth(least, m));
            assert(worth(ExprV::Call("min"@, outer), m) == smaller_real(1 as real, worth(least, m)));
        }
    }
}

proof fn lemma_corners(c00: real, c10: real, c01: real, c11: real, s: real, t: real)
    ensures
        c00 + (c10 - c00) * s + (c01 - c00) * t + (c00 - c10 - c01 + c11) * (s * t) == between(
            between(c00, c10, s),
            between(c01, c11, s),
            t,
        ),
{
    let x = s * (c10 - c00);
    let y = s * (c11 - c01);
    let left = c00 - c10 - c01 + c11;
    lemma_products(s, c10 - c00, c00);
    lemma_products(t, c01 - c00, y - x);
    lemma_products(s, c11 - c01, c10 - c00);
    assert(c11 - c01 - (c10 - c00) == left);
    assert(y - x == s * left);
    assert(between(c01, c11, s) - between(c00, c10, s) == (c01 - c00) + (y - x));
    lemma_three(t, s, left);
}

proof fn lemma_piece(
    h: DrawingV,
    v: SumsV,
    g: GridV,
    u1: ExprV,
    u2: ExprV,
    i: nat,
    j: nat,
    m: Moment,
)
    requires
        g.smoothness == Smoothness::Linear,
        is_drawn(g),
        is_exact(v, g),
        i <= last_between(points_down(g)),
        j <= last_between(points_across(g)),
    ensures
        worth(piece_of(h, v, g, u1, u2, Wanted::Value, i, j), m) == mix_of_corners(
            g,
            i as int,
            j as int,
            how_far(points_down(g), i as int, worth(u1, m), is_pinned(g)),
            how_far(points_across(g), j as int, worth(u2, m), is_pinned(g)),
        ),
{
    lemma_axes(g);
    let down = axis_down(g);
    let across = axis_across(g);
    let s = fraction_along(v, g, down, u1, i);
    let t = fraction_along(v, g, across, u2, j);
    lemma_fraction(v, g, down, points_down(g), u1, i, m);
    lemma_fraction(v, g, across, points_across(g), u2, j, m);
    let far_i: nat = if down.len() > 1 {
        i + 1
    } else {
        i
    };
    let far_j: nat = if across.len() > 1 {
        j + 1
    } else {
        j
    };
    let c00 = cell_at(g, i, j);
    let c10 = cell_at(g, far_i, j);
    let c01 = cell_at(g, i, far_j);
    let c11 = cell_at(g, far_i, far_j);
    lemma_cell(g, i, j);
    lemma_cell(g, far_i, j);
    lemma_cell(g, i, far_j);
    lemma_cell(g, far_i, far_j);
    assert(takes(v, c10, c00));
    assert(takes(v, c01, c00));
    assert(crosses(v, c00, c10, c01, c11));
    let corner = more_by(v, less_by(v, less_by(v, c00, c10), c01), c11);
    let a = ExprV::Number(c00);
    let b = ExprV::Number(less_by(v, c10, c00));
    let c = ExprV::Number(less_by(v, c01, c00));
    let d = ExprV::Number(corner);
    assert(worth(a, m) == real_of(c00));
    assert(worth(b, m) == real_of(c10) - real_of(c00));
    assert(worth(c, m) == real_of(c01) - real_of(c00));
    assert(worth(d, m) == real_of(c00) - real_of(c10) - real_of(c01) + real_of(c11));
    assert(worth(scaled(b, s), m) == worth(b, m) * worth(s, m));
    assert(worth(scaled(c, t), m) == worth(c, m) * worth(t, m));
    assert(worth(scaled(s, t), m) == worth(s, m) * worth(t, m));
    assert(worth(scaled(d, scaled(s, t)), m) == worth(d, m) * worth(scaled(s, t), m));
    let first = plus(a, scaled(b, s));
    assert(worth(first, m) == worth(a, m) + worth(scaled(b, s), m));
    let second = plus(first, scaled(c, t));
    assert(worth(second, m) == worth(first, m) + worth(scaled(c, t), m));
    let whole = plus(second, scaled(d, scaled(s, t)));
    assert(worth(whole, m) == worth(second, m) + worth(scaled(d, scaled(s, t)), m));
    lemma_corners(
        real_of(c00),
        real_of(c10),
        real_of(c01),
        real_of(c11),
        worth(s, m),
        worth(t, m),
    );
}

proof fn lemma_row(
    h: DrawingV,
    v: SumsV,
    g: GridV,
    u1: ExprV,
    u2: ExprV,
    wanted: Wanted,
    i: nat,
    from: nat,
    j: nat,
    m: Moment,
)
    requires
        is_drawn(g),
        is_read_in(points_across(g), j as int, worth(u2, m)),
        from <= j,
    ensures
        worth(row_from(h, v, g, u1, u2, wanted, i, from), m) == worth(
            piece_of(h, v, g, u1, u2, wanted, i, j),
            m,
        ),
    decreases j - from,
{
    lemma_axes(g);
    let points = points_across(g);
    if from < last_interval(axis_across(g)) {
        let next = ExprV::Number(axis_across(g)[from as int + 1]);
        let test = ExprV::Rel(RelOp::Lt, Box::new(u2), Box::new(next));
        assert(worth(next, m) == points[from as int + 1]);
        assert(holds(test, m) == compared_reals(RelOp::Lt, worth(u2, m), worth(next, m)));
        if from < j {
            if from + 1 < j {
                assert(points[from as int + 1] < points[j as int]);
            }
            lemma_row(h, v, g, u1, u2, wanted, i, from + 1, j, m);
        }
    }
}

pub proof fn lemma_grid(
    h: DrawingV,
    v: SumsV,
    g: GridV,
    u1: ExprV,
    u2: ExprV,
    wanted: Wanted,
    from: nat,
    i: nat,
    j: nat,
    m: Moment,
)
    requires
        is_drawn(g),
        is_read_in(points_down(g), i as int, worth(u1, m)),
        is_read_in(points_across(g), j as int, worth(u2, m)),
        from <= i,
    ensures
        worth(grid_from(h, v, g, u1, u2, wanted, from), m) == worth(
            piece_of(h, v, g, u1, u2, wanted, i, j),
            m,
        ),
    decreases i - from,
{
    lemma_axes(g);
    lemma_row(h, v, g, u1, u2, wanted, i, 0, j, m);
    let points = points_down(g);
    if from < last_interval(axis_down(g)) {
        let next = ExprV::Number(axis_down(g)[from as int + 1]);
        let test = ExprV::Rel(RelOp::Lt, Box::new(u1), Box::new(next));
        assert(worth(next, m) == points[from as int + 1]);
        assert(holds(test, m) == compared_reals(RelOp::Lt, worth(u1, m), worth(next, m)));
        if from < i {
            if from + 1 < i {
                assert(points[from as int + 1] < points[i as int]);
            }
            lemma_grid(h, v, g, u1, u2, wanted, from + 1, i, j, m);
        }
    }
}

/// A linear table read at a point is the mix of the four corners of the cell the
/// point is in, each weighed by how near the point is to it. Past an edge the
/// outermost cell is carried on, or its edge held where the table says so.
pub proof fn law_a_table_is_the_mix_of_the_corners(
    h: DrawingV,
    v: SumsV,
    g: GridV,
    u1: ExprV,
    u2: ExprV,
    i: nat,
    j: nat,
    m: Moment,
)
    requires
        g.smoothness == Smoothness::Linear,
        g.extrapolation != Extrapolation::Periodic,
        !(g.extrapolation is Other),
        is_drawn(g),
        is_exact(v, g),
        is_read_in(points_down(g), i as int, worth(u1, m)),
        is_read_in(points_across(g), j as int, worth(u2, m)),
    ensures
        grid_read(h, v, g, u1, u2, Wanted::Value) matches Ok(read) && worth(read.written, m)
            == mix_of_corners(
            g,
            i as int,
            j as int,
            how_far(points_down(g), i as int, worth(u1, m), is_pinned(g)),
            how_far(points_across(g), j as int, worth(u2, m), is_pinned(g)),
        ),
{
    lemma_axes(g);
    lemma_grid(h, v, g, u1, u2, Wanted::Value, 0, i, j, m);
    lemma_piece(h, v, g, u1, u2, i, j, m);
    assert(brought_back(v, g, axis_down(g), u1) == u1);
    assert(brought_back(v, g, axis_across(g), u2) == u2);
}

proof fn lemma_at_a_point(points: Seq<real>, k: int, pinned: bool)
    requires
        is_rising(points),
        0 <= k < points.len(),
    ensures
        ({
            let at = if k <= last_between(points) {
                k
            } else {
                last_between(points)
            };
            &&& is_read_in(points, at, points[k])
            &&& how_far(points, at, points[k], pinned) == (if k == at {
                0 as real
            } else {
                1 as real
            })
            &&& k != at ==> far_end(points, at) == k
        }),
{
    let last = last_between(points);
    let at = if k <= last {
        k
    } else {
        last
    };
    if points.len() >= 2 {
        let wide = points[at + 1] - points[at];
        assert(points[at] < points[at + 1]);
        assert(wide > 0 as real);
        lemma_nothing_over(wide);
        lemma_times_over(1 as real, wide);
        lemma_plain_products(wide);
        if at < k {
            assert(k == at + 1);
        }
    }
}

/// A linear table is, at every crossing, worth what is given there.
pub proof fn law_a_table_is_what_is_given_at_a_crossing(
    h: DrawingV,
    v: SumsV,
    g: GridV,
    u1: ExprV,
    u2: ExprV,
    i: int,
    j: int,
    m: Moment,
)
    requires
        g.smoothness == Smoothness::Linear,
        g.extrapolation != Extrapolation::Periodic,
        !(g.extrapolation is Other),
        is_drawn(g),
        is_exact(v, g),
        0 <= i < points_down(g).len(),
        0 <= j < points_across(g).len(),
        worth(u1, m) == points_down(g)[i],
        worth(u2, m) == points_across(g)[j],
    ensures
        grid_read(h, v, g, u1, u2, Wanted::Value) matches Ok(read) && worth(read.written, m)
            == given_at(g, i, j),
{
    let down = points_down(g);
    let across = points_across(g);
    let pinned = is_pinned(g);
    lemma_at_a_point(down, i, pinned);
    lemma_at_a_point(across, j, pinned);
    let a = if i <= last_between(down) {
        i
    } else {
        last_between(down)
    };
    let b = if j <= last_between(across) {
        j
    } else {
        last_between(across)
    };
    law_a_table_is_the_mix_of_the_corners(h, v, g, u1, u2, a as nat, b as nat, m);
    let s = how_far(down, a, down[i], pinned);
    let t = how_far(across, b, across[j], pinned);
    let c00 = given_at(g, a, b);
    let c10 = given_at(g, far_end(down, a), b);
    let c01 = given_at(g, a, far_end(across, b));
    let c11 = given_at(g, far_end(down, a), far_end(across, b));
    lemma_ends(c00, c10);
    lemma_ends(c01, c11);
    lemma_ends(between(c00, c10, s), between(c01, c11, s));
}

proof fn lemma_ends(a: real, b: real)
    ensures
        between(a, b, 0 as real) == a,
        between(a, b, 1 as real) == b,
{
    lemma_plain_products(b - a);
}

/// A stepped table is, all over a cell, worth what is given at the cell's near
/// corner.
pub proof fn law_a_stepped_table_is_its_near_corner(
    h: DrawingV,
    v: SumsV,
    g: GridV,
    u1: ExprV,
    u2: ExprV,
    i: nat,
    j: nat,
    m: Moment,
)
    requires
        g.smoothness == Smoothness::Constant,
        g.extrapolation != Extrapolation::Periodic,
        !(g.extrapolation is Other),
        is_drawn(g),
        is_read_in(points_down(g), i as int, worth(u1, m)),
        is_read_in(points_across(g), j as int, worth(u2, m)),
    ensures
        grid_read(h, v, g, u1, u2, Wanted::Value) matches Ok(read) && worth(read.written, m)
            == given_at(g, i as int, j as int),
        grid_read(h, v, g, u1, u2, Wanted::SlopeDown) matches Ok(read) && worth(read.written, m)
            == 0 as real,
        grid_read(h, v, g, u1, u2, Wanted::SlopeAcross) matches Ok(read) && worth(read.written, m)
            == 0 as real,
{
    lemma_axes(g);
    lemma_zero();
    lemma_cell(g, i, j);
    let down = axis_down(g);
    let across = axis_across(g);
    assert(brought_back(v, g, down, u1) == u1);
    assert(brought_back(v, g, across, u2) == u2);
    let none = ExprV::Number(zero());
    assert(worth(none, m) == 0 as real);
    lemma_grid(h, v, g, u1, u2, Wanted::Value, 0, i, j, m);
    lemma_grid(h, v, g, u1, u2, Wanted::SlopeDown, 0, i, j, m);
    lemma_grid(h, v, g, u1, u2, Wanted::SlopeAcross, 0, i, j, m);
    assert(piece_of(h, v, g, u1, u2, Wanted::SlopeDown, i, j) == none);
    assert(piece_of(h, v, g, u1, u2, Wanted::SlopeAcross, i, j) == none);
    lemma_held(g, down, u1, grid_from(h, v, g, u1, u2, Wanted::SlopeDown, 0), m);
    lemma_held(g, across, u2, grid_from(h, v, g, u1, u2, Wanted::SlopeAcross, 0), m);
    let far_i: nat = if down.len() > 1 {
        i + 1
    } else {
        i
    };
    let far_j: nat = if across.len() > 1 {
        j + 1
    } else {
        j
    };
    assert(fraction_along(v, g, down, u1, i) == none);
    assert(fraction_along(v, g, across, u2, j) == none);
    let c00 = cell_at(g, i, j);
    let c10 = cell_at(g, far_i, j);
    let c01 = cell_at(g, i, far_j);
    let c11 = cell_at(g, far_i, far_j);
    let a = ExprV::Number(c00);
    let b = ExprV::Number(less_by(v, c10, c00));
    let c = ExprV::Number(less_by(v, c01, c00));
    let d = ExprV::Number(more_by(v, less_by(v, less_by(v, c00, c10), c01), c11));
    lemma_by_nothing(b, none, m);
    lemma_by_nothing(c, none, m);
    lemma_by_nothing(none, none, m);
    lemma_by_nothing(d, scaled(none, none), m);
    let first = plus(a, scaled(b, none));
    let second = plus(first, scaled(c, none));
    let whole = plus(second, scaled(d, scaled(none, none)));
    assert(worth(a, m) == real_of(c00));
    assert(worth(first, m) == worth(a, m) + worth(scaled(b, none), m));
    assert(worth(second, m) == worth(first, m) + worth(scaled(c, none), m));
    assert(worth(whole, m) == worth(second, m) + worth(scaled(d, scaled(none, none)), m));
    assert(piece_of(h, v, g, u1, u2, Wanted::Value, i, j) == whole);
}

proof fn lemma_by_nothing(a: ExprV, b: ExprV, m: Moment)
    requires
        worth(b, m) == 0 as real,
    ensures
        worth(scaled(a, b), m) == 0 as real,
{
    let x = worth(a, m);
    lemma_plain_products(x);
    lemma_products(x, 0 as real, 0 as real);
    assert(worth(scaled(a, b), m) == worth(a, m) * worth(b, m));
}

/// Whether a value lies within an abscissa.
pub open spec fn is_within(points: Seq<real>, x: real) -> bool {
    points[0] <= x <= points[points.len() - 1]
}

proof fn lemma_scope(g: GridV, axis: Seq<Number>, points: Seq<real>, u: ExprV, m: Moment)
    requires
        axis.len() == points.len() > 0,
        forall|k: int| 0 <= k < axis.len() ==> real_of(#[trigger] axis[k]) == points[k],
    ensures
        holds(
            ExprV::And(
                Box::new(ExprV::Rel(RelOp::Ge, Box::new(u), Box::new(ExprV::Number(axis[0])))),
                Box::new(ExprV::Rel(RelOp::Le, Box::new(u), Box::new(ExprV::Number(axis.last())))),
            ),
            m,
        ) == is_within(points, worth(u, m)),
{
    let near = ExprV::Number(axis[0]);
    let far = ExprV::Number(axis.last());
    let from = ExprV::Rel(RelOp::Ge, Box::new(u), Box::new(near));
    let to = ExprV::Rel(RelOp::Le, Box::new(u), Box::new(far));
    assert(worth(near, m) == points[0]);
    assert(worth(far, m) == points[points.len() - 1]);
    assert(holds(from, m) == compared_reals(RelOp::Ge, worth(u, m), worth(near, m)));
    assert(holds(to, m) == compared_reals(RelOp::Le, worth(u, m), worth(far, m)));
}

proof fn lemma_held(g: GridV, axis: Seq<Number>, u: ExprV, slope: ExprV, m: Moment)
    requires
        worth(slope, m) == 0 as real,
    ensures
        worth(held_slope(g, axis, u, slope), m) == 0 as real,
{
    lemma_zero();
    assert(worth(ExprV::Number(zero()), m) == 0 as real);
}

/// A table that is refused beyond its points leaves two checks, which hold exactly
/// where it is read within both abscissas; every other table leaves none.
pub proof fn law_a_table_is_refused_beyond_its_points(
    h: DrawingV,
    v: SumsV,
    g: GridV,
    u1: ExprV,
    u2: ExprV,
    wanted: Wanted,
    m: Moment,
)
    requires
        is_drawn(g),
    ensures
        grid_read(h, v, g, u1, u2, wanted) matches Ok(read) ==> if g.extrapolation
            == Extrapolation::Refused {
            &&& read.checks.len() == 2
            &&& holds(read.checks[0].0, m) == is_within(points_down(g), worth(u1, m))
            &&& holds(read.checks[1].0, m) == is_within(points_across(g), worth(u2, m))
        } else {
            read.checks.len() == 0
        },
{
    lemma_axes(g);
    lemma_scope(g, axis_down(g), points_down(g), u1, m);
    lemma_scope(g, axis_across(g), points_across(g), u2, m);
}

/// Whether dividing one number by another comes out exactly.
pub open spec fn divides(v: SumsV, a: Number, b: Number) -> bool {
    real_of((v.work)(Arith::Div, a, b)) == real_of(a) / real_of(b)
}

/// Whether the slopes of a cell come out exactly along an interval of a width.
pub open spec fn slopes_exactly(v: SumsV, g: GridV, i: nat, j: nat, far: Number, near: Number)
    -> bool {
    let far_i = far_end(points_down(g), i as int) as nat;
    let far_j = far_end(points_across(g), j as int) as nat;
    let c00 = cell_at(g, i, j);
    let c10 = cell_at(g, far_i, j);
    let c01 = cell_at(g, i, far_j);
    let c11 = cell_at(g, far_i, far_j);
    let wide = less_by(v, far, near);
    &&& divides(v, less_by(v, c10, c00), wide)
    &&& divides(v, less_by(v, c01, c00), wide)
    &&& divides(v, more_by(v, less_by(v, less_by(v, c00, c10), c01), c11), wide)
}

proof fn lemma_slope(rise: real, left: real, wide: real, share: real)
    requires
        wide > 0 as real,
    ensures
        (rise / wide + (left / wide) * share) * wide == rise + left * share,
{
    let a = rise / wide;
    let b = left / wide;
    assert(a * wide == rise) by (nonlinear_arith)
        requires
            a == rise / wide,
            wide > 0 as real,
    ;
    assert(b * wide == left) by (nonlinear_arith)
        requires
            b == left / wide,
            wide > 0 as real,
    ;
    lemma_products(wide, a, b * share);
    lemma_products(wide, a + b * share, 0 as real);
    lemma_products(wide, b, 0 as real);
    lemma_products(b, share, 0 as real);
    lemma_three(wide, b, share);
    lemma_products(b, wide, 0 as real);
    lemma_products(share, b * wide, 0 as real);
    lemma_products(left, share, 0 as real);
}

proof fn lemma_change(c00: real, c10: real, c01: real, c11: real, t: real)
    ensures
        between(c10, c11, t) - between(c00, c01, t) == (c10 - c00) + (c00 - c10 - c01 + c11) * t,
{
    lemma_products(t, c11 - c10, c01 - c00);
    lemma_products(t, c00 - c10 - c01 + c11, 0 as real);
    assert((c11 - c10) - (c01 - c00) == c00 - c10 - c01 + c11);
}

/// The slope of a linear table along its first abscissa is how much the table
/// changes from the near side of the cell to the far, over how wide the cell is;
/// past an edge that is held it is nothing.
pub proof fn law_a_slope_is_the_change_across_the_cell(
    h: DrawingV,
    v: SumsV,
    g: GridV,
    u1: ExprV,
    u2: ExprV,
    i: nat,
    j: nat,
    m: Moment,
)
    requires
        g.smoothness == Smoothness::Linear,
        g.extrapolation != Extrapolation::Periodic,
        !(g.extrapolation is Other),
        is_drawn(g),
        is_exact(v, g),
        points_down(g).len() >= 2,
        is_read_in(points_down(g), i as int, worth(u1, m)),
        is_read_in(points_across(g), j as int, worth(u2, m)),
        slopes_exactly(v, g, i, j, g.rows[i as int + 2][0], g.rows[i as int + 1][0]),
    ensures
        grid_read(h, v, g, u1, u2, Wanted::SlopeDown) matches Ok(read) && ({
            let wide = points_down(g)[i as int + 1] - points_down(g)[i as int];
            let t = how_far(points_across(g), j as int, worth(u2, m), is_pinned(g));
            if g.extrapolation == Extrapolation::HoldLastPoint && !is_within(
                points_down(g),
                worth(u1, m),
            ) {
                worth(read.written, m) == 0 as real
            } else {
                worth(read.written, m) * wide == mix_of_corners(
                    g,
                    i as int,
                    j as int,
                    1 as real,
                    t,
                ) - mix_of_corners(g, i as int, j as int, 0 as real, t)
            }
        }),
{
    lemma_axes(g);
    lemma_zero();
    let down = axis_down(g);
    let across = axis_across(g);
    let points = points_down(g);
    let at = i as int;
    assert(brought_back(v, g, down, u1) == u1);
    assert(brought_back(v, g, across, u2) == u2);
    lemma_grid(h, v, g, u1, u2, Wanted::SlopeDown, 0, i, j, m);
    lemma_scope(g, down, points, u1, m);
    let t = fraction_along(v, g, across, u2, j);
    lemma_fraction(v, g, across, points_across(g), u2, j, m);
    let far_i = (i + 1) as nat;
    let far_j = far_end(points_across(g), j as int) as nat;
    let c00 = cell_at(g, i, j);
    let c10 = cell_at(g, far_i, j);
    let c01 = cell_at(g, i, far_j);
    let c11 = cell_at(g, far_i, far_j);
    lemma_cell(g, i, j);
    lemma_cell(g, far_i, j);
    lemma_cell(g, i, far_j);
    lemma_cell(g, far_i, far_j);
    assert(takes(v, c10, c00));
    assert(crosses(v, c00, c10, c01, c11));
    let run = less_by(v, down[at + 1], down[at]);
    assert(takes(v, down[at + 1], down[at]));
    assert(points[at] < points[at + 1]);
    let wide = real_of(run);
    assert(wide == points[at + 1] - points[at]);
    if run.level(zero()) {
        lemma_level_with_zero(run);
        assert(false);
    }
    let rise = less_by(v, c10, c00);
    let left = more_by(v, less_by(v, less_by(v, c00, c10), c01), c11);
    assert(g.rows[at + 2][0] == down[at + 1] && g.rows[at + 1][0] == down[at]);
    let a = ExprV::Number(ratio(v, rise, run));
    let b = ExprV::Number(ratio(v, left, run));
    assert(worth(a, m) == real_of(rise) / wide);
    assert(worth(b, m) == real_of(left) / wide);
    assert(worth(scaled(b, t), m) == worth(b, m) * worth(t, m));
    let whole = plus(a, scaled(b, t));
    assert(worth(whole, m) == worth(a, m) + worth(scaled(b, t), m));
    assert(piece_of(h, v, g, u1, u2, Wanted::SlopeDown, i, j) == whole);
    lemma_slope(real_of(rise), real_of(left), wide, worth(t, m));
    lemma_change(real_of(c00), real_of(c10), real_of(c01), real_of(c11), worth(t, m));
    lemma_ends(real_of(c00), real_of(c10));
    lemma_ends(real_of(c01), real_of(c11));
    assert(worth(ExprV::Number(zero()), m) == 0 as real);
    let slope = grid_from(h, v, g, u1, u2, Wanted::SlopeDown, 0);
    lemma_held_where(g, down, points, u1, slope, m);
}

proof fn lemma_held_where(
    g: GridV,
    axis: Seq<Number>,
    points: Seq<real>,
    u: ExprV,
    slope: ExprV,
    m: Moment,
)
    requires
        axis.len() == points.len() >= 2,
        forall|k: int| 0 <= k < axis.len() ==> real_of(#[trigger] axis[k]) == points[k],
    ensures
        worth(held_slope(g, axis, u, slope), m) == if g.extrapolation
            == Extrapolation::HoldLastPoint && !is_within(points, worth(u, m)) {
            0 as real
        } else {
            worth(slope, m)
        },
{
    lemma_zero();
    lemma_scope(g, axis, points, u, m);
    assert(worth(ExprV::Number(zero()), m) == 0 as real);
}

/// The slope along the second abscissa, likewise.
pub proof fn law_a_slope_across_is_the_change_across_the_cell(
    h: DrawingV,
    v: SumsV,
    g: GridV,
    u1: ExprV,
    u2: ExprV,
    i: nat,
    j: nat,
    m: Moment,
)
    requires
        g.smoothness == Smoothness::Linear,
        g.extrapolation != Extrapolation::Periodic,
        !(g.extrapolation is Other),
        is_drawn(g),
        is_exact(v, g),
        points_across(g).len() >= 2,
        is_read_in(points_down(g), i as int, worth(u1, m)),
        is_read_in(points_across(g), j as int, worth(u2, m)),
        slopes_exactly(v, g, i, j, g.rows[0][j as int + 2], g.rows[0][j as int + 1]),
    ensures
        grid_read(h, v, g, u1, u2, Wanted::SlopeAcross) matches Ok(read) && ({
            let wide = points_across(g)[j as int + 1] - points_across(g)[j as int];
            let s = how_far(points_down(g), i as int, worth(u1, m), is_pinned(g));
            if g.extrapolation == Extrapolation::HoldLastPoint && !is_within(
                points_across(g),
                worth(u2, m),
            ) {
                worth(read.written, m) == 0 as real
            } else {
                worth(read.written, m) * wide == mix_of_corners(
                    g,
                    i as int,
                    j as int,
                    s,
                    1 as real,
                ) - mix_of_corners(g, i as int, j as int, s, 0 as real)
            }
        }),
{
    lemma_axes(g);
    let down = axis_down(g);
    let across = axis_across(g);
    let points = points_across(g);
    let at = j as int;
    assert(brought_back(v, g, down, u1) == u1);
    assert(brought_back(v, g, across, u2) == u2);
    lemma_grid(h, v, g, u1, u2, Wanted::SlopeAcross, 0, i, j, m);
    let s = fraction_along(v, g, down, u1, i);
    lemma_fraction(v, g, down, points_down(g), u1, i, m);
    let far_i = far_end(points_down(g), i as int) as nat;
    let far_j = (j + 1) as nat;
    let c00 = cell_at(g, i, j);
    let c10 = cell_at(g, far_i, j);
    let c01 = cell_at(g, i, far_j);
    let c11 = cell_at(g, far_i, far_j);
    lemma_cell(g, i, j);
    lemma_cell(g, far_i, j);
    lemma_cell(g, i, far_j);
    lemma_cell(g, far_i, far_j);
    assert(takes(v, c01, c00));
    assert(crosses(v, c00, c10, c01, c11));
    let run = less_by(v, across[at + 1], across[at]);
    assert(takes(v, across[at + 1], across[at]));
    assert(points[at] < points[at + 1]);
    let wide = real_of(run);
    assert(wide == points[at + 1] - points[at]);
    if run.level(zero()) {
        lemma_level_with_zero(run);
        assert(false);
    }
    let rise = less_by(v, c01, c00);
    let left = more_by(v, less_by(v, less_by(v, c00, c10), c01), c11);
    assert(g.rows[0][at + 2] == across[at + 1] && g.rows[0][at + 1] == across[at]);
    let a = ExprV::Number(ratio(v, rise, run));
    let b = ExprV::Number(ratio(v, left, run));
    assert(worth(a, m) == real_of(rise) / wide);
    assert(worth(b, m) == real_of(left) / wide);
    assert(worth(scaled(b, s), m) == worth(b, m) * worth(s, m));
    let whole = plus(a, scaled(b, s));
    assert(worth(whole, m) == worth(a, m) + worth(scaled(b, s), m));
    assert(piece_of(h, v, g, u1, u2, Wanted::SlopeAcross, i, j) == whole);
    lemma_slope(real_of(rise), real_of(left), wide, worth(s, m));
    lemma_change(real_of(c00), real_of(c01), real_of(c10), real_of(c11), worth(s, m));
    lemma_ends(
        between(real_of(c00), real_of(c10), worth(s, m)),
        between(real_of(c01), real_of(c11), worth(s, m)),
    );
    let slope = grid_from(h, v, g, u1, u2, Wanted::SlopeAcross, 0);
    lemma_held_where(g, across, points, u2, slope, m);
}

/// A value taken back by a whole number of periods.
pub open spec fn taken_back(x: real, period: real, k: int) -> real {
    x - (k as real) * period
}

/// Whether a value is another brought back into one period from a point on.
pub open spec fn is_brought_back(x: real, from: real, period: real, back: real) -> bool {
    from <= back < from + period && exists|k: int| back == #[trigger] taken_back(x, period, k)
}

/// Whether `mod` gives what is left of a value once whole periods are taken out.
pub open spec fn takes_remainders(m: Moment) -> bool {
    forall|args: Seq<ExprV>|
        args.len() == 2 && worth(args[1], m) > 0 as real ==> is_brought_back(
            worth(args[0], m),
            0 as real,
            worth(args[1], m),
            #[trigger] (m.rest)(ExprV::Call("mod"@, args)),
        )
}

proof fn lemma_one_way_back(x: real, from: real, period: real, a: real, b: real)
    requires
        period > 0 as real,
        is_brought_back(x, from, period, a),
        is_brought_back(x, from, period, b),
    ensures
        a == b,
{
    let k = choose|k: int| a == #[trigger] taken_back(x, period, k);
    let l = choose|l: int| b == #[trigger] taken_back(x, period, l);
    let p = k as real;
    let q = l as real;
    if k < l {
        assert(q - p >= 1 as real);
        assert(p * period + period <= q * period) by (nonlinear_arith)
            requires
                q - p >= 1 as real,
                period > 0 as real,
        ;
    }
    if l < k {
        assert(p - q >= 1 as real);
        assert(q * period + period <= p * period) by (nonlinear_arith)
            requires
                p - q >= 1 as real,
                period > 0 as real,
        ;
    }
}

proof fn lemma_not_below(n: Number)
    requires
        n.below(zero()),
    ensures
        real_of(n) <= 0 as real,
{
    vstd::arithmetic::power2::lemma_pow2_pos(1074);
    let p = vstd::arithmetic::power2::pow2(1074) as real;
    let size = -crate::meaning::grains(n);
    assert(size >= 0) by {
        let e = n.magnitude() / (crate::number::STEP as int);
        if e > 0 {
            vstd::arithmetic::power2::lemma_pow2_pos((e - 1) as nat);
        }
    }
    let g = crate::meaning::grains(n) as real;
    assert(g <= 0 as real);
    assert(g / p <= 0 as real) by (nonlinear_arith)
        requires
            g <= 0 as real,
            p > 0 as real,
    ;
}

proof fn lemma_brought_back(
    v: SumsV,
    g: GridV,
    axis: Seq<Number>,
    points: Seq<real>,
    u: ExprV,
    x: real,
    m: Moment,
)
    requires
        g.extrapolation == Extrapolation::Periodic,
        axis.len() == points.len() >= 2,
        forall|k: int|
            0 <= k < axis.len() ==> real_of(#[trigger] axis[k]) == points[k] && is_in_table(
                g,
                axis[k],
            ),
        is_rising(points),
        is_exact(v, g),
        takes_remainders(m),
        is_brought_back(worth(u, m), points[0], points[points.len() - 1] - points[0], x),
    ensures
        worth(brought_back(v, g, axis, u), m) == x,
{
    let last = points.len() - 1;
    let first = axis[0];
    let period = less_by(v, axis.last(), first);
    assert(takes(v, axis.last(), first));
    assert(points[0] < points[last]);
    let wide = points[last] - points[0];
    assert(real_of(period) == wide);
    if period.level(zero()) {
        lemma_level_with_zero(period);
        assert(false);
    }
    if period.below(zero()) {
        lemma_not_below(period);
        assert(false);
    }
    let near = ExprV::Number(first);
    let span = ExprV::Number(period);
    let gone = ExprV::Bin(BinOp::Sub, Box::new(u), Box::new(near));
    let args = seq![gone, span];
    let left = ExprV::Call("mod"@, args);
    assert(worth(near, m) == points[0]);
    assert(worth(span, m) == wide);
    assert(worth(gone, m) == worth(u, m) - points[0]);
    reveal_strlit("mod");
    reveal_strlit("max");
    reveal_strlit("min");
    reveal_strlit("previous");
    reveal_strlit("pre");
    assert("mod"@[1] == 'o' && "max"@[1] == 'a' && "min"@[1] == 'i' && "mod"@[0] == 'm');
    assert("pre"@[0] == 'p' && "previous"@[0] == 'p');
    assert(looks_back_at("mod"@, args) is None);
    assert(worth(left, m) == (m.rest)(left));
    let r = worth(left, m);
    assert(is_brought_back(worth(gone, m), 0 as real, wide, r));
    let k = choose|k: int| r == #[trigger] taken_back(worth(gone, m), wide, k);
    assert(r + points[0] == taken_back(worth(u, m), wide, k));
    assert(is_brought_back(worth(u, m), points[0], wide, r + points[0]));
    lemma_one_way_back(worth(u, m), points[0], wide, r + points[0], x);
    let whole = ExprV::Bin(BinOp::Add, Box::new(near), Box::new(left));
    assert(worth(whole, m) == worth(near, m) + worth(left, m));
}

/// A linear table that repeats is, at any point, what it is at the point brought
/// back into the table by whole periods of each abscissa.
pub proof fn law_a_repeating_table_is_read_within_its_points(
    h: DrawingV,
    v: SumsV,
    g: GridV,
    u1: ExprV,
    u2: ExprV,
    x: real,
    y: real,
    i: nat,
    j: nat,
    m: Moment,
)
    requires
        g.smoothness == Smoothness::Linear,
        g.extrapolation == Extrapolation::Periodic,
        is_drawn(g),
        is_exact(v, g),
        points_down(g).len() >= 2,
        points_across(g).len() >= 2,
        takes_remainders(m),
        is_brought_back(
            worth(u1, m),
            points_down(g)[0],
            points_down(g)[points_down(g).len() - 1] - points_down(g)[0],
            x,
        ),
        is_brought_back(
            worth(u2, m),
            points_across(g)[0],
            points_across(g)[points_across(g).len() - 1] - points_across(g)[0],
            y,
        ),
        is_read_in(points_down(g), i as int, x),
        is_read_in(points_across(g), j as int, y),
    ensures
        grid_read(h, v, g, u1, u2, Wanted::Value) matches Ok(read) && worth(read.written, m)
            == mix_of_corners(
            g,
            i as int,
            j as int,
            how_far(points_down(g), i as int, x, false),
            how_far(points_across(g), j as int, y, false),
        ),
{
    lemma_axes(g);
    let b1 = brought_back(v, g, axis_down(g), u1);
    let b2 = brought_back(v, g, axis_across(g), u2);
    lemma_brought_back(v, g, axis_down(g), points_down(g), u1, x, m);
    lemma_brought_back(v, g, axis_across(g), points_across(g), u2, y, m);
    lemma_grid(h, v, g, b1, b2, Wanted::Value, 0, i, j, m);
    lemma_piece(h, v, g, b1, b2, i, j, m);
}

}
