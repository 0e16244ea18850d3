//! What an expression that is written out is worth while the model runs: numbers
//! are reals, a truth is a truth, and the names stand for what they hold.
//!
//! Nothing here is worked out by the library. It is what the laws about written
//! expressions are stated over.
use crate::expr::{BinOp, ExprV, RelOp};
use crate::number::{binary_length, half, law_a_count_is_whole, nearest, one, zero, Number, STEP};
use vstd::arithmetic::power2::{lemma_pow2_adds, lemma_pow2_pos, pow2};
use vstd::prelude::*;

verus! {

/// How many times the smallest positive double a finite double is.
pub open spec fn grains(n: Number) -> int {
    let size = if n.exponent() == 0 {
        n.magnitude()
    } else {
        n.significand() * pow2((n.exponent() - 1) as nat)
    };
    if n.is_negative() {
        -size
    } else {
        size
    }
}

/// What a finite double is worth.
pub open spec fn real_of(n: Number) -> real {
    (grains(n) as real) / (pow2(1074) as real)
}

/// A moment of the run: what time it is, what every name holds, and what it held
/// at the tick before. `rest` is what anything else that can be written is worth,
/// whatever that is.
pub ghost struct Moment {
    pub time: real,
    pub now: spec_fn(Seq<char>) -> real,
    pub before: spec_fn(Seq<char>) -> real,
    pub rest: spec_fn(ExprV) -> real,
}

/// The `k`-th instant of those that begin at `first` and lie `step` apart.
pub open spec fn instant(first: real, step: real, k: nat) -> real {
    first + (k as real) * step
}

/// Whether a time is one of them.
pub open spec fn is_instant(time: real, first: real, step: real) -> bool {
    exists|k: nat| time == #[trigger] instant(first, step, k)
}

pub open spec fn larger_real(a: real, b: real) -> real {
    if a < b {
        b
    } else {
        a
    }
}

pub open spec fn smaller_real(a: real, b: real) -> real {
    if b < a {
        b
    } else {
        a
    }
}

pub open spec fn compared_reals(op: RelOp, a: real, b: real) -> bool {
    match op {
        RelOp::Lt => a < b,
        RelOp::Le => a <= b,
        RelOp::Gt => a > b,
        RelOp::Ge => a >= b,
        RelOp::Eq => a == b,
        RelOp::Ne => a != b,
    }
}

/// The name whose value from before is asked for, by `previous` at a tick or by
/// `pre` at an event.
pub open spec fn looks_back_at(name: Seq<char>, args: Seq<ExprV>) -> Option<Seq<char>> {
    if (name == "previous"@ || name == "pre"@) && args.len() == 1 {
        match args[0] {
            ExprV::Ref(of) => Some(of),
            _ => None,
        }
    } else {
        None
    }
}

/// What an expression is worth.
pub open spec fn worth(e: ExprV, m: Moment) -> real
    decreases e, 1int,
{
    match e {
        ExprV::Number(n) => real_of(n),
        ExprV::Ref(name) => (m.now)(name),
        ExprV::Time => m.time,
        ExprV::Neg(a) => -worth(*a, m),
        ExprV::Bin(op, a, b) => match op {
            BinOp::Add => worth(*a, m) + worth(*b, m),
            BinOp::Sub => worth(*a, m) - worth(*b, m),
            BinOp::Mul => worth(*a, m) * worth(*b, m),
            BinOp::Div => worth(*a, m) / worth(*b, m),
            BinOp::Pow => (m.rest)(e),
        },
        ExprV::If(c, a, b) => if holds(*c, m) {
            worth(*a, m)
        } else {
            worth(*b, m)
        },
        ExprV::Call(name, args) => match looks_back_at(name, args) {
            Some(of) => (m.before)(of),
            None => if name == "max"@ && args.len() == 2 {
                larger_real(worth(args[0], m), worth(args[1], m))
            } else if name == "min"@ && args.len() == 2 {
                smaller_real(worth(args[0], m), worth(args[1], m))
            } else {
                (m.rest)(e)
            },
        },
        ExprV::Bool(_) | ExprV::Not(_) | ExprV::And(_, _) | ExprV::Or(_, _) | ExprV::Rel(
            _,
            _,
            _,
        ) => if holds(e, m) {
            1 as real
        } else {
            0 as real
        },
        _ => (m.rest)(e),
    }
}

/// Whether an expression is true. `sample(first, step)` is true at `first` and at
/// every whole number of steps after it.
pub open spec fn holds(e: ExprV, m: Moment) -> bool
    decreases e, 0int,
{
    match e {
        ExprV::Bool(b) => b,
        ExprV::Not(a) => !holds(*a, m),
        ExprV::And(a, b) => holds(*a, m) && holds(*b, m),
        ExprV::Or(a, b) => holds(*a, m) || holds(*b, m),
        ExprV::Rel(op, a, b) => compared_reals(op, worth(*a, m), worth(*b, m)),
        ExprV::If(c, a, b) => if holds(*c, m) {
            holds(*a, m)
        } else {
            holds(*b, m)
        },
        ExprV::Ref(name) => (m.now)(name) != 0 as real,
        ExprV::Call(name, args) => match looks_back_at(name, args) {
            Some(of) => (m.before)(of) != 0 as real,
            None => if name == "sample"@ && args.len() == 2 {
                is_instant(m.time, worth(args[0], m), worth(args[1], m))
            } else {
                (m.rest)(e) != 0 as real
            },
        },
        _ => (m.rest)(e) != 0 as real,
    }
}

/// A number that stands where zero does is worth nothing.
pub proof fn lemma_level_with_zero(n: Number)
    requires
        n.level(zero()),
    ensures
        real_of(n) == 0 as real,
{
    assert(n.magnitude() == 0);
    assert(0int / (STEP as int) == 0);
    assert(grains(n) == 0);
    lemma_pow2_pos(1074);
    lemma_nothing_over(pow2(1074) as real);
}

/// Zero is worth nothing.
pub proof fn lemma_zero()
    ensures
        real_of(zero()) == 0 as real,
{
    lemma_level_with_zero(zero());
}

/// A count below `2^53` is worth itself.
pub proof fn law_a_count_is_worth_itself(n: nat)
    requires
        n < 0x20_0000_0000_0000,
    ensures
        real_of(nearest(n)) == n as real,
{
    if n == 0 {
        lemma_zero();
    } else {
        law_a_count_is_whole(n);
        let k = binary_length(n);
        let a = (53 - k) as nat;
        let b = (k + 1021) as nat;
        lemma_pow2_adds(a, b);
        lemma_pow2_pos(1074);
        let p = pow2(a) as int;
        let q = pow2(b) as int;
        let all = pow2(1074) as int;
        assert(a + b == 1074);
        assert(grains(nearest(n)) == (n * p) * q);
        assert((n * p) * q == n * all) by (nonlinear_arith)
            requires
                p * q == all,
        ;
        assert((n * all) as real == (n as real) * (all as real)) by (nonlinear_arith);
        lemma_times_over(n as real, all as real);
    }
}

pub proof fn lemma_times_over(a: real, b: real)
    requires
        b != 0 as real,
    ensures
        (a * b) / b == a,
{
    assert((a * b) / b == a) by (nonlinear_arith)
        requires
            b != 0 as real,
    ;
}

pub proof fn lemma_nothing_over(b: real)
    requires
        b != 0 as real,
    ensures
        (0 as real) / b == 0 as real,
{
    assert((0 as real) / b == 0 as real) by (nonlinear_arith)
        requires
            b != 0 as real,
    ;
}

/// One is worth one.
pub proof fn lemma_one()
    ensures
        real_of(one()) == 1 as real,
{
    law_a_count_is_worth_itself(1);
    assert(nearest(1) == one()) by {
        reveal_with_fuel(binary_length, 3);
        vstd::arithmetic::power2::lemma2_to64();
        vstd::arithmetic::power2::lemma2_to64_rest();
    }
}

/// A half is worth a half.
pub proof fn lemma_half()
    ensures
        real_of(half()) == 1 as real / 2 as real,
{
    let n = half();
    vstd::arithmetic::power2::lemma2_to64();
    vstd::arithmetic::power2::lemma2_to64_rest();
    lemma_pow2_adds(52, 1021);
    lemma_pow2_adds(1, 1073);
    lemma_pow2_pos(1073);
    assert(n.exponent() == 1022 && n.significand() == 0x10_0000_0000_0000);
    let part = pow2(1073) as int;
    assert(grains(n) == part);
    let whole = pow2(1074) as int;
    assert(whole == 2 * part);
    assert((whole as real) == (2 as real) * (part as real));
    assert((part as real) / ((2 as real) * (part as real)) == 1 as real / 2 as real)
        by (nonlinear_arith)
        requires
            (part as real) > 0 as real,
    ;
}

pub proof fn lemma_products(a: real, b: real, c: real)
    ensures
        a * (b + c) == a * b + a * c,
        a * (b - c) == a * b - a * c,
        a * b == b * a,
{
    assert(a * (b + c) == a * b + a * c) by (nonlinear_arith);
    assert(a * (b - c) == a * b - a * c) by (nonlinear_arith);
    assert(a * b == b * a) by (nonlinear_arith);
}

pub proof fn lemma_three(a: real, b: real, c: real)
    ensures
        a * (b * c) == c * (b * a),
{
    assert(a * (b * c) == c * (b * a)) by (nonlinear_arith);
}

pub proof fn lemma_plain_products(a: real)
    ensures
        0 as real * a == 0 as real,
        1 as real * a == a,
{
    assert(0 as real * a == 0 as real) by (nonlinear_arith);
    assert(1 as real * a == a) by (nonlinear_arith);
}

}
