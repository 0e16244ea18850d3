//! What is worked out before the run is what the run would have found: numbers are
//! compared as the reals they stand for, and an expression that is folded is worth
//! what it would be worth.
use crate::expr::{BinOp, ExprV, RelOp};
use crate::folding::{compared, evaluated, is_binary, is_unary, Worths};
use crate::meaning::{
    compared_reals, grains, holds, lemma_one, lemma_zero, looks_back_at, real_of, worth, Moment,
};
use crate::number::{larger_of, one, smaller_of, zero, Number, STEP};
use crate::sums::{Arith, SumsV};
use vstd::arithmetic::power2::{
    lemma_pow2_pos, lemma_pow2_strictly_increases, lemma_pow2_unfold, pow2,
};
use vstd::prelude::*;

verus! {

/// How many grains a magnitude is.
pub open spec fn size_of(magnitude: int) -> int {
    if magnitude / (STEP as int) == 0 {
        magnitude
    } else {
        (magnitude % (STEP as int) + STEP) * pow2((magnitude / (STEP as int) - 1) as nat)
    }
}

proof fn lemma_size_grows(a: int, b: int)
    requires
        0 <= a < b,
    ensures
        0 <= size_of(a) < size_of(b),
{
    let step = STEP as int;
    let ea = a / step;
    let eb = b / step;
    let fa = a % step;
    let fb = b % step;
    assert(a == ea * step + fa && 0 <= fa < step) by {
        vstd::arithmetic::div_mod::lemma_fundamental_div_mod(a, step);
    }
    assert(b == eb * step + fb && 0 <= fb < step) by {
        vstd::arithmetic::div_mod::lemma_fundamental_div_mod(b, step);
    }
    assert(0 <= ea <= eb) by (nonlinear_arith)
        requires
            0 <= a < b,
            a == ea * step + fa,
            b == eb * step + fb,
            0 <= fa < step,
            0 <= fb < step,
            step > 0,
    ;
    if eb > 0 {
        lemma_pow2_pos((eb - 1) as nat);
        let pb = pow2((eb - 1) as nat) as int;
        if ea == eb {
            assert(fa < fb);
            assert(0 <= (fa + step) * pb < (fb + step) * pb) by (nonlinear_arith)
                requires
                    0 <= fa < fb,
                    step > 0,
                    pb > 0,
            ;
        } else if ea == 0 {
            assert(ea * step == 0);
            assert(a < step);
            assert(step <= (fb + step) * pb) by (nonlinear_arith)
                requires
                    fb >= 0,
                    step > 0,
                    pb >= 1,
            ;
        } else {
            let pa = pow2((ea - 1) as nat) as int;
            lemma_pow2_pos((ea - 1) as nat);
            lemma_pow2_unfold(ea as nat);
            let p = pow2(ea as nat) as int;
            assert(p == 2 * pa);
            if ea < eb - 1 {
                lemma_pow2_strictly_increases(ea as nat, (eb - 1) as nat);
            }
            assert(p <= pb);
            assert(0 <= (fa + step) * pa < step * p) by (nonlinear_arith)
                requires
                    0 <= fa < step,
                    pa > 0,
                    p == 2 * pa,
            ;
            assert(step * p <= (fb + step) * pb) by (nonlinear_arith)
                requires
                    fb >= 0,
                    step > 0,
                    0 < p <= pb,
            ;
        }
    }
}

proof fn lemma_grains(a: Number, b: Number)
    ensures
        a.rank() < b.rank() <==> grains(a) < grains(b),
        a.rank() == b.rank() <==> grains(a) == grains(b),
{
    let x = a.magnitude();
    let y = b.magnitude();
    assert(size_of(0) == 0);
    assert(grains(a) == (if a.is_negative() {
        -size_of(x)
    } else {
        size_of(x)
    }));
    assert(grains(b) == (if b.is_negative() {
        -size_of(y)
    } else {
        size_of(y)
    }));
    if x < y {
        lemma_size_grows(x, y);
    }
    if y < x {
        lemma_size_grows(y, x);
    }
    if x > 0 {
        lemma_size_grows(0, x);
    }
    if y > 0 {
        lemma_size_grows(0, y);
    }
}

proof fn lemma_in_the_same_order(a: int, b: int, p: int)
    requires
        p > 0,
    ensures
        (a as real) / (p as real) < (b as real) / (p as real) <==> a < b,
        (a as real) / (p as real) == (b as real) / (p as real) <==> a == b,
{
    let x = (a as real) / (p as real);
    let y = (b as real) / (p as real);
    let q = p as real;
    assert(x * q == a as real) by (nonlinear_arith)
        requires
            x == (a as real) / q,
            q > 0 as real,
    ;
    assert(y * q == b as real) by (nonlinear_arith)
        requires
            y == (b as real) / q,
            q > 0 as real,
    ;
    if x < y {
        assert(x * q < y * q) by (nonlinear_arith)
            requires
                x < y,
                q > 0 as real,
        ;
    }
    if y < x {
        assert(y * q < x * q) by (nonlinear_arith)
            requires
                y < x,
                q > 0 as real,
        ;
    }
}

/// Numbers are compared as the reals they stand for.
pub proof fn law_numbers_are_in_the_order_of_their_worths(a: Number, b: Number)
    requires
        a.is_finite(),
        b.is_finite(),
    ensures
        a.below(b) <==> real_of(a) < real_of(b),
        a.level(b) <==> real_of(a) == real_of(b),
{
    lemma_grains(a, b);
    lemma_pow2_pos(1074);
    lemma_in_the_same_order(grains(a), grains(b), pow2(1074) as int);
}

/// A comparison that is folded comes out as it would in the run.
pub proof fn law_a_folded_comparison_is_the_one_of_the_run(op: RelOp, a: Number, b: Number)
    requires
        a.is_finite(),
        b.is_finite(),
    ensures
        compared(op, a, b) == compared_reals(op, real_of(a), real_of(b)),
{
    law_numbers_are_in_the_order_of_their_worths(a, b);
    law_numbers_are_in_the_order_of_their_worths(b, a);
}

pub proof fn lemma_opposite(n: Number)
    requires
        n.is_finite(),
    ensures
        n.opposite().is_finite(),
        real_of(n.opposite()) == -real_of(n),
{
    let o = n.opposite();
    assert(o.magnitude() == n.magnitude());
    assert(grains(o) == -grains(n)) by {
        if n.magnitude() == 0 {
            assert(0int / (STEP as int) == 0);
        }
    }
    lemma_pow2_pos(1074);
    let g = grains(n);
    let p = pow2(1074) as real;
    assert((-g) as real == -(g as real));
    assert((-(g as real)) / p == -((g as real) / p)) by (nonlinear_arith)
        requires
            p > 0 as real,
    ;
}

proof fn lemma_nought(n: Number)
    requires
        n.is_finite(),
    ensures
        n.is_nought() <==> real_of(n) == 0 as real,
{
    lemma_zero();
    law_numbers_are_in_the_order_of_their_worths(n, zero());
}

/// Whether one step of arithmetic comes out exactly.
pub open spec fn is_exact_step(v: SumsV, op: BinOp, a: Number, b: Number) -> bool {
    match op {
        BinOp::Add => real_of((v.work)(Arith::Add, a, b)) == real_of(a) + real_of(b),
        BinOp::Sub => real_of((v.work)(Arith::Sub, a, b)) == real_of(a) - real_of(b),
        BinOp::Mul => real_of((v.work)(Arith::Mul, a, b)) == real_of(a) * real_of(b),
        BinOp::Div => real_of((v.work)(Arith::Div, a, b)) == real_of(a) / real_of(b),
        BinOp::Pow => false,
    }
}

/// Whether an expression is a number that every step of working out comes out
/// exactly for.
pub open spec fn is_exact_number(e: ExprV, env: Worths, v: SumsV) -> bool
    decreases e,
{
    &&& evaluated(e, env, v) matches Some(n) && n.is_finite()
    &&& match e {
        ExprV::Number(_) => true,
        ExprV::Ref(_) => true,
        ExprV::Neg(a) => is_exact_number(*a, env, v),
        ExprV::Bin(op, a, b) => is_exact_number(*a, env, v) && is_exact_number(*b, env, v)
            && is_exact_step(v, op, evaluated(*a, env, v)->0, evaluated(*b, env, v)->0),
        ExprV::If(c, a, b) => is_exact_truth(*c, env, v) && is_exact_number(*a, env, v)
            && is_exact_number(*b, env, v),
        ExprV::Call(name, args) => (name == "max"@ || name == "min"@) && (v.plain)(name) == name
            && args.len() == 2 && is_exact_number(args[0], env, v) && is_exact_number(
            args[1],
            env,
            v,
        ),
        _ => false,
    }
}

/// Whether an expression is a truth made of such numbers.
pub open spec fn is_exact_truth(e: ExprV, env: Worths, v: SumsV) -> bool
    decreases e,
{
    &&& evaluated(e, env, v) matches Some(n) && n.is_finite()
    &&& match e {
        ExprV::Bool(_) => true,
        ExprV::Ref(_) => true,
        ExprV::Not(a) => is_exact_truth(*a, env, v),
        ExprV::And(a, b) => is_exact_truth(*a, env, v) && is_exact_truth(*b, env, v),
        ExprV::Or(a, b) => is_exact_truth(*a, env, v) && is_exact_truth(*b, env, v),
        ExprV::Rel(_, a, b) => is_exact_number(*a, env, v) && is_exact_number(*b, env, v),
        ExprV::If(c, a, b) => is_exact_truth(*c, env, v) && is_exact_truth(*a, env, v)
            && is_exact_truth(*b, env, v),
        _ => false,
    }
}

/// Whether the names that are known hold in the run what they are known to be
/// worth.
pub open spec fn agrees_with(m: Moment, env: Worths) -> bool {
    forall|name: Seq<char>| #[trigger]
        env.contains_key(name) ==> (m.now)(name) == real_of(env[name])
}

/// An expression that is worked out before the run comes to what it would be worth
/// in it.
pub proof fn law_what_is_folded_is_what_the_run_would_find(
    e: ExprV,
    env: Worths,
    v: SumsV,
    m: Moment,
)
    requires
        agrees_with(m, env),
    ensures
        is_exact_number(e, env, v) ==> real_of(evaluated(e, env, v)->0) == worth(e, m),
        is_exact_truth(e, env, v) ==> holds(e, m) == !(evaluated(e, env, v)->0).is_nought(),
    decreases e,
{
    lemma_zero();
    lemma_one();
    match e {
        ExprV::Ref(name) => {
            if env.contains_key(name) {
                lemma_exact_name(e, name, env, v);
            }
        },
        ExprV::Neg(a) => {
            law_what_is_folded_is_what_the_run_would_find(*a, env, v, m);
            if is_exact_number(e, env, v) {
                lemma_opposite(evaluated(*a, env, v)->0);
            }
        },
        ExprV::Not(a) => {
            law_what_is_folded_is_what_the_run_would_find(*a, env, v, m);
        },
        ExprV::And(a, b) => {
            law_what_is_folded_is_what_the_run_would_find(*a, env, v, m);
            law_what_is_folded_is_what_the_run_would_find(*b, env, v, m);
        },
        ExprV::Or(a, b) => {
            law_what_is_folded_is_what_the_run_would_find(*a, env, v, m);
            law_what_is_folded_is_what_the_run_would_find(*b, env, v, m);
        },
        ExprV::Rel(op, a, b) => {
            law_what_is_folded_is_what_the_run_would_find(*a, env, v, m);
            law_what_is_folded_is_what_the_run_would_find(*b, env, v, m);
            if is_exact_truth(e, env, v) {
                lemma_known(*a, env, v);
                lemma_known(*b, env, v);
                law_a_folded_comparison_is_the_one_of_the_run(
                    op,
                    evaluated(*a, env, v)->0,
                    evaluated(*b, env, v)->0,
                );
            }
        },
        ExprV::If(c, a, b) => {
            law_what_is_folded_is_what_the_run_would_find(*c, env, v, m);
            law_what_is_folded_is_what_the_run_would_find(*a, env, v, m);
            law_what_is_folded_is_what_the_run_would_find(*b, env, v, m);
        },
        ExprV::Bin(op, a, b) => {
            law_what_is_folded_is_what_the_run_would_find(*a, env, v, m);
            law_what_is_folded_is_what_the_run_would_find(*b, env, v, m);
        },
        ExprV::Call(name, args) => {
            if is_exact_number(e, env, v) {
                law_what_is_folded_is_what_the_run_would_find(args[0], env, v, m);
                law_what_is_folded_is_what_the_run_would_find(args[1], env, v, m);
                lemma_known(args[0], env, v);
                lemma_known(args[1], env, v);
                let x = evaluated(args[0], env, v)->0;
                let y = evaluated(args[1], env, v)->0;
                law_numbers_are_in_the_order_of_their_worths(x, y);
                law_numbers_are_in_the_order_of_their_worths(y, x);
                lemma_extremes(name, args, env, v);
            }
        },
        _ => {},
    }
}

proof fn lemma_known(e: ExprV, env: Worths, v: SumsV)
    requires
        is_exact_number(e, env, v),
    ensures
        evaluated(e, env, v) matches Some(n) && n.is_finite(),
{
}

proof fn lemma_exact_name(e: ExprV, name: Seq<char>, env: Worths, v: SumsV)
    requires
        e == ExprV::Ref(name),
        env.contains_key(name),
    ensures
        is_exact_truth(e, env, v) ==> ((evaluated(e, env, v)->0).is_nought() <==> real_of(env[name])
            == 0 as real),
{
    if is_exact_truth(e, env, v) {
        lemma_nought(env[name]);
    }
}

proof fn lemma_extremes(name: Seq<char>, args: Seq<ExprV>, env: Worths, v: SumsV)
    requires
        name == "max"@ || name == "min"@,
        (v.plain)(name) == name,
        args.len() == 2,
        evaluated(args[0], env, v) is Some,
        evaluated(args[1], env, v) is Some,
    ensures
        ({
            let x = evaluated(args[0], env, v)->0;
            let y = evaluated(args[1], env, v)->0;
            &&& looks_back_at(name, args) is None
            &&& "max"@ != "min"@
            &&& evaluated(ExprV::Call(name, args), env, v) == Some(if name == "max"@ {
                larger_of(x, y)
            } else {
                smaller_of(x, y)
            })
        }),
{
    reveal_names();
    assert(!is_unary(name));
    assert(is_binary(name));
    assert(name != "atan2"@);
}

proof fn reveal_names()
    ensures
        "max"@ != "min"@,
        "max"@ != "previous"@ && "max"@ != "pre"@ && "min"@ != "previous"@ && "min"@ != "pre"@,
        !is_unary("max"@),
        !is_unary("min"@),
        "max"@ != "atan2"@ && "min"@ != "atan2"@,
{
    reveal_strlit("max");
    reveal_strlit("min");
    reveal_strlit("previous");
    reveal_strlit("pre");
    reveal_strlit("atan2");
    reveal_strlit("abs");
    reveal_strlit("Integer");
    reveal_strlit("sqrt");
    reveal_strlit("exp");
    reveal_strlit("log");
    reveal_strlit("log10");
    reveal_strlit("sin");
    reveal_strlit("cos");
    reveal_strlit("tan");
    reveal_strlit("asin");
    reveal_strlit("acos");
    reveal_strlit("atan");
    reveal_strlit("sinh");
    reveal_strlit("cosh");
    reveal_strlit("tanh");
    reveal_strlit("floor");
    reveal_strlit("integer");
    reveal_strlit("ceil");
    assert("max"@[0] == 'm' && "min"@[0] == 'm' && "max"@[1] == 'a' && "min"@[1] == 'i');
    assert("previous"@[0] == 'p' && "pre"@[0] == 'p' && "atan2"@[0] == 'a');
    assert("abs"@[0] == 'a' && "Integer"@[0] == 'I' && "sqrt"@[0] == 's' && "exp"@[0] == 'e');
    assert("log"@[0] == 'l' && "log10"@[0] == 'l' && "sin"@[0] == 's' && "cos"@[0] == 'c');
    assert("tan"@[0] == 't' && "asin"@[0] == 'a' && "acos"@[0] == 'a' && "atan"@[0] == 'a');
    assert("sinh"@[0] == 's' && "cosh"@[0] == 'c' && "tanh"@[0] == 't' && "floor"@[0] == 'f');
    assert("integer"@[0] == 'i' && "ceil"@[0] == 'c');
}

}
