//! The arithmetic that a run would do, handed in by whoever flattens.
//!
//! Numbers are carried here by their bits and compared by them. What adds,
//! multiplies and takes roots of them comes from outside, and so does what
//! answers a body that is not written in Modelica; each is asked only that it
//! answers the same question the same way every time.
use crate::number::Number;
use vstd::prelude::*;

verus! {

/// One step of arithmetic. Those of one operand take the first and leave the
/// second alone.
#[derive(Clone, Copy, Debug, PartialEq, Eq, Structural)]
pub enum Arith {
    Add,
    Sub,
    Mul,
    Div,
    Pow,
    Sqrt,
    Exp,
    Log,
    Log10,
    Sin,
    Cos,
    Tan,
    Asin,
    Acos,
    Atan,
    Sinh,
    Cosh,
    Tanh,
    Floor,
    Ceil,
    Trunc,
    Atan2,
}

/// What works numbers out: `work` does one step of arithmetic, `answer` is
/// what a body written in another language comes to, and `plain` is what an
/// operator is called without the package it is named under.
pub struct Sums<W, O, N> {
    pub work: W,
    pub answer: O,
    pub plain: N,
    /// What they answer, mathematically.
    pub model: Ghost<SumsV>,
}

/// The same, as the functions they are.
pub ghost struct SumsV {
    pub work: spec_fn(Arith, Number, Number) -> Number,
    pub answer: spec_fn(Seq<char>, Seq<Number>) -> Option<Seq<Number>>,
    pub plain: spec_fn(Seq<char>) -> Seq<char>,
}

pub open spec fn list_of(list: Option<Vec<Number>>) -> Option<Seq<Number>> {
    match list {
        Some(list) => Some(list@),
        None => None,
    }
}

/// Whether each of them may be asked anything, and answers as `m` says.
pub open spec fn is_steady_to<
    W: Fn(Arith, Number, Number) -> Number,
    O: Fn(&str, &Vec<Number>) -> Option<Vec<Number>>,
    N: Fn(&str) -> String,
>(work: W, answer: O, plain: N, m: SumsV) -> bool {
    &&& forall|op: Arith, a: Number, b: Number| #[trigger] call_requires(work, (op, a, b))
    &&& forall|op: Arith, a: Number, b: Number, r: Number| #[trigger]
        call_ensures(work, (op, a, b), r) ==> r == (m.work)(op, a, b)
    &&& forall|name: &str, given: &Vec<Number>| #[trigger] call_requires(answer, (name, given))
    &&& forall|name: &str, given: &Vec<Number>, r: Option<Vec<Number>>| #[trigger]
        call_ensures(answer, (name, given), r) ==> list_of(r) == (m.answer)(name@, given@)
    &&& forall|name: &str| #[trigger] call_requires(plain, (name,))
    &&& forall|name: &str, r: String| #[trigger]
        call_ensures(plain, (name,), r) ==> r@ == (m.plain)(name@)
}

/// Whether each of them may be asked anything, and answers as its model says.
pub open spec fn is_steady<
    W: Fn(Arith, Number, Number) -> Number,
    O: Fn(&str, &Vec<Number>) -> Option<Vec<Number>>,
    N: Fn(&str) -> String,
>(s: Sums<W, O, N>) -> bool {
    is_steady_to(s.work, s.answer, s.plain, s.model@)
}

/// What they answer, mathematically.
pub open spec fn sums_of<
    W: Fn(Arith, Number, Number) -> Number,
    O: Fn(&str, &Vec<Number>) -> Option<Vec<Number>>,
    N: Fn(&str) -> String,
>(s: Sums<W, O, N>) -> SumsV {
    s.model@
}

impl<
    W: Fn(Arith, Number, Number) -> Number,
    O: Fn(&str, &Vec<Number>) -> Option<Vec<Number>>,
    N: Fn(&str) -> String,
> Sums<W, O, N> {
    /// The bundle of such functions, where there is anything they answer at all.
    pub fn new(work: W, answer: O, plain: N) -> (r: Self)
        requires
            exists|m: SumsV| #[trigger] is_steady_to(work, answer, plain, m),
        ensures
            is_steady(r),
            r.work == work,
            r.answer == answer,
            r.plain == plain,
    {
        Sums {
            work,
            answer,
            plain,
            model: Ghost(choose|m: SumsV| #[trigger] is_steady_to(work, answer, plain, m)),
        }
    }

    /// One step of arithmetic.
    pub fn step(&self, op: Arith, a: Number, b: Number) -> (r: Number)
        requires
            is_steady(*self),
        ensures
            r == (sums_of(*self).work)(op, a, b),
    {
        let work = &self.work;
        work(op, a, b)
    }

    /// What a body written in another language answers.
    pub fn ask(&self, name: &str, given: &Vec<Number>) -> (r: Option<Vec<Number>>)
        requires
            is_steady(*self),
        ensures
            list_of(r) == (sums_of(*self).answer)(name@, given@),
    {
        let answer = &self.answer;
        answer(name, given)
    }

    /// What an operator is called without the package it is named under.
    pub fn plainly(&self, name: &str) -> (r: String)
        requires
            is_steady(*self),
        ensures
            r@ == (sums_of(*self).plain)(name@),
    {
        let plain = &self.plain;
        plain(name)
    }
}

}
