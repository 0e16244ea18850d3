//! What a clock is, as far as partitioning a model needs to know.
use crate::class::{EquationItem, EquationV, WhenAction};
use crate::expr::{told, Expr, ExprV};
use crate::flat::WhenActionV;
use crate::number::Number;
use crate::table::Table;
use crate::text::texts;
use vstd::prelude::*;

verus! {

/// How a clock ticks.
#[derive(Debug)]
pub enum Beat {
    /// Every so often, from the first tick on.
    Every { first: Number, interval: Number },
    /// Whenever a condition becomes true.
    When(Expr),
    /// Not known yet.
    Waiting,
}

/// What is known of a clock: how it ticks, how far apart its ticks are where
/// that is known, the factor it is sub-sampled by and one less than that, the
/// method it steps a derivative with and whether that has more than one
/// stage, and how a message describes it.
#[derive(Debug)]
pub struct Ticking {
    pub beat: Beat,
    pub interval: Option<Number>,
    pub every_nth: u64,
    pub solver: Option<String>,
    pub one_stage: bool,
    pub described: String,
}

pub ghost enum BeatV {
    Every(Number, Number),
    When(ExprV),
    Waiting,
}

pub ghost struct TickingV {
    pub beat: BeatV,
    pub interval: Option<Number>,
    pub every_nth: u64,
    pub solver: Option<Seq<char>>,
    pub one_stage: bool,
    pub described: Seq<char>,
}

impl DeepView for Beat {
    type V = BeatV;

    open spec fn deep_view(&self) -> BeatV {
        match self {
            Beat::Every { first, interval } => BeatV::Every(*first, *interval),
            Beat::When(condition) => BeatV::When(condition.deep_view()),
            Beat::Waiting => BeatV::Waiting,
        }
    }
}

impl DeepView for Ticking {
    type V = TickingV;

    open spec fn deep_view(&self) -> TickingV {
        TickingV {
            beat: self.beat.deep_view(),
            interval: self.interval,
            every_nth: self.every_nth,
            solver: self.solver.deep_view(),
            one_stage: self.one_stage,
            described: self.described@,
        }
    }
}

/// A result with its failure as a text.
pub open spec fn outcome<T>(r: Result<T, String>) -> Result<T, Seq<char>> {
    match r {
        Ok(made) => Ok(made),
        Err(why) => Err(why@),
    }
}

pub open spec fn listed_outcome<C>(r: Result<(C, Vec<usize>), String>) -> Result<
    (C, Seq<usize>),
    Seq<char>,
> {
    match r {
        Ok((clocks, found)) => Ok((clocks, found@)),
        Err(why) => Err(why@),
    }
}

pub open spec fn listed(r: Result<Vec<usize>, String>) -> Result<Seq<usize>, Seq<char>> {
    match r {
        Ok(list) => Ok(list@),
        Err(why) => Err(why@),
    }
}

/// What a clock is, handed in by whoever knows: `C` is the table of them.
///
/// `read` makes a clock of an expression, `put_name` and `by_name` keep what
/// it is called, `touched` adds the clocks an expression touches, `meet` says
/// which one clock a list comes to, `ticking` tells how one ticks, `agree`
/// whether two are the same, and `clash` what is said where they are not;
/// `at_tick` reads an expression at a tick, `stride` steps what changes by a
/// derivative, `elapsed` is the time since the last tick; `order` and
/// `arrange` put partitions and actions in order; `unheld` finds a clocked
/// name read without `hold`, `assigned` what an equation defines, `within`
/// the names it reads on its own clock; `first_tick` answers from a counter,
/// `after` counts on from one, `counter` and `last` name what a clock keeps;
/// and `sole` is the one clock a machine can run on, how many there are, and
/// its period.
#[verifier::reject_recursive_types(C)]
pub struct Clockwork<C, A1, A2, A3, A4, A5, A6, A7, A8, A9, B1, B2, B3, B4, B5, B6, B7, B8, B9, D1, D2, D3> {
    pub read: A1,
    pub put_name: A2,
    pub by_name: A3,
    pub touched: A4,
    pub meet: A5,
    pub ticking: A6,
    pub agree: A7,
    pub clash: A8,
    pub at_tick: A9,
    pub stride: B1,
    pub elapsed: B2,
    pub order: B3,
    pub arrange: B4,
    pub unheld: B5,
    pub assigned: B6,
    pub within: B7,
    pub first_tick: B8,
    pub after: B9,
    pub counter: D1,
    pub last: D2,
    pub sole: D3,
    /// What they answer, mathematically.
    pub model: Ghost<ClockworkV<C>>,
}

/// The same, as the functions they are.
#[verifier::reject_recursive_types(C)]
pub ghost struct ClockworkV<C> {
    pub read: spec_fn(C, ExprV, Map<Seq<char>, Number>) -> Result<(C, Option<usize>), Seq<char>>,
    pub put_name: spec_fn(C, Seq<char>, usize) -> C,
    pub by_name: spec_fn(C, Seq<char>) -> Option<usize>,
    pub touched: spec_fn(C, ExprV, Map<Seq<char>, usize>, Map<Seq<char>, Number>, Seq<usize>) -> Result<(C, Seq<usize>), Seq<char>>,
    pub meet: spec_fn(C, Seq<usize>, Seq<char>) -> Result<(C, Option<usize>), Seq<char>>,
    pub ticking: spec_fn(C, usize) -> TickingV,
    pub agree: spec_fn(C, usize, usize) -> bool,
    pub clash: spec_fn(C, Seq<char>, usize, usize) -> Seq<char>,
    pub at_tick: spec_fn(C, Map<Seq<char>, usize>, Option<usize>, ExprV) -> ExprV,
    pub stride: spec_fn(C, usize, Seq<(Seq<char>, ExprV)>, ExprV) -> Seq<(Seq<char>, ExprV)>,
    pub elapsed: spec_fn(C, usize) -> ExprV,
    pub order: spec_fn(Seq<(usize, Seq<(Seq<char>, ExprV)>)>) -> Result<Seq<usize>, Seq<char>>,
    pub arrange: spec_fn(Seq<(Seq<char>, ExprV)>) -> Result<Seq<WhenActionV>, Seq<char>>,
    pub unheld: spec_fn(ExprV, Map<Seq<char>, usize>) -> Option<Seq<char>>,
    pub assigned: spec_fn(EquationV) -> Option<(Seq<char>, bool)>,
    pub within: spec_fn(ExprV) -> Seq<Seq<char>>,
    pub first_tick: spec_fn(ExprV, Seq<char>) -> ExprV,
    pub after: spec_fn(Seq<char>, ExprV) -> ExprV,
    pub counter: spec_fn(usize) -> Seq<char>,
    pub last: spec_fn(usize) -> Seq<char>,
    pub sole: spec_fn(C) -> (Option<usize>, usize, Option<Number>),
}

/// Whether each of them may be asked anything, and answers as `m` says.
pub open spec fn runs_true_to<
    C,
    A1: Fn(C, &Expr, &Table<Number>) -> Result<(C, Option<usize>), String>,
    A2: Fn(C, &str, usize) -> C,
    A3: Fn(&C, &str) -> Option<usize>,
    A4: Fn(C, &Expr, &Table<usize>, &Table<Number>, Vec<usize>) -> Result<(C, Vec<usize>), String>,
    A5: Fn(C, &Vec<usize>, &str) -> Result<(C, Option<usize>), String>,
    A6: Fn(&C, usize) -> Ticking,
    A7: Fn(&C, usize, usize) -> bool,
    A8: Fn(&C, &str, usize, usize) -> String,
    A9: Fn(&C, &Table<usize>, Option<usize>, &Expr) -> Expr,
    B1: Fn(&C, usize, &Vec<(String, Expr)>, &Expr) -> Vec<(String, Expr)>,
    B2: Fn(&C, usize) -> Expr,
    B3: Fn(&Vec<(usize, Vec<(String, Expr)>)>) -> Result<Vec<usize>, String>,
    B4: Fn(Vec<(String, Expr)>) -> Result<Vec<WhenAction>, String>,
    B5: Fn(&Expr, &Table<usize>) -> Option<String>,
    B6: Fn(&EquationItem) -> Option<(String, bool)>,
    B7: Fn(&Expr) -> Vec<String>,
    B8: Fn(&Expr, &str) -> Expr,
    B9: Fn(&str, &Expr) -> Expr,
    D1: Fn(usize) -> String,
    D2: Fn(usize) -> String,
    D3: Fn(&C) -> (Option<usize>, usize, Option<Number>),
>(
    read: A1,
    put_name: A2,
    by_name: A3,
    touched: A4,
    meet: A5,
    ticking: A6,
    agree: A7,
    clash: A8,
    at_tick: A9,
    stride: B1,
    elapsed: B2,
    order: B3,
    arrange: B4,
    unheld: B5,
    assigned: B6,
    within: B7,
    first_tick: B8,
    after: B9,
    counter: D1,
    last: D2,
    sole: D3,
    m: ClockworkV<C>,
) -> bool {
    &&& forall|
        clocks: C,
        e: &Expr,
        known: &Table<Number>,
    | #[trigger] call_requires(read, (clocks, e, known))
    &&& forall|
        clocks: C,
        e: &Expr,
        known: &Table<Number>,
        r: Result<(C, Option<usize>), String>,
    | #[trigger]
        call_ensures(
            read,
            (clocks, e, known),
            r,
        ) ==> outcome(r) == (m.read)(clocks, e.deep_view(), known.deep_view())
    &&& forall|
        clocks: C,
        name: &str,
        index: usize,
    | #[trigger] call_requires(put_name, (clocks, name, index))
    &&& forall|clocks: C, name: &str, index: usize, r: C| #[trigger]
        call_ensures(put_name, (clocks, name, index), r) ==> r == (m.put_name)(clocks, name@, index)
    &&& forall|clocks: &C, name: &str| #[trigger] call_requires(by_name, (clocks, name))
    &&& forall|clocks: &C, name: &str, r: Option<usize>| #[trigger]
        call_ensures(by_name, (clocks, name), r) ==> r == (m.by_name)(*clocks, name@)
    &&& forall|
        clocks: C,
        e: &Expr,
        clock_of: &Table<usize>,
        known: &Table<Number>,
        found: Vec<usize>,
    | #[trigger] call_requires(touched, (clocks, e, clock_of, known, found))
    &&& forall|
        clocks: C,
        e: &Expr,
        clock_of: &Table<usize>,
        known: &Table<Number>,
        found: Vec<usize>,
        r: Result<(C, Vec<usize>), String>,
    | #[trigger]
        call_ensures(
            touched,
            (clocks, e, clock_of, known, found),
            r,
        ) ==> listed_outcome(r) == (m.touched)(clocks, e.deep_view(), clock_of.deep_view(), known.deep_view(), found@)
    &&& forall|
        clocks: C,
        found: &Vec<usize>,
        target: &str,
    | #[trigger] call_requires(meet, (clocks, found, target))
    &&& forall|
        clocks: C,
        found: &Vec<usize>,
        target: &str,
        r: Result<(C, Option<usize>), String>,
    | #[trigger]
        call_ensures(
            meet,
            (clocks, found, target),
            r,
        ) ==> outcome(r) == (m.meet)(clocks, found@, target@)
    &&& forall|clocks: &C, index: usize| #[trigger] call_requires(ticking, (clocks, index))
    &&& forall|clocks: &C, index: usize, r: Ticking| #[trigger]
        call_ensures(ticking, (clocks, index), r) ==> r.deep_view() == (m.ticking)(*clocks, index)
    &&& forall|clocks: &C, a: usize, b: usize| #[trigger] call_requires(agree, (clocks, a, b))
    &&& forall|clocks: &C, a: usize, b: usize, r: bool| #[trigger]
        call_ensures(agree, (clocks, a, b), r) ==> r == (m.agree)(*clocks, a, b)
    &&& forall|
        clocks: &C,
        name: &str,
        a: usize,
        b: usize,
    | #[trigger] call_requires(clash, (clocks, name, a, b))
    &&& forall|clocks: &C, name: &str, a: usize, b: usize, r: String| #[trigger]
        call_ensures(clash, (clocks, name, a, b), r) ==> r@ == (m.clash)(*clocks, name@, a, b)
    &&& forall|
        clocks: &C,
        clock_of: &Table<usize>,
        on: Option<usize>,
        e: &Expr,
    | #[trigger] call_requires(at_tick, (clocks, clock_of, on, e))
    &&& forall|clocks: &C, clock_of: &Table<usize>, on: Option<usize>, e: &Expr, r: Expr| #[trigger]
        call_ensures(
            at_tick,
            (clocks, clock_of, on, e),
            r,
        ) ==> r.deep_view() == (m.at_tick)(*clocks, clock_of.deep_view(), on, e.deep_view())
    &&& forall|
        clocks: &C,
        index: usize,
        states: &Vec<(String, Expr)>,
        by: &Expr,
    | #[trigger] call_requires(stride, (clocks, index, states, by))
    &&& forall|
        clocks: &C,
        index: usize,
        states: &Vec<(String, Expr)>,
        by: &Expr,
        r: Vec<(String, Expr)>,
    | #[trigger]
        call_ensures(
            stride,
            (clocks, index, states, by),
            r,
        ) ==> r.deep_view() == (m.stride)(*clocks, index, states.deep_view(), by.deep_view())
    &&& forall|clocks: &C, index: usize| #[trigger] call_requires(elapsed, (clocks, index))
    &&& forall|clocks: &C, index: usize, r: Expr| #[trigger]
        call_ensures(elapsed, (clocks, index), r) ==> r.deep_view() == (m.elapsed)(*clocks, index)
    &&& forall|
        lifted: &Vec<(usize, Vec<(String, Expr)>)>,
    | #[trigger] call_requires(order, (lifted,))
    &&& forall|lifted: &Vec<(usize, Vec<(String, Expr)>)>, r: Result<Vec<usize>, String>| #[trigger]
        call_ensures(order, (lifted,), r) ==> listed(r) == (m.order)(lifted.deep_view())
    &&& forall|actions: Vec<(String, Expr)>| #[trigger] call_requires(arrange, (actions,))
    &&& forall|actions: Vec<(String, Expr)>, r: Result<Vec<WhenAction>, String>| #[trigger]
        call_ensures(arrange, (actions,), r) ==> told(r) == (m.arrange)(actions.deep_view())
    &&& forall|e: &Expr, clock_of: &Table<usize>| #[trigger] call_requires(unheld, (e, clock_of))
    &&& forall|e: &Expr, clock_of: &Table<usize>, r: Option<String>| #[trigger]
        call_ensures(
            unheld,
            (e, clock_of),
            r,
        ) ==> r.deep_view() == (m.unheld)(e.deep_view(), clock_of.deep_view())
    &&& forall|equation: &EquationItem| #[trigger] call_requires(assigned, (equation,))
    &&& forall|equation: &EquationItem, r: Option<(String, bool)>| #[trigger]
        call_ensures(
            assigned,
            (equation,),
            r,
        ) ==> r.deep_view() == (m.assigned)(equation.deep_view())
    &&& forall|e: &Expr| #[trigger] call_requires(within, (e,))
    &&& forall|e: &Expr, r: Vec<String>| #[trigger]
        call_ensures(within, (e,), r) ==> texts(r@) == (m.within)(e.deep_view())
    &&& forall|e: &Expr, counter: &str| #[trigger] call_requires(first_tick, (e, counter))
    &&& forall|e: &Expr, counter: &str, r: Expr| #[trigger]
        call_ensures(
            first_tick,
            (e, counter),
            r,
        ) ==> r.deep_view() == (m.first_tick)(e.deep_view(), counter@)
    &&& forall|name: &str, by: &Expr| #[trigger] call_requires(after, (name, by))
    &&& forall|name: &str, by: &Expr, r: Expr| #[trigger]
        call_ensures(after, (name, by), r) ==> r.deep_view() == (m.after)(name@, by.deep_view())
    &&& forall|index: usize| #[trigger] call_requires(counter, (index,))
    &&& forall|index: usize, r: String| #[trigger]
        call_ensures(counter, (index,), r) ==> r@ == (m.counter)(index)
    &&& forall|index: usize| #[trigger] call_requires(last, (index,))
    &&& forall|index: usize, r: String| #[trigger]
        call_ensures(last, (index,), r) ==> r@ == (m.last)(index)
    &&& forall|clocks: &C| #[trigger] call_requires(sole, (clocks,))
    &&& forall|clocks: &C, r: (Option<usize>, usize, Option<Number>)| #[trigger]
        call_ensures(sole, (clocks,), r) ==> r == (m.sole)(*clocks)
}

/// Whether each of them may be asked anything, and answers as its model says.
pub open spec fn runs_true<
    C,
    A1: Fn(C, &Expr, &Table<Number>) -> Result<(C, Option<usize>), String>,
    A2: Fn(C, &str, usize) -> C,
    A3: Fn(&C, &str) -> Option<usize>,
    A4: Fn(C, &Expr, &Table<usize>, &Table<Number>, Vec<usize>) -> Result<(C, Vec<usize>), String>,
    A5: Fn(C, &Vec<usize>, &str) -> Result<(C, Option<usize>), String>,
    A6: Fn(&C, usize) -> Ticking,
    A7: Fn(&C, usize, usize) -> bool,
    A8: Fn(&C, &str, usize, usize) -> String,
    A9: Fn(&C, &Table<usize>, Option<usize>, &Expr) -> Expr,
    B1: Fn(&C, usize, &Vec<(String, Expr)>, &Expr) -> Vec<(String, Expr)>,
    B2: Fn(&C, usize) -> Expr,
    B3: Fn(&Vec<(usize, Vec<(String, Expr)>)>) -> Result<Vec<usize>, String>,
    B4: Fn(Vec<(String, Expr)>) -> Result<Vec<WhenAction>, String>,
    B5: Fn(&Expr, &Table<usize>) -> Option<String>,
    B6: Fn(&EquationItem) -> Option<(String, bool)>,
    B7: Fn(&Expr) -> Vec<String>,
    B8: Fn(&Expr, &str) -> Expr,
    B9: Fn(&str, &Expr) -> Expr,
    D1: Fn(usize) -> String,
    D2: Fn(usize) -> String,
    D3: Fn(&C) -> (Option<usize>, usize, Option<Number>),
>(
    s: Clockwork<C, A1, A2, A3, A4, A5, A6, A7, A8, A9, B1, B2, B3, B4, B5, B6, B7, B8, B9, D1, D2, D3>,
) -> bool {
    runs_true_to(
        s.read,
        s.put_name,
        s.by_name,
        s.touched,
        s.meet,
        s.ticking,
        s.agree,
        s.clash,
        s.at_tick,
        s.stride,
        s.elapsed,
        s.order,
        s.arrange,
        s.unheld,
        s.assigned,
        s.within,
        s.first_tick,
        s.after,
        s.counter,
        s.last,
        s.sole,
        s.model@,
    )
}

/// What they answer, mathematically.
pub open spec fn clockwork_of<
    C,
    A1: Fn(C, &Expr, &Table<Number>) -> Result<(C, Option<usize>), String>,
    A2: Fn(C, &str, usize) -> C,
    A3: Fn(&C, &str) -> Option<usize>,
    A4: Fn(C, &Expr, &Table<usize>, &Table<Number>, Vec<usize>) -> Result<(C, Vec<usize>), String>,
    A5: Fn(C, &Vec<usize>, &str) -> Result<(C, Option<usize>), String>,
    A6: Fn(&C, usize) -> Ticking,
    A7: Fn(&C, usize, usize) -> bool,
    A8: Fn(&C, &str, usize, usize) -> String,
    A9: Fn(&C, &Table<usize>, Option<usize>, &Expr) -> Expr,
    B1: Fn(&C, usize, &Vec<(String, Expr)>, &Expr) -> Vec<(String, Expr)>,
    B2: Fn(&C, usize) -> Expr,
    B3: Fn(&Vec<(usize, Vec<(String, Expr)>)>) -> Result<Vec<usize>, String>,
    B4: Fn(Vec<(String, Expr)>) -> Result<Vec<WhenAction>, String>,
    B5: Fn(&Expr, &Table<usize>) -> Option<String>,
    B6: Fn(&EquationItem) -> Option<(String, bool)>,
    B7: Fn(&Expr) -> Vec<String>,
    B8: Fn(&Expr, &str) -> Expr,
    B9: Fn(&str, &Expr) -> Expr,
    D1: Fn(usize) -> String,
    D2: Fn(usize) -> String,
    D3: Fn(&C) -> (Option<usize>, usize, Option<Number>),
>(
    s: Clockwork<C, A1, A2, A3, A4, A5, A6, A7, A8, A9, B1, B2, B3, B4, B5, B6, B7, B8, B9, D1, D2, D3>,
) -> ClockworkV<C> {
    s.model@
}

impl<
    C,
    A1: Fn(C, &Expr, &Table<Number>) -> Result<(C, Option<usize>), String>,
    A2: Fn(C, &str, usize) -> C,
    A3: Fn(&C, &str) -> Option<usize>,
    A4: Fn(C, &Expr, &Table<usize>, &Table<Number>, Vec<usize>) -> Result<(C, Vec<usize>), String>,
    A5: Fn(C, &Vec<usize>, &str) -> Result<(C, Option<usize>), String>,
    A6: Fn(&C, usize) -> Ticking,
    A7: Fn(&C, usize, usize) -> bool,
    A8: Fn(&C, &str, usize, usize) -> String,
    A9: Fn(&C, &Table<usize>, Option<usize>, &Expr) -> Expr,
    B1: Fn(&C, usize, &Vec<(String, Expr)>, &Expr) -> Vec<(String, Expr)>,
    B2: Fn(&C, usize) -> Expr,
    B3: Fn(&Vec<(usize, Vec<(String, Expr)>)>) -> Result<Vec<usize>, String>,
    B4: Fn(Vec<(String, Expr)>) -> Result<Vec<WhenAction>, String>,
    B5: Fn(&Expr, &Table<usize>) -> Option<String>,
    B6: Fn(&EquationItem) -> Option<(String, bool)>,
    B7: Fn(&Expr) -> Vec<String>,
    B8: Fn(&Expr, &str) -> Expr,
    B9: Fn(&str, &Expr) -> Expr,
    D1: Fn(usize) -> String,
    D2: Fn(usize) -> String,
    D3: Fn(&C) -> (Option<usize>, usize, Option<Number>),
> Clockwork<C, A1, A2, A3, A4, A5, A6, A7, A8, A9, B1, B2, B3, B4, B5, B6, B7, B8, B9, D1, D2, D3> {
    /// The bundle of such functions, where there is anything they answer at all.
    pub fn new(
        read: A1,
        put_name: A2,
        by_name: A3,
        touched: A4,
        meet: A5,
        ticking: A6,
        agree: A7,
        clash: A8,
        at_tick: A9,
        stride: B1,
        elapsed: B2,
        order: B3,
        arrange: B4,
        unheld: B5,
        assigned: B6,
        within: B7,
        first_tick: B8,
        after: B9,
        counter: D1,
        last: D2,
        sole: D3,
    ) -> (r: Self)
        requires
            exists|m: ClockworkV<C>| #[trigger] runs_true_to(
                read,
                put_name,
                by_name,
                touched,
                meet,
                ticking,
                agree,
                clash,
                at_tick,
                stride,
                elapsed,
                order,
                arrange,
                unheld,
                assigned,
                within,
                first_tick,
                after,
                counter,
                last,
                sole,
                m,
            ),
        ensures
            runs_true(r),
            r.read == read,
            r.put_name == put_name,
            r.by_name == by_name,
            r.touched == touched,
            r.meet == meet,
            r.ticking == ticking,
            r.agree == agree,
            r.clash == clash,
            r.at_tick == at_tick,
            r.stride == stride,
            r.elapsed == elapsed,
            r.order == order,
            r.arrange == arrange,
            r.unheld == unheld,
            r.assigned == assigned,
            r.within == within,
            r.first_tick == first_tick,
            r.after == after,
            r.counter == counter,
            r.last == last,
            r.sole == sole,
    {
        Clockwork {
            read,
            put_name,
            by_name,
            touched,
            meet,
            ticking,
            agree,
            clash,
            at_tick,
            stride,
            elapsed,
            order,
            arrange,
            unheld,
            assigned,
            within,
            first_tick,
            after,
            counter,
            last,
            sole,
            model: Ghost(choose|m: ClockworkV<C>| #[trigger] runs_true_to(read, put_name, by_name, touched, meet, ticking, agree, clash, at_tick, stride, elapsed, order, arrange, unheld, assigned, within, first_tick, after, counter, last, sole, m)),
        }
    }

    pub fn do_read(
        &self,
        clocks: C,
        e: &Expr,
        known: &Table<Number>,
    ) -> (r: Result<(C, Option<usize>), String>)
        requires
            runs_true(*self),
        ensures
            outcome(r) == (clockwork_of(*self).read)(clocks, e.deep_view(), known.deep_view()),
    {
        let f = &self.read;
        f(clocks, e, known)
    }

    pub fn do_put_name(&self, clocks: C, name: &str, index: usize) -> (r: C)
        requires
            runs_true(*self),
        ensures
            r == (clockwork_of(*self).put_name)(clocks, name@, index),
    {
        let f = &self.put_name;
        f(clocks, name, index)
    }

    pub fn do_by_name(&self, clocks: &C, name: &str) -> (r: Option<usize>)
        requires
            runs_true(*self),
        ensures
            r == (clockwork_of(*self).by_name)(*clocks, name@),
    {
        let f = &self.by_name;
        f(clocks, name)
    }

    pub fn do_touched(
        &self,
        clocks: C,
        e: &Expr,
        clock_of: &Table<usize>,
        known: &Table<Number>,
        found: Vec<usize>,
    ) -> (r: Result<(C, Vec<usize>), String>)
        requires
            runs_true(*self),
        ensures
            listed_outcome(
                r,
            ) == (clockwork_of(*self).touched)(clocks, e.deep_view(), clock_of.deep_view(), known.deep_view(), found@),
    {
        let f = &self.touched;
        f(clocks, e, clock_of, known, found)
    }

    pub fn do_meet(
        &self,
        clocks: C,
        found: &Vec<usize>,
        target: &str,
    ) -> (r: Result<(C, Option<usize>), String>)
        requires
            runs_true(*self),
        ensures
            outcome(r) == (clockwork_of(*self).meet)(clocks, found@, target@),
    {
        let f = &self.meet;
        f(clocks, found, target)
    }

    pub fn do_ticking(&self, clocks: &C, index: usize) -> (r: Ticking)
        requires
            runs_true(*self),
        ensures
            r.deep_view() == (clockwork_of(*self).ticking)(*clocks, index),
    {
        let f = &self.ticking;
        f(clocks, index)
    }

    pub fn do_agree(&self, clocks: &C, a: usize, b: usize) -> (r: bool)
        requires
            runs_true(*self),
        ensures
            r == (clockwork_of(*self).agree)(*clocks, a, b),
    {
        let f = &self.agree;
        f(clocks, a, b)
    }

    pub fn do_clash(&self, clocks: &C, name: &str, a: usize, b: usize) -> (r: String)
        requires
            runs_true(*self),
        ensures
            r@ == (clockwork_of(*self).clash)(*clocks, name@, a, b),
    {
        let f = &self.clash;
        f(clocks, name, a, b)
    }

    pub fn do_at_tick(
        &self,
        clocks: &C,
        clock_of: &Table<usize>,
        on: Option<usize>,
        e: &Expr,
    ) -> (r: Expr)
        requires
            runs_true(*self),
        ensures
            r.deep_view() == (clockwork_of(*self).at_tick)(*clocks, clock_of.deep_view(), on, e.deep_view()),
    {
        let f = &self.at_tick;
        f(clocks, clock_of, on, e)
    }

    pub fn do_stride(
        &self,
        clocks: &C,
        index: usize,
        states: &Vec<(String, Expr)>,
        by: &Expr,
    ) -> (r: Vec<(String, Expr)>)
        requires
            runs_true(*self),
        ensures
            r.deep_view() == (clockwork_of(*self).stride)(*clocks, index, states.deep_view(), by.deep_view()),
    {
        let f = &self.stride;
        f(clocks, index, states, by)
    }

    pub fn do_elapsed(&self, clocks: &C, index: usize) -> (r: Expr)
        requires
            runs_true(*self),
        ensures
            r.deep_view() == (clockwork_of(*self).elapsed)(*clocks, index),
    {
        let f = &self.elapsed;
        f(clocks, index)
    }

    pub fn do_order(
        &self,
        lifted: &Vec<(usize, Vec<(String, Expr)>)>,
    ) -> (r: Result<Vec<usize>, String>)
        requires
            runs_true(*self),
        ensures
            listed(r) == (clockwork_of(*self).order)(lifted.deep_view()),
    {
        let f = &self.order;
        f(lifted)
    }

    pub fn do_arrange(&self, actions: Vec<(String, Expr)>) -> (r: Result<Vec<WhenAction>, String>)
        requires
            runs_true(*self),
        ensures
            told(r) == (clockwork_of(*self).arrange)(actions.deep_view()),
    {
        let f = &self.arrange;
        f(actions)
    }

    pub fn do_unheld(&self, e: &Expr, clock_of: &Table<usize>) -> (r: Option<String>)
        requires
            runs_true(*self),
        ensures
            r.deep_view() == (clockwork_of(*self).unheld)(e.deep_view(), clock_of.deep_view()),
    {
        let f = &self.unheld;
        f(e, clock_of)
    }

    pub fn do_assigned(&self, equation: &EquationItem) -> (r: Option<(String, bool)>)
        requires
            runs_true(*self),
        ensures
            r.deep_view() == (clockwork_of(*self).assigned)(equation.deep_view()),
    {
        let f = &self.assigned;
        f(equation)
    }

    pub fn do_within(&self, e: &Expr) -> (r: Vec<String>)
        requires
            runs_true(*self),
        ensures
            texts(r@) == (clockwork_of(*self).within)(e.deep_view()),
    {
        let f = &self.within;
        f(e)
    }

    pub fn do_first_tick(&self, e: &Expr, counter: &str) -> (r: Expr)
        requires
            runs_true(*self),
        ensures
            r.deep_view() == (clockwork_of(*self).first_tick)(e.deep_view(), counter@),
    {
        let f = &self.first_tick;
        f(e, counter)
    }

    pub fn do_after(&self, name: &str, by: &Expr) -> (r: Expr)
        requires
            runs_true(*self),
        ensures
            r.deep_view() == (clockwork_of(*self).after)(name@, by.deep_view()),
    {
        let f = &self.after;
        f(name, by)
    }

    pub fn do_counter(&self, index: usize) -> (r: String)
        requires
            runs_true(*self),
        ensures
            r@ == (clockwork_of(*self).counter)(index),
    {
        let f = &self.counter;
        f(index)
    }

    pub fn do_last(&self, index: usize) -> (r: String)
        requires
            runs_true(*self),
        ensures
            r@ == (clockwork_of(*self).last)(index),
    {
        let f = &self.last;
        f(index)
    }

    pub fn do_sole(&self, clocks: &C) -> (r: (Option<usize>, usize, Option<Number>))
        requires
            runs_true(*self),
        ensures
            r == (clockwork_of(*self).sole)(*clocks),
    {
        let f = &self.sole;
        f(clocks)
    }
}

}
