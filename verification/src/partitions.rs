//! Partitions: lifting a model's clocked equations into the `when` clauses
//! that fire on each clock.
//!
//! What a clock is lives elsewhere; this is what a model made of them becomes
//! - which equation belongs to which partition, and the counters and
//! last-tick markers kept beside it.
use crate::class::{
    Component, ComponentV, EquationItem, EquationV, Variability, WhenAction, WhenBranch, WhenClause,
    MAX_DEPTH,
};
use crate::clockwork::{
    clockwork_of, outcome, runs_true, Beat, BeatV, Clockwork, ClockworkV, Ticking, TickingV,
};
use crate::expr::{kids, lemma_kids_smaller, told, Expr, ExprV, RelOp};
use crate::flat::{Model, ModelV, WhenActionV, WhenBranchV, WhenClauseV};
use crate::folding::{const_eval, evaluated, Worths};
use crate::make;
use crate::number::{from_count, half, nearest, one, zero, Number};
use crate::machines::{partitioned, MachineV, TransitionV};
use crate::stepping::{
    blank, blank_component, build_state_machines, clocked_by, has_machines, mentions,
    machine_book, machine_steps, mentions_call, find_varying, stepped, varying_of, whole_book,
    with_steps,
};
use crate::sums::{is_steady, sums_of, Arith, Sums, SumsV};
use crate::table::Table;
use crate::text::{
    comes_before, decimal, digits, holds, join2, join3, join4, join5, join_all, joined, precedes,
    same, texts,
};
use vstd::prelude::*;

verus! {

/// Which variable belongs to which clock.
pub type ClockOf = Map<Seq<char>, usize>;

/// Names with the values they are given, in order.
pub type Given = Seq<(Seq<char>, ExprV)>;

/// Whether an equation defines exactly that name.
pub open spec fn gives(e: EquationV, name: Seq<char>) -> bool {
    e.lhs == ExprV::Ref(name)
}

/// Whether the equation that gives a name its value leaves the clocked world.
///
/// `hold` and `noClock` leave a clock, so what they give is continuous and
/// takes no clock from elsewhere.
pub open spec fn has_left(name: Seq<char>, equations: Seq<EquationV>) -> bool {
    exists|i: int|
        0 <= i < equations.len() && gives(#[trigger] equations[i], name) && (mentions(
            equations[i].rhs,
            "hold"@,
        ) || mentions(equations[i].rhs, "noClock"@))
}

/// Whether the equation that gives a name its value stands on a boundary.
pub open spec fn crosses_over(name: Seq<char>, equations: Seq<EquationV>) -> bool {
    exists|i: int|
        0 <= i < equations.len() && gives(#[trigger] equations[i], name) && (mentions(
            equations[i].rhs,
            "sample"@,
        ) || mentions(equations[i].rhs, "hold"@) || mentions(equations[i].rhs, "noClock"@))
}

/// Whether the equation that gives a name its value cannot stand off a clock.
pub open spec fn asks_for_a_clock(name: Seq<char>, equations: Seq<EquationV>) -> bool {
    exists|i: int|
        0 <= i < equations.len() && gives(#[trigger] equations[i], name) && (mentions(
            equations[i].rhs,
            "previous"@,
        ) || mentions(equations[i].rhs, "firstTick"@) || mentions(equations[i].rhs, "subSample"@)
            || mentions(equations[i].rhs, "superSample"@))
}

/// The operators that change the rate or leave the clocked world.
pub open spec fn is_boundary(e: ExprV) -> bool {
    e matches ExprV::Call(name, _) && (name == "hold"@ || name == "noClock"@ || name == "sample"@
        || name == "subSample"@ || name == "superSample"@ || name == "shiftSample"@ || name
        == "backSample"@)
}

/// The names an equation puts on its own clock: everything it reads, save
/// what sits under such an operator.
pub open spec fn on_one_clock(e: ExprV) -> Seq<Seq<char>>
    decreases e, kids(e).len() + 1,
{
    if is_boundary(e) {
        Seq::empty()
    } else {
        match e {
            ExprV::Ref(name) => seq![name],
            _ => kids_on_one_clock(e, kids(e).len()),
        }
    }
}

/// The same over the first `n` children.
pub open spec fn kids_on_one_clock(e: ExprV, n: nat) -> Seq<Seq<char>>
    decreases e, n,
{
    proof {
        lemma_kids_smaller(e);
    }
    if n == 0 || n > kids(e).len() {
        Seq::empty()
    } else {
        kids_on_one_clock(e, (n - 1) as nat) + on_one_clock(kids(e)[n - 1])
    }
}

/// The names of the clocks that a model declares.
pub open spec fn declared_clocks(list: Seq<ComponentV>) -> Seq<Seq<char>>
    decreases list.len(),
{
    if list.len() == 0 {
        Seq::empty()
    } else {
        let before = declared_clocks(list.drop_last());
        if list.last().of_type == "Clock"@ {
            before.push(list.last().name)
        } else {
            before
        }
    }
}

/// What one pass over the first `n` declarations settles of their values.
pub open spec fn settled_once(list: Seq<ComponentV>, known: Worths, v: SumsV, n: nat) -> Worths
    decreases n,
{
    if n == 0 || n > list.len() {
        known
    } else {
        let before = settled_once(list, known, v, (n - 1) as nat);
        let one = list[n - 1];
        match one.binding {
            Some(binding) => match evaluated(binding, before, v) {
                Some(value) => if before.contains_key(one.name) {
                    before
                } else {
                    before.insert(one.name, value)
                },
                None => before,
            },
            None => before,
        }
    }
}

/// What passes settle, for as long as one settles anything new and at most as
/// many as there are declarations.
pub open spec fn settled_values(
    list: Seq<ComponentV>,
    known: Worths,
    v: SumsV,
    rounds: nat,
) -> Worths
    decreases rounds,
{
    let next = settled_once(list, known, v, list.len());
    if rounds == 0 || next == known {
        known
    } else {
        settled_values(list, next, v, (rounds - 1) as nat)
    }
}

/// The definitions that declarations of clocks carry.
pub open spec fn definitions_declared(list: Seq<ComponentV>) -> Given
    decreases list.len(),
{
    if list.len() == 0 {
        Seq::empty()
    } else {
        let before = definitions_declared(list.drop_last());
        match list.last().binding {
            Some(binding) => if list.last().of_type == "Clock"@ {
                before.push((list.last().name, binding))
            } else {
                before
            },
            None => before,
        }
    }
}

pub open spec fn is_spoken_for(definitions: Given, name: Seq<char>) -> bool {
    exists|i: int| 0 <= i < definitions.len() && (#[trigger] definitions[i]).0 == name
}

/// What an equation says of a clock, where it does. Where both sides are
/// clocks the one being said is the one nothing has said yet.
pub open spec fn clock_said(
    e: EquationV,
    declared: Seq<Seq<char>>,
    definitions: Given,
) -> Option<(Seq<char>, ExprV)> {
    let left = match e.lhs {
        ExprV::Ref(name) => if declared.contains(name) {
            Some(name)
        } else {
            None
        },
        _ => None,
    };
    let right = match e.rhs {
        ExprV::Ref(name) => if declared.contains(name) {
            Some(name)
        } else {
            None
        },
        _ => None,
    };
    match (left, right) {
        (Some(a), Some(b)) => if is_spoken_for(definitions, a) {
            Some((b, e.lhs))
        } else {
            Some((a, e.rhs))
        },
        (Some(a), None) => Some((a, e.rhs)),
        (None, Some(b)) => Some((b, e.lhs)),
        (None, None) => None,
    }
}

/// The definitions of clocks and the equations that are none, after the first
/// `n` equations.
pub open spec fn definitions_split(
    list: Seq<EquationV>,
    declared: Seq<Seq<char>>,
    start: Given,
    n: nat,
) -> (Given, Seq<EquationV>)
    decreases n,
{
    if n == 0 || n > list.len() {
        (start, Seq::empty())
    } else {
        let (definitions, kept) = definitions_split(list, declared, start, (n - 1) as nat);
        match clock_said(list[n - 1], declared, definitions) {
            Some(said) => (definitions.push(said), kept),
            None => (definitions, kept.push(list[n - 1])),
        }
    }
}

/// The table of clocks, and whether a pass left it as it was.
pub ghost struct TableV<C> {
    pub clocks: C,
    pub settled: bool,
}

/// One pass over the first `n` definitions.
pub open spec fn clocks_once<C>(
    h: ClockworkV<C>,
    clocks: C,
    definitions: Given,
    known: Worths,
    n: nat,
) -> Result<TableV<C>, Seq<char>>
    decreases n,
{
    if n == 0 || n > definitions.len() {
        Ok(TableV { clocks, settled: true })
    } else {
        match clocks_once(h, clocks, definitions, known, (n - 1) as nat) {
            Err(why) => Err(why),
            Ok(before) => {
                let (name, value) = definitions[n - 1];
                if (h.by_name)(before.clocks, name) is Some {
                    Ok(before)
                } else {
                    match (h.read)(before.clocks, value, known) {
                        Err(why) => Err(why),
                        Ok((clocks, Some(index))) => Ok(
                            TableV { clocks: (h.put_name)(clocks, name, index), settled: false },
                        ),
                        Ok((clocks, None)) => Ok(TableV { clocks, ..before }),
                    }
                }
            },
        }
    }
}

/// Passes until one leaves the table as it was, at most so many.
pub open spec fn clocks_settled<C>(
    h: ClockworkV<C>,
    clocks: C,
    definitions: Given,
    known: Worths,
    rounds: nat,
) -> Result<C, Seq<char>>
    decreases rounds,
{
    if rounds == 0 {
        Ok(clocks)
    } else {
        match clocks_once(h, clocks, definitions, known, definitions.len()) {
            Err(why) => Err(why),
            Ok(made) => if made.settled {
                Ok(made.clocks)
            } else {
                clocks_settled(h, made.clocks, definitions, known, (rounds - 1) as nat)
            },
        }
    }
}

/// What is wrong with the first declared clock from the `i`-th on that has
/// something wrong with it.
pub open spec fn clocks_trouble<C>(
    h: ClockworkV<C>,
    clocks: C,
    declared: Seq<Seq<char>>,
    i: nat,
) -> Option<Seq<char>>
    decreases declared.len() - i,
{
    if i >= declared.len() {
        None
    } else {
        let name = declared[i as int];
        match (h.by_name)(clocks, name) {
            None => Some(
                "`"@ + name
                    + "` is a Clock, so it needs an interval the compiler can see: `Clock "@ + name
                    + " = Clock(0.1);`"@,
            ),
            Some(index) => match (h.ticking)(clocks, index).interval {
                Some(seconds) => if seconds.below(zero()) || seconds.level(zero()) {
                    Some("the interval of `"@ + name + "` must be positive"@)
                } else {
                    clocks_trouble(h, clocks, declared, i + 1)
                },
                None => clocks_trouble(h, clocks, declared, i + 1),
            },
        }
    }
}

/// A `when` clause that is a partition written out by hand: one branch, and
/// nothing in it but assignments.
pub open spec fn is_plain(clause: WhenClauseV) -> bool {
    clause.branches.len() == 1 && forall|i: int|
        0 <= i < clause.branches[0].actions.len() ==> (#[trigger] clause.branches[0].actions[i]
            is Assign)
}

/// What reading such clauses out as equations comes to.
pub ghost struct ReadOutV<C> {
    pub clocks: C,
    pub grouped: ClockOf,
    pub kept: Seq<WhenClauseV>,
    pub equations: Seq<EquationV>,
}

/// The first `n` assignments of a clause, as equations on a clock.
pub open spec fn assignments_read<C>(
    before: ReadOutV<C>,
    actions: Seq<WhenActionV>,
    clock: usize,
    n: nat,
) -> ReadOutV<C>
    decreases n,
{
    if n == 0 || n > actions.len() {
        before
    } else {
        let so_far = assignments_read(before, actions, clock, (n - 1) as nat);
        match actions[n - 1] {
            WhenActionV::Assign(target, value) => ReadOutV {
                grouped: so_far.grouped.insert(target, clock),
                equations: so_far.equations.push(
                    EquationV { lhs: ExprV::Ref(target), rhs: value, origin: Seq::empty() },
                ),
                ..so_far
            },
            _ => so_far,
        }
    }
}

/// The first `n` clauses looked at: one on a clock is read out as equations,
/// any other is kept.
pub open spec fn clauses_read<C>(
    h: ClockworkV<C>,
    start: ReadOutV<C>,
    clauses: Seq<WhenClauseV>,
    known: Worths,
    n: nat,
) -> Result<ReadOutV<C>, Seq<char>>
    decreases n,
{
    if n == 0 || n > clauses.len() {
        Ok(start)
    } else {
        match clauses_read(h, start, clauses, known, (n - 1) as nat) {
            Err(why) => Err(why),
            Ok(before) => {
                let clause = clauses[n - 1];
                if !is_plain(clause) {
                    Ok(ReadOutV { kept: before.kept.push(clause), ..before })
                } else {
                    match (h.read)(before.clocks, clause.branches[0].condition, known) {
                        Err(why) => Err(why),
                        Ok((clocks, None)) => Ok(
                            ReadOutV { clocks, kept: before.kept.push(clause), ..before },
                        ),
                        Ok((clocks, Some(clock))) => Ok(
                            assignments_read(
                                ReadOutV { clocks, ..before },
                                clause.branches[0].actions,
                                clock,
                                clause.branches[0].actions.len(),
                            ),
                        ),
                    }
                }
            },
        }
    }
}

/// How far the clocks have spread.
pub ghost struct SpreadV<C> {
    pub clocks: C,
    pub clock_of: ClockOf,
    pub settled: bool,
}

/// What spreading is done over: the equations, what varies, what the
/// parameters are worth, and the clocks of what was written under one.
pub ghost struct GroundV {
    pub equations: Seq<EquationV>,
    pub varying: Seq<Seq<char>>,
    pub known: Worths,
    pub grouped: ClockOf,
}

/// A clock handed to the first `n` names that an equation reads on it. A
/// variable that two equations put on two clocks is refused.
pub open spec fn handed_on<C>(
    h: ClockworkV<C>,
    g: GroundV,
    start: SpreadV<C>,
    names: Seq<Seq<char>>,
    clock: usize,
    n: nat,
) -> Result<SpreadV<C>, Seq<char>>
    decreases n,
{
    if n == 0 || n > names.len() {
        Ok(start)
    } else {
        match handed_on(h, g, start, names, clock, (n - 1) as nat) {
            Err(why) => Err(why),
            Ok(before) => {
                let name = names[n - 1];
                if !g.varying.contains(name) || has_left(name, g.equations) {
                    Ok(before)
                } else if !before.clock_of.contains_key(name) {
                    Ok(
                        SpreadV {
                            clock_of: before.clock_of.insert(name, clock),
                            settled: false,
                            ..before
                        },
                    )
                } else {
                    let already = before.clock_of[name];
                    if !(h.agree)(before.clocks, already, clock) {
                        Err((h.clash)(before.clocks, name, already, clock))
                    } else {
                        Ok(before)
                    }
                }
            },
        }
    }
}

/// Whether a list holds a clock whose rate is not known yet.
pub open spec fn any_waiting<C>(h: ClockworkV<C>, clocks: C, found: Seq<usize>) -> bool {
    exists|i: int|
        0 <= i < found.len() && (h.ticking)(clocks, #[trigger] found[i]).beat is Waiting
}

/// An equation whose target has a clock: the clock settles what is waiting on
/// the right, and travels to whatever is read there that has none.
pub open spec fn spread_back<C>(
    h: ClockworkV<C>,
    g: GroundV,
    before: SpreadV<C>,
    e: EquationV,
    target: Seq<char>,
) -> Result<SpreadV<C>, Seq<char>> {
    let clock = before.clock_of[target];
    match (h.touched)(before.clocks, e.rhs, before.clock_of, g.known, seq![clock]) {
        Err(why) => Err(why),
        Ok((clocks, found)) => {
            let names = on_one_clock(e.rhs);
            if any_waiting(h, clocks, found) {
                match (h.meet)(clocks, found, target) {
                    Err(why) => Err(why),
                    Ok((clocks, met)) => handed_on(
                        h,
                        g,
                        SpreadV {
                            clocks,
                            clock_of: before.clock_of,
                            settled: before.settled && met is None,
                        },
                        names,
                        clock,
                        names.len(),
                    ),
                }
            } else {
                handed_on(h, g, SpreadV { clocks, ..before }, names, clock, names.len())
            }
        },
    }
}

/// An equation whose target has no clock: it takes the one that what it reads
/// comes to, and a derivative only one that says how to step it.
pub open spec fn spread_on<C>(
    h: ClockworkV<C>,
    g: GroundV,
    before: SpreadV<C>,
    e: EquationV,
    target: Seq<char>,
    is_rate: bool,
) -> Result<SpreadV<C>, Seq<char>> {
    let start = if g.grouped.contains_key(target) {
        seq![g.grouped[target]]
    } else {
        Seq::empty()
    };
    match (h.touched)(before.clocks, e.rhs, before.clock_of, g.known, start) {
        Err(why) => Err(why),
        Ok((clocks, found)) => match (h.meet)(clocks, found, target) {
            Err(why) => Err(why),
            Ok((clocks, None)) => Ok(SpreadV { clocks, ..before }),
            Ok((clocks, Some(clock))) => if is_rate && (h.ticking)(clocks, clock).solver is None {
                Ok(SpreadV { clocks, ..before })
            } else {
                Ok(
                    SpreadV {
                        clocks,
                        clock_of: before.clock_of.insert(target, clock),
                        settled: false,
                    },
                )
            },
        },
    }
}

/// The first `n` equations looked at once.
pub open spec fn spread_once<C>(
    h: ClockworkV<C>,
    g: GroundV,
    start: SpreadV<C>,
    n: nat,
) -> Result<SpreadV<C>, Seq<char>>
    decreases n,
{
    if n == 0 || n > g.equations.len() {
        Ok(start)
    } else {
        match spread_once(h, g, start, (n - 1) as nat) {
            Err(why) => Err(why),
            Ok(before) => {
                let e = g.equations[n - 1];
                match (h.assigned)(e) {
                    None => Ok(before),
                    Some((target, is_rate)) => if before.clock_of.contains_key(target) {
                        spread_back(h, g, before, e, target)
                    } else {
                        spread_on(h, g, before, e, target, is_rate)
                    },
                }
            },
        }
    }
}

/// Rounds of looking until one settles nothing new, at most so many.
pub open spec fn spread_out<C>(
    h: ClockworkV<C>,
    g: GroundV,
    clocks: C,
    clock_of: ClockOf,
    rounds: nat,
) -> Result<SpreadV<C>, Seq<char>>
    decreases rounds,
{
    let start = SpreadV { clocks, clock_of, settled: true };
    if rounds == 0 {
        Ok(start)
    } else {
        match spread_once(h, g, start, g.equations.len()) {
            Err(why) => Err(why),
            Ok(made) => if made.settled {
                Ok(made)
            } else {
                spread_out(h, g, made.clocks, made.clock_of, (rounds - 1) as nat)
            },
        }
    }
}

/// The first declared clock from the `i`-th on that nothing settles.
pub open spec fn first_waiting<C>(
    h: ClockworkV<C>,
    clocks: C,
    declared: Seq<Seq<char>>,
    i: nat,
) -> Option<Seq<char>>
    decreases declared.len() - i,
{
    if i >= declared.len() {
        None
    } else {
        match (h.by_name)(clocks, declared[i as int]) {
            Some(index) => if (h.ticking)(clocks, index).beat is Waiting {
                Some(declared[i as int])
            } else {
                first_waiting(h, clocks, declared, i + 1)
            },
            None => first_waiting(h, clocks, declared, i + 1),
        }
    }
}

pub open spec fn unsettled_clock(name: Seq<char>) -> Seq<char> {
    "nothing in this model says how often `"@ + name
        + "` ticks - a clock written as `Clock()` takes its rate from an equation where it meets a clock that has one"@
}

pub open spec fn is_component(list: Seq<ComponentV>, name: Seq<char>) -> bool {
    exists|i: int| 0 <= i < list.len() && (#[trigger] list[i]).name == name
}

/// Whether a name that a clocked equation reads joins its clock: where its
/// own equation cannot stand off one, or where it is the other end of a plain
/// equality and stands on no boundary.
pub open spec fn joins_clock(
    name: Seq<char>,
    e: EquationV,
    g: GroundV,
    components: Seq<ComponentV>,
    clock_of: ClockOf,
) -> bool {
    &&& !clock_of.contains_key(name)
    &&& is_component(components, name)
    &&& asks_for_a_clock(name, g.equations) || (e.rhs is Ref && !crosses_over(name, g.equations))
    &&& g.varying.contains(name)
}

/// Those among the first `n` names.
pub open spec fn names_joined(
    names: Seq<Seq<char>>,
    e: EquationV,
    g: GroundV,
    components: Seq<ComponentV>,
    clock_of: ClockOf,
    clock: usize,
    n: nat,
) -> Seq<(Seq<char>, usize)>
    decreases n,
{
    if n == 0 || n > names.len() {
        Seq::empty()
    } else {
        let before = names_joined(names, e, g, components, clock_of, clock, (n - 1) as nat);
        if joins_clock(names[n - 1], e, g, components, clock_of) {
            before.push((names[n - 1], clock))
        } else {
            before
        }
    }
}

/// What the first `n` equations bring onto their clocks.
pub open spec fn equations_joined<C>(
    h: ClockworkV<C>,
    g: GroundV,
    components: Seq<ComponentV>,
    clock_of: ClockOf,
    n: nat,
) -> Seq<(Seq<char>, usize)>
    decreases n,
{
    if n == 0 || n > g.equations.len() {
        Seq::empty()
    } else {
        let before = equations_joined(h, g, components, clock_of, (n - 1) as nat);
        let e = g.equations[n - 1];
        match e.lhs {
            ExprV::Ref(target) => if clock_of.contains_key(target) {
                let names = (h.within)(e.rhs);
                before + names_joined(
                    names,
                    e,
                    g,
                    components,
                    clock_of,
                    clock_of[target],
                    names.len(),
                )
            } else {
                before
            },
            _ => before,
        }
    }
}

/// A table with the first `n` of a list put in.
pub open spec fn put_all(clock_of: ClockOf, list: Seq<(Seq<char>, usize)>, n: nat) -> ClockOf
    decreases n,
{
    if n == 0 || n > list.len() {
        clock_of
    } else {
        put_all(clock_of, list, (n - 1) as nat).insert(list[n - 1].0, list[n - 1].1)
    }
}

/// Rounds of joining until one joins nothing, at most so many.
pub open spec fn joined_out<C>(
    h: ClockworkV<C>,
    g: GroundV,
    components: Seq<ComponentV>,
    clock_of: ClockOf,
    rounds: nat,
) -> ClockOf
    decreases rounds,
{
    let joined = equations_joined(h, g, components, clock_of, g.equations.len());
    if rounds == 0 || joined.len() == 0 {
        clock_of
    } else {
        joined_out(
            h,
            g,
            components,
            put_all(clock_of, joined, joined.len()),
            (rounds - 1) as nat,
        )
    }
}

/// The operators that only make sense on a clock, in the order asked for.
pub open spec fn clocked_operator(e: ExprV) -> Option<Seq<char>> {
    if mentions(e, "previous"@) {
        Some("previous"@)
    } else if mentions(e, "firstTick"@) {
        Some("firstTick"@)
    } else if mentions(e, "subSample"@) {
        Some("subSample"@)
    } else if mentions(e, "superSample"@) {
        Some("superSample"@)
    } else if mentions(e, "noClock"@) {
        Some("noClock"@)
    } else {
        None
    }
}

/// The first equation from the `i`-th on that uses such an operator off any
/// clock: the target and the operator.
pub open spec fn first_unclocked(
    list: Seq<EquationV>,
    clock_of: ClockOf,
    i: nat,
) -> Option<(Seq<char>, Seq<char>)>
    decreases list.len() - i,
{
    if i >= list.len() {
        None
    } else {
        match list[i as int].lhs {
            ExprV::Ref(target) => if clock_of.contains_key(target) {
                first_unclocked(list, clock_of, i + 1)
            } else {
                match clocked_operator(list[i as int].rhs) {
                    Some(asked) => Some((target, asked)),
                    None => first_unclocked(list, clock_of, i + 1),
                }
            },
            _ => first_unclocked(list, clock_of, i + 1),
        }
    }
}

/// Actions by clock, in the order the clocks were first met.
pub type ByClock = Seq<(usize, Given)>;

/// One more action under a clock.
pub open spec fn filed(list: ByClock, clock: usize, one: (Seq<char>, ExprV), i: nat) -> ByClock
    decreases list.len() - i,
{
    if i >= list.len() {
        list.push((clock, seq![one]))
    } else if list[i as int].0 == clock {
        list.update(i as int, (clock, list[i as int].1.push(one)))
    } else {
        filed(list, clock, one, i + 1)
    }
}

/// What stays of the equations, and what is lifted onto each clock: plain
/// definitions, and what changes by a derivative.
pub ghost struct LiftedV {
    pub kept: Seq<EquationV>,
    pub lifted: ByClock,
    pub rates: ByClock,
}

/// The first `n` equations lifted.
pub open spec fn lifted_out<C>(
    h: ClockworkV<C>,
    clocks: C,
    clock_of: ClockOf,
    list: Seq<EquationV>,
    n: nat,
) -> LiftedV
    decreases n,
{
    if n == 0 || n > list.len() {
        LiftedV { kept: Seq::empty(), lifted: Seq::empty(), rates: Seq::empty() }
    } else {
        let before = lifted_out(h, clocks, clock_of, list, (n - 1) as nat);
        let e = list[n - 1];
        match (h.assigned)(e) {
            Some((target, is_rate)) => if clock_of.contains_key(target) {
                let clock = clock_of[target];
                let value = (h.at_tick)(clocks, clock_of, Some(clock), e.rhs);
                if is_rate {
                    LiftedV { rates: filed(before.rates, clock, (target, value), 0), ..before }
                } else {
                    LiftedV { lifted: filed(before.lifted, clock, (target, value), 0), ..before }
                }
            } else {
                LiftedV { kept: before.kept.push(e), ..before }
            },
            None => LiftedV { kept: before.kept.push(e), ..before },
        }
    }
}

/// A clock put in its place in a list that is in order.
pub open spec fn number_placed(list: Seq<usize>, clock: usize) -> Seq<usize>
    decreases list.len(),
{
    if list.len() == 0 || list.last() <= clock {
        list.push(clock)
    } else {
        number_placed(list.drop_last(), clock).push(list.last())
    }
}

/// The clocks of the first `n` entries, in order.
pub open spec fn clocks_in_order(list: ByClock, n: nat) -> Seq<usize>
    decreases n,
{
    if n == 0 || n > list.len() {
        Seq::empty()
    } else {
        number_placed(clocks_in_order(list, (n - 1) as nat), list[n - 1].0)
    }
}

/// What stands under a clock, from the `i`-th entry on.
pub open spec fn under_clock(list: ByClock, clock: usize, i: nat) -> Given
    decreases list.len() - i,
{
    if i >= list.len() {
        Seq::empty()
    } else if list[i as int].0 == clock {
        list[i as int].1
    } else {
        under_clock(list, clock, i + 1)
    }
}

/// A list with more under a clock.
pub open spec fn extended_under(list: ByClock, clock: usize, more: Given, i: nat) -> ByClock
    decreases list.len() - i,
{
    if i >= list.len() {
        list.push((clock, more))
    } else if list[i as int].0 == clock {
        list.update(i as int, (clock, list[i as int].1 + more))
    } else {
        extended_under(list, clock, more, i + 1)
    }
}

/// A definition put in its place by name, after those of the same name.
pub open spec fn name_placed(list: Given, one: (Seq<char>, ExprV)) -> Given
    decreases list.len(),
{
    if list.len() == 0 || !precedes(one.0, list.last().0) {
        list.push(one)
    } else {
        name_placed(list.drop_last(), one).push(list.last())
    }
}

/// The first `n` definitions, in order of their names.
pub open spec fn names_in_order(list: Given, n: nat) -> Given
    decreases n,
{
    if n == 0 || n > list.len() {
        Seq::empty()
    } else {
        name_placed(names_in_order(list, (n - 1) as nat), list[n - 1])
    }
}

/// What the machinery keeps beside a partition: a name, its clock, and where
/// it starts.
pub type Kept = Seq<(Seq<char>, usize, Number)>;

pub open spec fn is_given(list: Given, name: Seq<char>) -> bool {
    exists|i: int| 0 <= i < list.len() && (#[trigger] list[i]).0 == name
}

/// The names among the first `n` that a step defines and that are no states.
pub open spec fn steps_kept(made: Given, states: Given, clock: usize, n: nat) -> Kept
    decreases n,
{
    if n == 0 || n > made.len() {
        Seq::empty()
    } else {
        let before = steps_kept(made, states, clock, (n - 1) as nat);
        if is_given(states, made[n - 1].0) {
            before
        } else {
            before.push((made[n - 1].0, clock, zero()))
        }
    }
}

/// The names of a list in quotes.
pub open spec fn in_quotes(list: Given) -> Seq<Seq<char>> {
    Seq::new(list.len(), |i: int| "`"@ + list[i].0 + "`"@)
}

/// How long a step is: as the clock says, or measured where a method of one
/// stage can do with that.
pub open spec fn step_length<C>(h: ClockworkV<C>, clocks: C, clock: usize, states: Given) -> Result<
    ExprV,
    Seq<char>,
> {
    let t = (h.ticking)(clocks, clock);
    match t.solver {
        None => Err(
            joined(in_quotes(states), ", "@) + " changes by a derivative on a clock ticking "@
                + t.described
                + ", which was not given a way to step it - a clocked state asks for a solver method, as in `Clock(0.1, solverMethod = \"ExplicitEuler\")`"@,
        ),
        Some(solver) => match t.interval {
            Some(seconds) => Ok(ExprV::Number(seconds)),
            None => if t.one_stage {
                Ok((h.elapsed)(clocks, clock))
            } else {
                Err(
                    "`"@ + solver
                        + "` works out where the state will be partway through a step, and an event clock does not know how long its next step is - `ExplicitEuler` is what a clock ticking on a condition can be stepped with"@,
                )
            },
        },
    }
}

/// What is lifted, with the derivatives of the first `n` clocks stepped.
pub open spec fn rates_stepped<C>(
    h: ClockworkV<C>,
    clocks: C,
    rates: ByClock,
    lifted: ByClock,
    order: Seq<usize>,
    n: nat,
) -> Result<(ByClock, Kept), Seq<char>>
    decreases n,
{
    if n == 0 || n > order.len() {
        Ok((lifted, Seq::empty()))
    } else {
        match rates_stepped(h, clocks, rates, lifted, order, (n - 1) as nat) {
            Err(why) => Err(why),
            Ok((before, kept)) => {
                let clock = order[n - 1];
                let held = under_clock(rates, clock, 0);
                let states = names_in_order(held, held.len());
                match step_length(h, clocks, clock, states) {
                    Err(why) => Err(why),
                    Ok(by) => {
                        let made = (h.stride)(clocks, clock, states, by);
                        Ok(
                            (
                                extended_under(before, clock, made, 0),
                                kept + steps_kept(made, states, clock, made.len()),
                            ),
                        )
                    },
                }
            },
        }
    }
}

/// A table with the first `n` names that are kept put in.
pub open spec fn kept_put(clock_of: ClockOf, kept: Kept, n: nat) -> ClockOf
    decreases n,
{
    if n == 0 || n > kept.len() {
        clock_of
    } else {
        kept_put(clock_of, kept, (n - 1) as nat).insert(kept[n - 1].0, kept[n - 1].1)
    }
}

/// Whether an expression names a variable anywhere.
pub open spec fn names_anywhere(e: ExprV, name: Seq<char>) -> bool
    decreases e,
{
    proof {
        lemma_kids_smaller(e);
    }
    e == ExprV::Ref(name) || exists|i: int|
        0 <= i < kids(e).len() && names_anywhere(#[trigger] kids(e)[i], name)
}

pub open spec fn any_names(list: Given, name: Seq<char>) -> bool {
    exists|i: int| 0 <= i < list.len() && names_anywhere((#[trigger] list[i]).1, name)
}

pub open spec fn any_mentions(list: Given, name: Seq<char>) -> bool {
    exists|i: int| 0 <= i < list.len() && mentions((#[trigger] list[i]).1, name)
}

/// A partition, and what is kept beside it.
pub ghost struct PartitionV {
    pub actions: Given,
    pub kept: Kept,
}

/// The actions of a partition that counts its ticks where it is asked which
/// one it is at, and keeps when the last one was where it is asked that.
pub open spec fn counted_ticks<C>(h: ClockworkV<C>, clock: usize, actions: Given) -> PartitionV {
    let counter = (h.counter)(clock);
    let last = (h.last)(clock);
    let asks_when = any_names(actions, last);
    let first = if asks_when || any_mentions(actions, "firstTick"@) {
        PartitionV {
            actions: Seq::new(
                actions.len(),
                |i: int| (actions[i].0, (h.first_tick)(actions[i].1, counter)),
            ).push((counter, (h.after)(counter, ExprV::Number(one())))),
            kept: seq![(counter, clock, zero())],
        }
    } else {
        PartitionV { actions, kept: Seq::empty() }
    };
    if asks_when {
        PartitionV {
            actions: first.actions.push((last, ExprV::Time)),
            kept: first.kept.push((last, clock, zero())),
        }
    } else {
        first
    }
}

pub open spec fn first_target(actions: Given) -> Seq<char> {
    if actions.len() > 0 {
        actions[0].0
    } else {
        "it"@
    }
}

/// What a partition fires on.
pub open spec fn fires_on(t: TickingV, actions: Given) -> Result<ExprV, Seq<char>> {
    match t.beat {
        BeatV::Every(first, interval) => Ok(
            ExprV::Call("sample"@, seq![ExprV::Number(first), ExprV::Number(interval)]),
        ),
        BeatV::When(condition) => Ok(condition),
        BeatV::Waiting => Err(
            "nothing in this model says how often `"@ + first_target(actions)
                + "` ticks - a clock left for the compiler to work out has to meet a known one somewhere in an equation"@,
        ),
    }
}

pub open spec fn skip_counter(clock: usize) -> Seq<char> {
    "$every"@ + digits(clock as nat)
}

/// What an action holds while a tick is skipped.
pub open spec fn unless_skipped(skipped: Seq<char>, target: Seq<char>, value: ExprV) -> ExprV {
    ExprV::If(
        Box::new(
            ExprV::Rel(
                RelOp::Lt,
                Box::new(ExprV::Ref(skipped)),
                Box::new(ExprV::Number(half())),
            ),
        ),
        Box::new(value),
        Box::new(ExprV::Call("pre"@, seq![ExprV::Ref(target)])),
    )
}

/// A partition whose clock ticks on an event and is sub-sampled counts the
/// edges it skips and holds what it had through them. Counting from one short
/// of the factor makes the first edge a firing one.
pub open spec fn skipping<C>(
    h: ClockworkV<C>,
    v: SumsV,
    clock: usize,
    t: TickingV,
    before: PartitionV,
) -> PartitionV {
    if t.interval is None && t.every_nth > 1 {
        let skipped = skip_counter(clock);
        let next = (h.after)(skipped, ExprV::Number(one()));
        let many = nearest(t.every_nth as nat);
        PartitionV {
            actions: Seq::new(
                before.actions.len(),
                |i: int|
                    (
                        before.actions[i].0,
                        unless_skipped(skipped, before.actions[i].0, before.actions[i].1),
                    ),
            ).push(
                (
                    skipped,
                    ExprV::If(
                        Box::new(
                            ExprV::Rel(RelOp::Ge, Box::new(next), Box::new(ExprV::Number(many))),
                        ),
                        Box::new(ExprV::Number(zero())),
                        Box::new(next),
                    ),
                ),
            ),
            kept: before.kept.push((skipped, clock, (v.work)(Arith::Sub, many, one()))),
        }
    } else {
        before
    }
}

/// The `when` clause of a partition, and what is kept beside it.
pub open spec fn partition_made<C>(
    h: ClockworkV<C>,
    v: SumsV,
    clocks: C,
    clock_of: ClockOf,
    clock: usize,
    actions: Given,
) -> Result<(WhenClauseV, Kept), Seq<char>> {
    let t = (h.ticking)(clocks, clock);
    let first = counted_ticks(h, clock, actions);
    match fires_on(t, first.actions) {
        Err(why) => Err(why),
        Ok(condition) => {
            let whole = skipping(h, v, clock, t, first);
            match (h.arrange)(whole.actions) {
                Err(why) => Err(why),
                Ok(actions) => match (h.unheld)(condition, clock_of) {
                    Some(name) => Err(
                        "an event clock waits on something the run varies between ticks, and `"@
                            + name + "` is clocked - `hold("@ + name
                            + ")` is how a clocked value is read in continuous time"@,
                    ),
                    None => Ok(
                        (
                            WhenClauseV {
                                branches: seq![WhenBranchV { condition, actions }],
                                origin: Seq::empty(),
                            },
                            whole.kept,
                        ),
                    ),
                },
            }
        },
    }
}

/// The clauses of the first `n` partitions, and what is kept beside them.
pub open spec fn partitions_made<C>(
    h: ClockworkV<C>,
    v: SumsV,
    clocks: C,
    clock_of: ClockOf,
    lifted: ByClock,
    order: Seq<usize>,
    n: nat,
) -> Result<(Seq<WhenClauseV>, Kept), Seq<char>>
    decreases n,
{
    if n == 0 || n > order.len() {
        Ok((Seq::empty(), Seq::empty()))
    } else {
        match partitions_made(h, v, clocks, clock_of, lifted, order, (n - 1) as nat) {
            Err(why) => Err(why),
            Ok((clauses, kept)) => match partition_made(
                h,
                v,
                clocks,
                clock_of,
                order[n - 1],
                under_clock(lifted, order[n - 1], 0),
            ) {
                Err(why) => Err(why),
                Ok((clause, more)) => Ok((clauses.push(clause), kept + more)),
            },
        }
    }
}

/// The declaration of something that is kept beside a partition.
pub open spec fn kept_component(one: (Seq<char>, usize, Number)) -> ComponentV {
    ComponentV {
        name: one.0,
        variability: Variability::Discrete,
        start: Some(ExprV::Number(one.2)),
        description: Some("clock bookkeeping"@),
        ..blank()
    }
}

/// The first clocked name from the `i`-th equation on that is read without
/// `hold`.
pub open spec fn first_unheld<C>(
    h: ClockworkV<C>,
    list: Seq<EquationV>,
    clock_of: ClockOf,
    i: nat,
) -> Option<Seq<char>>
    decreases list.len() - i,
{
    if i >= list.len() {
        None
    } else {
        match (h.unheld)(list[i as int].lhs, clock_of) {
            Some(name) => Some(name),
            None => match (h.unheld)(list[i as int].rhs, clock_of) {
                Some(name) => Some(name),
                None => first_unheld(h, list, clock_of, i + 1),
            },
        }
    }
}

/// A declaration once the clocks are out: what is clocked holds its value
/// between ticks.
pub open spec fn held_between(c: ComponentV, clock_of: ClockOf) -> ComponentV {
    if clock_of.contains_key(c.name) {
        ComponentV {
            variability: Variability::Discrete,
            start: match c.start {
                Some(value) => Some(value),
                None => Some(ExprV::Number(zero())),
            },
            ..c
        }
    } else {
        c
    }
}

/// The first `n` declarations once the clocks are out: the clocks themselves
/// are not variables at all.
pub open spec fn declarations_left(
    list: Seq<ComponentV>,
    clock_of: ClockOf,
    n: nat,
) -> Seq<ComponentV>
    decreases n,
{
    if n == 0 || n > list.len() {
        Seq::empty()
    } else {
        let before = declarations_left(list, clock_of, (n - 1) as nat);
        if list[n - 1].of_type == "Clock"@ {
            before
        } else {
            before.push(held_between(list[n - 1], clock_of))
        }
    }
}

/// A model once what is lifted stands in clauses of its own.
pub open spec fn finished<C>(
    h: ClockworkV<C>,
    clocks: C,
    clock_of: ClockOf,
    m: ModelV,
    clauses: Seq<WhenClauseV>,
    kept: Kept,
) -> Result<ModelV, Seq<char>> {
    let components = m.components + Seq::new(kept.len(), |i: int| kept_component(kept[i]));
    let all = kept_put(clock_of, kept, kept.len());
    match first_unheld(h, m.equations, all, 0) {
        Some(name) => Err(
            "`"@ + name + "` is a clocked variable, so a continuous equation may only read it through `hold("@
                + name + ")`"@,
        ),
        None => Ok(
            ModelV {
                components: declarations_left(components, all, components.len()),
                equations: Seq::new(
                    m.equations.len(),
                    |i: int|
                        EquationV {
                            lhs: (h.at_tick)(clocks, all, None, m.equations[i].lhs),
                            rhs: (h.at_tick)(clocks, all, None, m.equations[i].rhs),
                            origin: m.equations[i].origin,
                        },
                ),
                when_clauses: m.when_clauses + clauses,
                ..m
            },
        ),
    }
}

/// A model whose variables are all on their clocks, with what is clocked
/// lifted out.
pub open spec fn lifted_model<C>(
    h: ClockworkV<C>,
    v: SumsV,
    clocks: C,
    clock_of: ClockOf,
    m: ModelV,
) -> Result<ModelV, Seq<char>> {
    let out = lifted_out(h, clocks, clock_of, m.equations, m.equations.len());
    let order = clocks_in_order(out.rates, out.rates.len());
    match rates_stepped(h, clocks, out.rates, out.lifted, order, order.len()) {
        Err(why) => Err(why),
        Ok((lifted, kept)) => {
            let known = kept_put(clock_of, kept, kept.len());
            match (h.order)(lifted) {
                Err(why) => Err(why),
                Ok(order) => match partitions_made(
                    h,
                    v,
                    clocks,
                    known,
                    lifted,
                    order,
                    order.len(),
                ) {
                    Err(why) => Err(why),
                    Ok((clauses, more)) => finished(
                        h,
                        clocks,
                        known,
                        ModelV { equations: out.kept, ..m },
                        clauses,
                        kept + more,
                    ),
                },
            }
        },
    }
}

/// A model with every variable put on the clock it belongs to, and then
/// lifted.
pub open spec fn spread_model<C>(
    h: ClockworkV<C>,
    v: SumsV,
    clocks: C,
    clock_of: ClockOf,
    known: Worths,
    grouped: ClockOf,
    declared: Seq<Seq<char>>,
    m: ModelV,
) -> Result<ModelV, Seq<char>> {
    let g = GroundV {
        equations: m.equations,
        varying: varying_of(m.components),
        known,
        grouped,
    };
    match spread_out(h, g, clocks, clock_of, MAX_DEPTH as nat) {
        Err(why) => Err(why),
        Ok(spread) => match first_waiting(h, spread.clocks, declared, 0) {
            Some(name) => Err(unsettled_clock(name)),
            None => {
                let all = joined_out(
                    h,
                    g,
                    m.components,
                    spread.clock_of,
                    MAX_DEPTH as nat,
                );
                match first_unclocked(m.equations, all, 0) {
                    Some((target, asked)) => Err(
                        "`"@ + target + "` uses `"@ + asked
                            + "`, but nothing says which clock it is on"@,
                    ),
                    None => lifted_model(h, v, spread.clocks, all, m),
                }
            },
        },
    }
}

/// A model with its machines built on the one clock there is.
pub open spec fn machines_built<C>(h: ClockworkV<C>, clocks: C, m: ModelV) -> Result<
    (ModelV, ClockOf),
    Seq<char>,
> {
    if has_machines(m) {
        let (clock, many, period) = (h.sole)(clocks);
        match stepped(m, clock, many as nat, period) {
            Err(why) => Err(why),
            Ok(made) => Ok(
                (with_steps(m, made), clocked_by(Map::empty(), made.clocked, clock->0)),
            ),
        }
    } else {
        Ok((m, Map::empty()))
    }
}

/// What a model comes to with its clocked equations lifted out.
/// `none` is the table with no clock in it.
pub open spec fn partitioned_model<C>(
    h: ClockworkV<C>,
    none: C,
    v: SumsV,
    m: ModelV,
) -> Result<ModelV, Seq<char>> {
    let declared = declared_clocks(m.components);
    if declared.len() == 0 {
        match machines_built(h, none, m) {
            Err(why) => Err(why),
            Ok((m, _)) => Ok(m),
        }
    } else {
        let known = settled_values(m.components, Map::empty(), v, m.components.len());
        let (definitions, kept) = definitions_split(
            m.equations,
            declared,
            definitions_declared(m.components),
            m.equations.len(),
        );
        match clocks_settled(h, none, definitions, known, MAX_DEPTH as nat) {
            Err(why) => Err(why),
            Ok(clocks) => match clocks_trouble(h, clocks, declared, 0) {
                Some(why) => Err(why),
                None => {
                    let start = ReadOutV {
                        clocks,
                        grouped: Map::empty(),
                        kept: Seq::empty(),
                        equations: kept,
                    };
                    match clauses_read(h, start, m.when_clauses, known, m.when_clauses.len()) {
                        Err(why) => Err(why),
                        Ok(out) => {
                            let read = ModelV {
                                equations: out.equations,
                                when_clauses: out.kept,
                                ..m
                            };
                            match machines_built(h, out.clocks, read) {
                                Err(why) => Err(why),
                                Ok((m, clock_of)) => spread_model(
                                    h,
                                    v,
                                    out.clocks,
                                    clock_of,
                                    known,
                                    out.grouped,
                                    declared,
                                    m,
                                ),
                            }
                        },
                    }
                },
            },
        }
    }
}

/// Whether the equation that gives a name its value leaves the clocked world.
fn left_the_clocked_world(name: &str, equations: &Vec<EquationItem>) -> (r: bool)
    ensures
        r == has_left(name@, equations.deep_view()),
{
    let ghost all = equations.deep_view();
    let mut i: usize = 0;
    while i < equations.len()
        invariant
            i <= equations.len(),
            all == equations.deep_view(),
            forall|
                k: int,
            | 0 <= k < i ==> !(gives(#[trigger] all[k], name@) && (mentions(all[k].rhs, "hold"@) || mentions(all[k].rhs, "noClock"@))),
        decreases equations.len() - i,
    {
        assert(all[i as int] == equations@[i as int].deep_view());
        if let Expr::Ref(held) = &equations[i].lhs {
            if same(
                held.as_str(),
                name,
            ) && (mentions_call(&equations[i].rhs, "hold") || mentions_call(&equations[i].rhs, "noClock")) {
                assert(gives(all[i as int], name@) && (mentions(all[i as int].rhs, "hold"@) || mentions(all[i as int].rhs, "noClock"@)));
                return true;
            }
        }
        i = i + 1;
    }
    false
}

fn does_cross(name: &str, equations: &Vec<EquationItem>) -> (r: bool)
    ensures
        r == crosses_over(name@, equations.deep_view()),
{
    let ghost all = equations.deep_view();
    let mut i: usize = 0;
    while i < equations.len()
        invariant
            i <= equations.len(),
            all == equations.deep_view(),
            forall|
                k: int,
            | 0 <= k < i ==> !(gives(#[trigger] all[k], name@) && (mentions(all[k].rhs, "sample"@) || mentions(all[k].rhs, "hold"@) || mentions(all[k].rhs, "noClock"@))),
        decreases equations.len() - i,
    {
        assert(all[i as int] == equations@[i as int].deep_view());
        if let Expr::Ref(held) = &equations[i].lhs {
            if same(
                held.as_str(),
                name,
            ) && (mentions_call(&equations[i].rhs, "sample") || mentions_call(&equations[i].rhs, "hold") || mentions_call(&equations[i].rhs, "noClock")) {
                assert(gives(all[i as int], name@) && (mentions(all[i as int].rhs, "sample"@) || mentions(all[i as int].rhs, "hold"@) || mentions(all[i as int].rhs, "noClock"@)));
                return true;
            }
        }
        i = i + 1;
    }
    false
}

fn does_ask(name: &str, equations: &Vec<EquationItem>) -> (r: bool)
    ensures
        r == asks_for_a_clock(name@, equations.deep_view()),
{
    let ghost all = equations.deep_view();
    let mut i: usize = 0;
    while i < equations.len()
        invariant
            i <= equations.len(),
            all == equations.deep_view(),
            forall|
                k: int,
            | 0 <= k < i ==> !(gives(#[trigger] all[k], name@) && (mentions(all[k].rhs, "previous"@) || mentions(all[k].rhs, "firstTick"@) || mentions(all[k].rhs, "subSample"@) || mentions(all[k].rhs, "superSample"@))),
        decreases equations.len() - i,
    {
        assert(all[i as int] == equations@[i as int].deep_view());
        if let Expr::Ref(held) = &equations[i].lhs {
            if same(
                held.as_str(),
                name,
            ) && (mentions_call(&equations[i].rhs, "previous") || mentions_call(&equations[i].rhs, "firstTick") || mentions_call(&equations[i].rhs, "subSample") || mentions_call(&equations[i].rhs, "superSample")) {
                assert(gives(all[i as int], name@) && (mentions(all[i as int].rhs, "previous"@) || mentions(all[i as int].rhs, "firstTick"@) || mentions(all[i as int].rhs, "subSample"@) || mentions(all[i as int].rhs, "superSample"@)));
                return true;
            }
        }
        i = i + 1;
    }
    false
}

fn at_boundary(expr: &Expr) -> (r: bool)
    ensures
        r == is_boundary(expr.deep_view()),
{
    match expr {
        Expr::Call(name, _) => {
            let n = name.as_str();
            same(n, "hold") || same(n, "noClock") || same(n, "sample") || same(n, "subSample")
                || same(n, "superSample") || same(n, "shiftSample") || same(n, "backSample")
        },
        _ => false,
    }
}

/// The variables an equation puts on its own clock: everything it reads, save
/// what sits under an operator that changes the rate or leaves the clocked
/// world.
pub fn on_the_same_clock(expr: &Expr, into: &mut Vec<String>)
    ensures
        texts(final(into)@) == texts(old(into)@) + on_one_clock(expr.deep_view()),
    decreases expr.deep_view(),
{
    let ghost was = texts(into@);
    let ghost shape = expr.deep_view();
    if at_boundary(expr) {
        assert(texts(into@) =~= was + on_one_clock(shape));
        return;
    }
    if let Expr::Ref(name) = expr {
        into.push(name.clone());
        assert(texts(into@) =~= was + seq![name@]);
        return;
    }
    let below = expr.children();
    let mut i: usize = 0;
    proof {
        lemma_kids_smaller(shape);
    }
    assert(texts(into@) =~= was + kids_on_one_clock(shape, 0));
    while i < below.len()
        invariant
            i <= below.len(),
            shape == expr.deep_view(),
            below.deep_view() == kids(shape),
            forall|k: int|
                0 <= k < kids(shape).len() ==> (#[trigger] decreases_to!(shape => kids(shape)[k])),
            texts(into@) == was + kids_on_one_clock(shape, i as nat),
        decreases below.len() - i,
    {
        assert(below.deep_view()[i as int] == below@[i as int].deep_view());
        assert(decreases_to!(shape => kids(shape)[i as int]));
        on_the_same_clock(below[i], into);
        assert(texts(into@) =~= was + kids_on_one_clock(shape, (i + 1) as nat));
        i = i + 1;
    }
}

fn find_declared_clocks(list: &Vec<Component>) -> (r: Vec<String>)
    ensures
        texts(r@) == declared_clocks(list.deep_view()),
{
    let ghost all = list.deep_view();
    let mut out: Vec<String> = Vec::new();
    let mut i: usize = 0;
    assert(texts(out@) =~= declared_clocks(all.take(0)));
    while i < list.len()
        invariant
            i <= list.len(),
            all == list.deep_view(),
            texts(out@) == declared_clocks(all.take(i as int)),
        decreases list.len() - i,
    {
        let ghost before = texts(out@);
        assert(all.take(i + 1).drop_last() =~= all.take(i as int));
        assert(all[i as int] == list@[i as int].deep_view());
        if same(list[i].of_type.as_str(), "Clock") {
            out.push(list[i].name.clone());
            assert(texts(out@) =~= before.push(all[i as int].name));
        }
        i = i + 1;
    }
    assert(all.take(i as int) =~= all);
    out
}

/// One pass over the declarations; whether it settled anything.
fn settle_once<
    W: Fn(Arith, Number, Number) -> Number,
    O: Fn(&str, &Vec<Number>) -> Option<Vec<Number>>,
    N: Fn(&str) -> String,
>(list: &Vec<Component>, known: &mut Table<Number>, sums: &Sums<W, O, N>) -> (r: bool)
    requires
        is_steady(*sums),
    ensures
        final(known).deep_view() == settled_once(
            list.deep_view(),
            old(known).deep_view(),
            sums_of(*sums),
            list@.len(),
        ),
        !r ==> final(known).deep_view() == old(known).deep_view(),
        r ==> final(known).deep_view() != old(known).deep_view(),
{
    let ghost all = list.deep_view();
    let ghost was = known.deep_view();
    let ghost v = sums_of(*sums);
    let mut any: bool = false;
    let mut i: usize = 0;
    let ghost mut witness: Seq<char> = Seq::empty();
    while i < list.len()
        invariant
            is_steady(*sums),
            i <= list.len(),
            all == list.deep_view(),
            was == old(known).deep_view(),
            v == sums_of(*sums),
            known.deep_view() == settled_once(all, was, v, i as nat),
            !any ==> known.deep_view() == was,
            any ==> known.deep_view().contains_key(witness) && !was.contains_key(witness),
            forall|
                name: Seq<char>,
            | #[trigger] was.contains_key(name) ==> known.deep_view().contains_key(name),
        decreases list.len() - i,
    {
        let one = &list[i];
        assert(all[i as int] == one.deep_view());
        if !known.has(one.name.as_str()) {
            if let Some(binding) = &one.binding {
                if let Some(value) = const_eval(binding, known, sums) {
                    proof {
                        if !any {
                            witness = one.name@;
                        }
                    }
                    known.put(one.name.clone(), value);
                    any = true;
                }
            }
        }
        i = i + 1;
    }
    any
}

fn settle_values<
    W: Fn(Arith, Number, Number) -> Number,
    O: Fn(&str, &Vec<Number>) -> Option<Vec<Number>>,
    N: Fn(&str) -> String,
>(list: &Vec<Component>, sums: &Sums<W, O, N>) -> (r: Table<Number>)
    requires
        is_steady(*sums),
    ensures
        r.deep_view() == settled_values(
            list.deep_view(),
            Map::empty(),
            sums_of(*sums),
            list@.len(),
        ),
{
    let ghost all = list.deep_view();
    let ghost v = sums_of(*sums);
    let mut known: Table<Number> = Table::new();
    let mut rounds: usize = list.len();
    while rounds > 0
        invariant
            is_steady(*sums),
            all == list.deep_view(),
            v == sums_of(*sums),
            settled_values(all, Map::empty(), v, list@.len()) == settled_values(
                all,
                known.deep_view(),
                v,
                rounds as nat,
            ),
        decreases rounds,
    {
        let any = settle_once(list, &mut known, sums);
        if !any {
            return known;
        }
        rounds = rounds - 1;
    }
    known
}

fn find_definitions(list: &Vec<Component>) -> (r: Vec<(String, Expr)>)
    ensures
        r.deep_view() == definitions_declared(list.deep_view()),
{
    let ghost all = list.deep_view();
    let mut out: Vec<(String, Expr)> = Vec::new();
    let mut i: usize = 0;
    assert(out.deep_view() =~= definitions_declared(all.take(0)));
    while i < list.len()
        invariant
            i <= list.len(),
            all == list.deep_view(),
            out.deep_view() == definitions_declared(all.take(i as int)),
        decreases list.len() - i,
    {
        let ghost before = out.deep_view();
        assert(all.take(i + 1).drop_last() =~= all.take(i as int));
        assert(all[i as int] == list@[i as int].deep_view());
        if let Some(binding) = &list[i].binding {
            if same(list[i].of_type.as_str(), "Clock") {
                out.push((list[i].name.clone(), binding.clone()));
                assert(out.deep_view() =~= before.push((all[i as int].name, binding.deep_view())));
            }
        }
        i = i + 1;
    }
    assert(all.take(i as int) =~= all);
    out
}

fn holds_given(list: &Vec<(String, Expr)>, name: &str) -> (r: bool)
    ensures
        r == is_given(list.deep_view(), name@),
        r == is_spoken_for(list.deep_view(), name@),
{
    let ghost all = list.deep_view();
    let mut i: usize = 0;
    while i < list.len()
        invariant
            i <= list.len(),
            all == list.deep_view(),
            forall|k: int| 0 <= k < i ==> (#[trigger] all[k]).0 != name@,
        decreases list.len() - i,
    {
        assert(all[i as int] == list@[i as int].deep_view());
        if same(list[i].0.as_str(), name) {
            assert(all[i as int].0 == name@);
            return true;
        }
        i = i + 1;
    }
    false
}

fn find_clock_said(
    e: &EquationItem,
    declared: &Vec<String>,
    definitions: &Vec<(String, Expr)>,
) -> (r: Option<(String, Expr)>)
    ensures
        r.deep_view() == clock_said(e.deep_view(), texts(declared@), definitions.deep_view()),
{
    let left: Option<&String> = match &e.lhs {
        Expr::Ref(name) => if holds(declared, name.as_str()) {
            Some(name)
        } else {
            None
        },
        _ => None,
    };
    let right: Option<&String> = match &e.rhs {
        Expr::Ref(name) => if holds(declared, name.as_str()) {
            Some(name)
        } else {
            None
        },
        _ => None,
    };
    match (left, right) {
        (Some(a), Some(b)) => if holds_given(definitions, a.as_str()) {
            Some((b.clone(), e.lhs.clone()))
        } else {
            Some((a.clone(), e.rhs.clone()))
        },
        (Some(a), None) => Some((a.clone(), e.rhs.clone())),
        (None, Some(b)) => Some((b.clone(), e.lhs.clone())),
        (None, None) => None,
    }
}

fn split_definitions(
    list: &Vec<EquationItem>,
    declared: &Vec<String>,
    definitions: &mut Vec<(String, Expr)>,
) -> (r: Vec<EquationItem>)
    ensures
        (final(definitions).deep_view(), r.deep_view()) == definitions_split(
            list.deep_view(),
            texts(declared@),
            old(definitions).deep_view(),
            list@.len(),
        ),
{
    let ghost all = list.deep_view();
    let ghost names = texts(declared@);
    let ghost start = definitions.deep_view();
    let mut kept: Vec<EquationItem> = Vec::new();
    let mut i: usize = 0;
    assert(kept.deep_view() =~= Seq::empty());
    while i < list.len()
        invariant
            i <= list.len(),
            all == list.deep_view(),
            names == texts(declared@),
            (definitions.deep_view(), kept.deep_view()) == definitions_split(
                all,
                names,
                start,
                i as nat,
            ),
        decreases list.len() - i,
    {
        let ghost before = definitions.deep_view();
        let ghost held = kept.deep_view();
        assert(all[i as int] == list@[i as int].deep_view());
        match find_clock_said(&list[i], declared, definitions) {
            Some(said) => {
                let ghost more = said.deep_view();
                definitions.push(said);
                assert(definitions.deep_view() =~= before.push(more));
            },
            None => {
                kept.push(list[i].clone());
                assert(kept.deep_view() =~= held.push(all[i as int]));
            },
        }
        i = i + 1;
    }
    kept
}

proof fn lemma_clocks_once_stops<C>(
    h: ClockworkV<C>,
    clocks: C,
    definitions: Given,
    known: Worths,
    n: nat,
    all: nat,
)
    requires
        n <= all <= definitions.len(),
        clocks_once(h, clocks, definitions, known, n) is Err,
    ensures
        clocks_once(
            h,
            clocks,
            definitions,
            known,
            all,
        ) == clocks_once(h, clocks, definitions, known, n),
    decreases all,
{
    if n < all {
        lemma_clocks_once_stops(h, clocks, definitions, known, n, (all - 1) as nat);
    }
}


fn settle_clocks_once<
    C,
    A1: Fn(C, &Expr, &Table<Number>) -> Result<(C, Option<usize>), String>,
    A2: Fn(C, &str, usize) -> C,
    A3: Fn(&C, &str) -> Option<usize>,
    A4: Fn(C, &Expr, &Table<usize>, &Table<Number>, Vec<usize>) -> Result<(C, Vec<usize>), String>,
    A5: Fn(C, &Vec<usize>, &str) -> Result<(C, Option<usize>), String>,
    A6: Fn(&C, usize) -> Ticking,
    A7: Fn(&C, usize, usize) -> bool,
    A8: Fn(&C, &str, usize, usize) -> String,
    A9: Fn(&C, &Table<usize>, Option<usize>, &Expr) -> Expr,
    B1: Fn(&C, usize, &Vec<(String, Expr)>, &Expr) -> Vec<(String, Expr)>,
    B2: Fn(&C, usize) -> Expr,
    B3: Fn(&Vec<(usize, Vec<(String, Expr)>)>) -> Result<Vec<usize>, String>,
    B4: Fn(Vec<(String, Expr)>) -> Result<Vec<WhenAction>, String>,
    B5: Fn(&Expr, &Table<usize>) -> Option<String>,
    B6: Fn(&EquationItem) -> Option<(String, bool)>,
    B7: Fn(&Expr) -> Vec<String>,
    B8: Fn(&Expr, &str) -> Expr,
    B9: Fn(&str, &Expr) -> Expr,
    D1: Fn(usize) -> String,
    D2: Fn(usize) -> String,
    D3: Fn(&C) -> (Option<usize>, usize, Option<Number>),
>(
    h: &Clockwork<C, A1, A2, A3, A4, A5, A6, A7, A8, A9, B1, B2, B3, B4, B5, B6, B7, B8, B9, D1, D2, D3>,
    clocks: C,
    definitions: &Vec<(String, Expr)>,
    known: &Table<Number>,
) -> (r: Result<(C, bool), String>)
    requires
        runs_true(*h),
    ensures
        match clocks_once(
            clockwork_of(*h),
            clocks,
            definitions.deep_view(),
            known.deep_view(),
            definitions@.len(),
        ) {
            Err(trouble) => r matches Err(why) && why@ == trouble,
            Ok(made) => r matches Ok((now, settled)) && now == made.clocks && settled
                == made.settled,
        },
{
    let ghost hv = clockwork_of(*h);
    let ghost all = definitions.deep_view();
    let ghost kv = known.deep_view();
    let ghost start = clocks;
    let mut now = clocks;
    let mut settled: bool = true;
    let mut i: usize = 0;
    while i < definitions.len()
        invariant
            i <= definitions.len(),
            runs_true(*h),
            hv == clockwork_of(*h),
            all == definitions.deep_view(),
            kv == known.deep_view(),
            start == clocks,
            clocks_once(hv, start, all, kv, i as nat) == Ok::<TableV<C>, Seq<char>>(
                TableV { clocks: now, settled },
            ),
        decreases definitions.len() - i,
    {
        let name = &definitions[i].0;
        assert(all[i as int] == definitions@[i as int].deep_view());
        if h.do_by_name(&now, name.as_str()).is_none() {
            match h.do_read(now, &definitions[i].1, known) {
                Ok((read, Some(index))) => {
                    now = h.do_put_name(read, name.as_str(), index);
                    settled = false;
                },
                Ok((read, None)) => {
                    now = read;
                },
                Err(why) => {
                    proof {
                        lemma_clocks_once_stops(hv, start, all, kv, (i + 1) as nat, all.len());
                    }
                    return Err(why);
                },
            }
        }
        i = i + 1;
    }
    Ok((now, settled))
}

fn settle_clocks<
    C,
    A1: Fn(C, &Expr, &Table<Number>) -> Result<(C, Option<usize>), String>,
    A2: Fn(C, &str, usize) -> C,
    A3: Fn(&C, &str) -> Option<usize>,
    A4: Fn(C, &Expr, &Table<usize>, &Table<Number>, Vec<usize>) -> Result<(C, Vec<usize>), String>,
    A5: Fn(C, &Vec<usize>, &str) -> Result<(C, Option<usize>), String>,
    A6: Fn(&C, usize) -> Ticking,
    A7: Fn(&C, usize, usize) -> bool,
    A8: Fn(&C, &str, usize, usize) -> String,
    A9: Fn(&C, &Table<usize>, Option<usize>, &Expr) -> Expr,
    B1: Fn(&C, usize, &Vec<(String, Expr)>, &Expr) -> Vec<(String, Expr)>,
    B2: Fn(&C, usize) -> Expr,
    B3: Fn(&Vec<(usize, Vec<(String, Expr)>)>) -> Result<Vec<usize>, String>,
    B4: Fn(Vec<(String, Expr)>) -> Result<Vec<WhenAction>, String>,
    B5: Fn(&Expr, &Table<usize>) -> Option<String>,
    B6: Fn(&EquationItem) -> Option<(String, bool)>,
    B7: Fn(&Expr) -> Vec<String>,
    B8: Fn(&Expr, &str) -> Expr,
    B9: Fn(&str, &Expr) -> Expr,
    D1: Fn(usize) -> String,
    D2: Fn(usize) -> String,
    D3: Fn(&C) -> (Option<usize>, usize, Option<Number>),
>(
    h: &Clockwork<C, A1, A2, A3, A4, A5, A6, A7, A8, A9, B1, B2, B3, B4, B5, B6, B7, B8, B9, D1, D2, D3>,
    clocks: C,
    definitions: &Vec<(String, Expr)>,
    known: &Table<Number>,
) -> (r: Result<C, String>)
    requires
        runs_true(*h),
    ensures
        outcome(r) == clocks_settled(
            clockwork_of(*h),
            clocks,
            definitions.deep_view(),
            known.deep_view(),
            MAX_DEPTH as nat,
        ),
{
    let ghost hv = clockwork_of(*h);
    let ghost all = definitions.deep_view();
    let ghost kv = known.deep_view();
    let ghost start = clocks;
    let mut now = clocks;
    let mut rounds: usize = MAX_DEPTH;
    while rounds > 0
        invariant
            runs_true(*h),
            hv == clockwork_of(*h),
            all == definitions.deep_view(),
            kv == known.deep_view(),
            start == clocks,
            clocks_settled(hv, start, all, kv, MAX_DEPTH as nat) == clocks_settled(
                hv,
                now,
                all,
                kv,
                rounds as nat,
            ),
        decreases rounds,
    {
        match settle_clocks_once(h, now, definitions, known) {
            Ok((next, settled)) => {
                if settled {
                    return Ok(next);
                }
                now = next;
            },
            Err(why) => return Err(why),
        }
        rounds = rounds - 1;
    }
    Ok(now)
}

fn check_clocks<
    C,
    A1: Fn(C, &Expr, &Table<Number>) -> Result<(C, Option<usize>), String>,
    A2: Fn(C, &str, usize) -> C,
    A3: Fn(&C, &str) -> Option<usize>,
    A4: Fn(C, &Expr, &Table<usize>, &Table<Number>, Vec<usize>) -> Result<(C, Vec<usize>), String>,
    A5: Fn(C, &Vec<usize>, &str) -> Result<(C, Option<usize>), String>,
    A6: Fn(&C, usize) -> Ticking,
    A7: Fn(&C, usize, usize) -> bool,
    A8: Fn(&C, &str, usize, usize) -> String,
    A9: Fn(&C, &Table<usize>, Option<usize>, &Expr) -> Expr,
    B1: Fn(&C, usize, &Vec<(String, Expr)>, &Expr) -> Vec<(String, Expr)>,
    B2: Fn(&C, usize) -> Expr,
    B3: Fn(&Vec<(usize, Vec<(String, Expr)>)>) -> Result<Vec<usize>, String>,
    B4: Fn(Vec<(String, Expr)>) -> Result<Vec<WhenAction>, String>,
    B5: Fn(&Expr, &Table<usize>) -> Option<String>,
    B6: Fn(&EquationItem) -> Option<(String, bool)>,
    B7: Fn(&Expr) -> Vec<String>,
    B8: Fn(&Expr, &str) -> Expr,
    B9: Fn(&str, &Expr) -> Expr,
    D1: Fn(usize) -> String,
    D2: Fn(usize) -> String,
    D3: Fn(&C) -> (Option<usize>, usize, Option<Number>),
>(
    h: &Clockwork<C, A1, A2, A3, A4, A5, A6, A7, A8, A9, B1, B2, B3, B4, B5, B6, B7, B8, B9, D1, D2, D3>,
    clocks: &C,
    declared: &Vec<String>,
) -> (r: Option<String>)
    requires
        runs_true(*h),
    ensures
        r.deep_view() == clocks_trouble(clockwork_of(*h), *clocks, texts(declared@), 0),
{
    let ghost hv = clockwork_of(*h);
    let ghost all = texts(declared@);
    let mut i: usize = 0;
    while i < declared.len()
        invariant
            i <= declared.len(),
            runs_true(*h),
            hv == clockwork_of(*h),
            all == texts(declared@),
            clocks_trouble(hv, *clocks, all, 0) == clocks_trouble(hv, *clocks, all, i as nat),
        decreases declared.len() - i,
    {
        let name = declared[i].as_str();
        assert(all[i as int] == name@);
        match h.do_by_name(clocks, name) {
            None => return Some(
                join5(
                    "`",
                    name,
                    "` is a Clock, so it needs an interval the compiler can see: `Clock ",
                    name,
                    " = Clock(0.1);`",
                ),
            ),
            Some(index) => {
                let t = h.do_ticking(clocks, index);
                if let Some(seconds) = t.interval {
                    if seconds.less(zero()) || seconds.equals(zero()) {
                        return Some(join3("the interval of `", name, "` must be positive"));
                    }
                }
            },
        }
        i = i + 1;
    }
    None
}

fn does_read_plain(clause: &WhenClause) -> (r: bool)
    ensures
        r == is_plain(clause.deep_view()),
{
    if clause.branches.len() != 1 {
        return false;
    }
    let ghost shape = clause.deep_view();
    assert(shape.branches[0] == clause.branches@[0].deep_view());
    let actions = &clause.branches[0].actions;
    let ghost all = actions.deep_view();
    let mut i: usize = 0;
    while i < actions.len()
        invariant
            i <= actions.len(),
            all == actions.deep_view(),
            shape == clause.deep_view(),
            shape.branches.len() == 1,
            shape.branches[0].actions == all,
            forall|k: int| 0 <= k < i ==> (#[trigger] all[k] is Assign),
        decreases actions.len() - i,
    {
        assert(all[i as int] == actions@[i as int].deep_view());
        if !matches!(actions[i], WhenAction::Assign(..)) {
            assert(!(shape.branches[0].actions[i as int] is Assign));
            return false;
        }
        i = i + 1;
    }
    true
}

/// What reading out is done into, as it is held.
struct ReadOut<C> {
    clocks: C,
    grouped: Table<usize>,
    kept: Vec<WhenClause>,
    equations: Vec<EquationItem>,
}

impl<C> ReadOut<C> {
    spec fn shape(self) -> ReadOutV<C> {
        ReadOutV {
            clocks: self.clocks,
            grouped: self.grouped.deep_view(),
            kept: self.kept.deep_view(),
            equations: self.equations.deep_view(),
        }
    }
}

fn read_assignments<C>(out: &mut ReadOut<C>, actions: &Vec<WhenAction>, clock: usize)
    ensures
        final(out).shape() == assignments_read(
            old(out).shape(),
            actions.deep_view(),
            clock,
            actions@.len(),
        ),
{
    let ghost was = out.shape();
    let ghost all = actions.deep_view();
    let mut i: usize = 0;
    while i < actions.len()
        invariant
            i <= actions.len(),
            all == actions.deep_view(),
            out.shape() == assignments_read(was, all, clock, i as nat),
        decreases actions.len() - i,
    {
        let ghost before = out.shape();
        assert(all[i as int] == actions@[i as int].deep_view());
        if let WhenAction::Assign(target, value) = &actions[i] {
            out.grouped.put(target.clone(), clock);
            let one = EquationItem {
                lhs: make::name(target.clone()),
                rhs: value.clone(),
                origin: String::new(),
            };
            assert(one.origin@ =~= Seq::empty());
            let ghost more = one.deep_view();
            out.equations.push(one);
            assert(out.equations.deep_view() =~= before.equations.push(more));
        }
        i = i + 1;
    }
}

proof fn lemma_clauses_read_stops<C>(
    h: ClockworkV<C>,
    start: ReadOutV<C>,
    clauses: Seq<WhenClauseV>,
    known: Worths,
    n: nat,
    all: nat,
)
    requires
        n <= all <= clauses.len(),
        clauses_read(h, start, clauses, known, n) is Err,
    ensures
        clauses_read(h, start, clauses, known, all) == clauses_read(h, start, clauses, known, n),
    decreases all,
{
    if n < all {
        lemma_clauses_read_stops(h, start, clauses, known, n, (all - 1) as nat);
    }
}


fn read_clauses<
    C,
    A1: Fn(C, &Expr, &Table<Number>) -> Result<(C, Option<usize>), String>,
    A2: Fn(C, &str, usize) -> C,
    A3: Fn(&C, &str) -> Option<usize>,
    A4: Fn(C, &Expr, &Table<usize>, &Table<Number>, Vec<usize>) -> Result<(C, Vec<usize>), String>,
    A5: Fn(C, &Vec<usize>, &str) -> Result<(C, Option<usize>), String>,
    A6: Fn(&C, usize) -> Ticking,
    A7: Fn(&C, usize, usize) -> bool,
    A8: Fn(&C, &str, usize, usize) -> String,
    A9: Fn(&C, &Table<usize>, Option<usize>, &Expr) -> Expr,
    B1: Fn(&C, usize, &Vec<(String, Expr)>, &Expr) -> Vec<(String, Expr)>,
    B2: Fn(&C, usize) -> Expr,
    B3: Fn(&Vec<(usize, Vec<(String, Expr)>)>) -> Result<Vec<usize>, String>,
    B4: Fn(Vec<(String, Expr)>) -> Result<Vec<WhenAction>, String>,
    B5: Fn(&Expr, &Table<usize>) -> Option<String>,
    B6: Fn(&EquationItem) -> Option<(String, bool)>,
    B7: Fn(&Expr) -> Vec<String>,
    B8: Fn(&Expr, &str) -> Expr,
    B9: Fn(&str, &Expr) -> Expr,
    D1: Fn(usize) -> String,
    D2: Fn(usize) -> String,
    D3: Fn(&C) -> (Option<usize>, usize, Option<Number>),
>(
    h: &Clockwork<C, A1, A2, A3, A4, A5, A6, A7, A8, A9, B1, B2, B3, B4, B5, B6, B7, B8, B9, D1, D2, D3>,
    clocks: C,
    equations: Vec<EquationItem>,
    clauses: Vec<WhenClause>,
    known: &Table<Number>,
) -> (r: Result<ReadOut<C>, String>)
    requires
        runs_true(*h),
    ensures
        match clauses_read(
            clockwork_of(*h),
            ReadOutV {
                clocks,
                grouped: Map::empty(),
                kept: Seq::empty(),
                equations: equations.deep_view(),
            },
            clauses.deep_view(),
            known.deep_view(),
            clauses@.len(),
        ) {
            Err(trouble) => r matches Err(why) && why@ == trouble,
            Ok(made) => r matches Ok(out) && out.shape() == made,
        },
{
    let ghost hv = clockwork_of(*h);
    let ghost all = clauses.deep_view();
    let ghost kv = known.deep_view();
    let ghost start = ReadOutV {
        clocks,
        grouped: Map::<Seq<char>, usize>::empty(),
        kept: Seq::<WhenClauseV>::empty(),
        equations: equations.deep_view(),
    };
    let mut out = ReadOut { clocks, grouped: Table::new(), kept: Vec::new(), equations };
    assert(out.kept.deep_view() =~= Seq::empty());
    let mut left = clauses;
    let total: usize = left.len();
    let mut i: usize = 0;
    assert(left.deep_view() =~= all.skip(0));
    while left.len() > 0
        invariant
            runs_true(*h),
            hv == clockwork_of(*h),
            all == clauses.deep_view(),
            kv == known.deep_view(),
            start == (ReadOutV {
                clocks,
                grouped: Map::<Seq<char>, usize>::empty(),
                kept: Seq::<WhenClauseV>::empty(),
                equations: equations.deep_view(),
            }),
            total == clauses@.len(),
            all.len() == total,
            i + left@.len() == total,
            left.deep_view() == all.skip(i as int),
            clauses_read(hv, start, all, kv, i as nat) == Ok::<ReadOutV<C>, Seq<char>>(
                out.shape(),
            ),
        decreases left@.len(),
    {
        let ghost held = left.deep_view();
        let ghost raw = left@;
        let clause = left.remove(0);
        assert(clause.deep_view() == held[0]);
        assert(left@ =~= raw.drop_first());
        assert(left.deep_view() =~= held.drop_first());
        assert(held.drop_first() =~= all.skip(i + 1));
        assert(held[0] == all[i as int]);
        let ghost before = out.shape();
        let ghost shape = clause.deep_view();
        proof {
            if clauses_read(hv, start, all, kv, (i + 1) as nat) is Err {
                lemma_clauses_read_stops(hv, start, all, kv, (i + 1) as nat, all.len());
            }
        }
        if !does_read_plain(&clause) {
            out.kept.push(clause);
            assert(out.kept.deep_view() =~= before.kept.push(shape));
        } else {
            assert(shape.branches[0] == clause.branches@[0].deep_view());
            let ReadOut { clocks: was, grouped, mut kept, equations: so_far } = out;
            match h.do_read(was, &clause.branches[0].condition, known) {
                Err(why) => return Err(why),
                Ok((now, None)) => {
                    kept.push(clause);
                    assert(kept.deep_view() =~= before.kept.push(shape));
                    out = ReadOut { clocks: now, grouped, kept, equations: so_far };
                },
                Ok((now, Some(clock))) => {
                    out = ReadOut { clocks: now, grouped, kept, equations: so_far };
                    read_assignments(&mut out, &clause.branches[0].actions, clock);
                },
            }
        }
        i = i + 1;
    }
    Ok(out)
}

/// What spreading is done over, as it is held.
struct Ground<'g> {
    equations: &'g Vec<EquationItem>,
    varying: &'g Vec<String>,
    known: &'g Table<Number>,
    grouped: &'g Table<usize>,
}

impl<'g> Ground<'g> {
    spec fn shape(self) -> GroundV {
        GroundV {
            equations: self.equations.deep_view(),
            varying: texts(self.varying@),
            known: self.known.deep_view(),
            grouped: self.grouped.deep_view(),
        }
    }
}

/// How far the clocks have spread, as it is held.
struct Spread<C> {
    clocks: C,
    clock_of: Table<usize>,
    settled: bool,
}

impl<C> Spread<C> {
    spec fn shape(self) -> SpreadV<C> {
        SpreadV {
            clocks: self.clocks,
            clock_of: self.clock_of.deep_view(),
            settled: self.settled,
        }
    }
}

spec fn spread_told<C>(r: Result<Spread<C>, String>) -> Result<SpreadV<C>, Seq<char>> {
    match r {
        Ok(made) => Ok(made.shape()),
        Err(why) => Err(why@),
    }
}

proof fn lemma_handed_on_stops<C>(
    h: ClockworkV<C>,
    g: GroundV,
    start: SpreadV<C>,
    names: Seq<Seq<char>>,
    clock: usize,
    n: nat,
    all: nat,
)
    requires
        n <= all <= names.len(),
        handed_on(h, g, start, names, clock, n) is Err,
    ensures
        handed_on(h, g, start, names, clock, all) == handed_on(h, g, start, names, clock, n),
    decreases all,
{
    if n < all {
        lemma_handed_on_stops(h, g, start, names, clock, n, (all - 1) as nat);
    }
}


fn hand_on<
    C,
    A1: Fn(C, &Expr, &Table<Number>) -> Result<(C, Option<usize>), String>,
    A2: Fn(C, &str, usize) -> C,
    A3: Fn(&C, &str) -> Option<usize>,
    A4: Fn(C, &Expr, &Table<usize>, &Table<Number>, Vec<usize>) -> Result<(C, Vec<usize>), String>,
    A5: Fn(C, &Vec<usize>, &str) -> Result<(C, Option<usize>), String>,
    A6: Fn(&C, usize) -> Ticking,
    A7: Fn(&C, usize, usize) -> bool,
    A8: Fn(&C, &str, usize, usize) -> String,
    A9: Fn(&C, &Table<usize>, Option<usize>, &Expr) -> Expr,
    B1: Fn(&C, usize, &Vec<(String, Expr)>, &Expr) -> Vec<(String, Expr)>,
    B2: Fn(&C, usize) -> Expr,
    B3: Fn(&Vec<(usize, Vec<(String, Expr)>)>) -> Result<Vec<usize>, String>,
    B4: Fn(Vec<(String, Expr)>) -> Result<Vec<WhenAction>, String>,
    B5: Fn(&Expr, &Table<usize>) -> Option<String>,
    B6: Fn(&EquationItem) -> Option<(String, bool)>,
    B7: Fn(&Expr) -> Vec<String>,
    B8: Fn(&Expr, &str) -> Expr,
    B9: Fn(&str, &Expr) -> Expr,
    D1: Fn(usize) -> String,
    D2: Fn(usize) -> String,
    D3: Fn(&C) -> (Option<usize>, usize, Option<Number>),
>(
    h: &Clockwork<C, A1, A2, A3, A4, A5, A6, A7, A8, A9, B1, B2, B3, B4, B5, B6, B7, B8, B9, D1, D2, D3>,
    g: &Ground,
    start: Spread<C>,
    names: &Vec<String>,
    clock: usize,
) -> (r: Result<Spread<C>, String>)
    requires
        runs_true(*h),
    ensures
        spread_told(r) == handed_on(
            clockwork_of(*h),
            g.shape(),
            start.shape(),
            texts(names@),
            clock,
            names@.len(),
        ),
{
    let ghost hv = clockwork_of(*h);
    let ghost gv = g.shape();
    let ghost all = texts(names@);
    let ghost first = start.shape();
    let mut now = start;
    let mut i: usize = 0;
    while i < names.len()
        invariant
            i <= names.len(),
            runs_true(*h),
            hv == clockwork_of(*h),
            gv == g.shape(),
            all == texts(names@),
            first == start.shape(),
            handed_on(hv, gv, first, all, clock, i as nat) == Ok::<SpreadV<C>, Seq<char>>(
                now.shape(),
            ),
        decreases names.len() - i,
    {
        let name = names[i].as_str();
        assert(all[i as int] == name@);
        if holds(g.varying, name) && !left_the_clocked_world(name, g.equations) {
            let found: Option<usize> = match now.clock_of.get(name) {
                Some(already) => Some(*already),
                None => None,
            };
            match found {
                None => {
                    now.clock_of.put(names[i].clone(), clock);
                    now.settled = false;
                },
                Some(already) => {
                    if !h.do_agree(&now.clocks, already, clock) {
                        proof {
                            lemma_handed_on_stops(
                                hv,
                                gv,
                                first,
                                all,
                                clock,
                                (i + 1) as nat,
                                all.len(),
                            );
                        }
                        return Err(h.do_clash(&now.clocks, name, already, clock));
                    }
                },
            }
        }
        i = i + 1;
    }
    Ok(now)
}

fn find_any_waiting<
    C,
    A1: Fn(C, &Expr, &Table<Number>) -> Result<(C, Option<usize>), String>,
    A2: Fn(C, &str, usize) -> C,
    A3: Fn(&C, &str) -> Option<usize>,
    A4: Fn(C, &Expr, &Table<usize>, &Table<Number>, Vec<usize>) -> Result<(C, Vec<usize>), String>,
    A5: Fn(C, &Vec<usize>, &str) -> Result<(C, Option<usize>), String>,
    A6: Fn(&C, usize) -> Ticking,
    A7: Fn(&C, usize, usize) -> bool,
    A8: Fn(&C, &str, usize, usize) -> String,
    A9: Fn(&C, &Table<usize>, Option<usize>, &Expr) -> Expr,
    B1: Fn(&C, usize, &Vec<(String, Expr)>, &Expr) -> Vec<(String, Expr)>,
    B2: Fn(&C, usize) -> Expr,
    B3: Fn(&Vec<(usize, Vec<(String, Expr)>)>) -> Result<Vec<usize>, String>,
    B4: Fn(Vec<(String, Expr)>) -> Result<Vec<WhenAction>, String>,
    B5: Fn(&Expr, &Table<usize>) -> Option<String>,
    B6: Fn(&EquationItem) -> Option<(String, bool)>,
    B7: Fn(&Expr) -> Vec<String>,
    B8: Fn(&Expr, &str) -> Expr,
    B9: Fn(&str, &Expr) -> Expr,
    D1: Fn(usize) -> String,
    D2: Fn(usize) -> String,
    D3: Fn(&C) -> (Option<usize>, usize, Option<Number>),
>(
    h: &Clockwork<C, A1, A2, A3, A4, A5, A6, A7, A8, A9, B1, B2, B3, B4, B5, B6, B7, B8, B9, D1, D2, D3>,
    clocks: &C,
    found: &Vec<usize>,
) -> (r: bool)
    requires
        runs_true(*h),
    ensures
        r == any_waiting(clockwork_of(*h), *clocks, found@),
{
    let ghost hv = clockwork_of(*h);
    let mut i: usize = 0;
    while i < found.len()
        invariant
            i <= found.len(),
            runs_true(*h),
            hv == clockwork_of(*h),
            forall|k: int|
                0 <= k < i ==> !((hv.ticking)(*clocks, #[trigger] found@[k]).beat is Waiting),
        decreases found.len() - i,
    {
        let t = h.do_ticking(clocks, found[i]);
        if matches!(t.beat, Beat::Waiting) {
            assert((hv.ticking)(*clocks, found@[i as int]).beat is Waiting);
            return true;
        }
        i = i + 1;
    }
    false
}

fn go_back<
    C,
    A1: Fn(C, &Expr, &Table<Number>) -> Result<(C, Option<usize>), String>,
    A2: Fn(C, &str, usize) -> C,
    A3: Fn(&C, &str) -> Option<usize>,
    A4: Fn(C, &Expr, &Table<usize>, &Table<Number>, Vec<usize>) -> Result<(C, Vec<usize>), String>,
    A5: Fn(C, &Vec<usize>, &str) -> Result<(C, Option<usize>), String>,
    A6: Fn(&C, usize) -> Ticking,
    A7: Fn(&C, usize, usize) -> bool,
    A8: Fn(&C, &str, usize, usize) -> String,
    A9: Fn(&C, &Table<usize>, Option<usize>, &Expr) -> Expr,
    B1: Fn(&C, usize, &Vec<(String, Expr)>, &Expr) -> Vec<(String, Expr)>,
    B2: Fn(&C, usize) -> Expr,
    B3: Fn(&Vec<(usize, Vec<(String, Expr)>)>) -> Result<Vec<usize>, String>,
    B4: Fn(Vec<(String, Expr)>) -> Result<Vec<WhenAction>, String>,
    B5: Fn(&Expr, &Table<usize>) -> Option<String>,
    B6: Fn(&EquationItem) -> Option<(String, bool)>,
    B7: Fn(&Expr) -> Vec<String>,
    B8: Fn(&Expr, &str) -> Expr,
    B9: Fn(&str, &Expr) -> Expr,
    D1: Fn(usize) -> String,
    D2: Fn(usize) -> String,
    D3: Fn(&C) -> (Option<usize>, usize, Option<Number>),
>(
    h: &Clockwork<C, A1, A2, A3, A4, A5, A6, A7, A8, A9, B1, B2, B3, B4, B5, B6, B7, B8, B9, D1, D2, D3>,
    g: &Ground,
    before: Spread<C>,
    equation: &EquationItem,
    target: &str,
) -> (r: Result<Spread<C>, String>)
    requires
        runs_true(*h),
        before.clock_of.deep_view().contains_key(target@),
    ensures
        spread_told(r) == spread_back(
            clockwork_of(*h),
            g.shape(),
            before.shape(),
            equation.deep_view(),
            target@,
        ),
{
    let Spread { clocks, clock_of, settled } = before;
    let clock: usize = match clock_of.get(target) {
        Some(clock) => *clock,
        None => 0,
    };
    let mut start: Vec<usize> = Vec::new();
    start.push(clock);
    assert(start@ =~= seq![clock]);
    let mut names: Vec<String> = Vec::new();
    on_the_same_clock(&equation.rhs, &mut names);
    assert(texts(names@) =~= on_one_clock(equation.rhs.deep_view()));
    match h.do_touched(clocks, &equation.rhs, &clock_of, g.known, start) {
        Err(why) => Err(why),
        Ok((clocks, found)) => {
            if find_any_waiting(h, &clocks, &found) {
                match h.do_meet(clocks, &found, target) {
                    Err(why) => Err(why),
                    Ok((clocks, met)) => {
                        let so_far = Spread {
                            clocks,
                            clock_of,
                            settled: settled && met.is_none(),
                        };
                        hand_on(h, g, so_far, &names, clock)
                    },
                }
            } else {
                hand_on(h, g, Spread { clocks, clock_of, settled }, &names, clock)
            }
        },
    }
}

fn go_on<
    C,
    A1: Fn(C, &Expr, &Table<Number>) -> Result<(C, Option<usize>), String>,
    A2: Fn(C, &str, usize) -> C,
    A3: Fn(&C, &str) -> Option<usize>,
    A4: Fn(C, &Expr, &Table<usize>, &Table<Number>, Vec<usize>) -> Result<(C, Vec<usize>), String>,
    A5: Fn(C, &Vec<usize>, &str) -> Result<(C, Option<usize>), String>,
    A6: Fn(&C, usize) -> Ticking,
    A7: Fn(&C, usize, usize) -> bool,
    A8: Fn(&C, &str, usize, usize) -> String,
    A9: Fn(&C, &Table<usize>, Option<usize>, &Expr) -> Expr,
    B1: Fn(&C, usize, &Vec<(String, Expr)>, &Expr) -> Vec<(String, Expr)>,
    B2: Fn(&C, usize) -> Expr,
    B3: Fn(&Vec<(usize, Vec<(String, Expr)>)>) -> Result<Vec<usize>, String>,
    B4: Fn(Vec<(String, Expr)>) -> Result<Vec<WhenAction>, String>,
    B5: Fn(&Expr, &Table<usize>) -> Option<String>,
    B6: Fn(&EquationItem) -> Option<(String, bool)>,
    B7: Fn(&Expr) -> Vec<String>,
    B8: Fn(&Expr, &str) -> Expr,
    B9: Fn(&str, &Expr) -> Expr,
    D1: Fn(usize) -> String,
    D2: Fn(usize) -> String,
    D3: Fn(&C) -> (Option<usize>, usize, Option<Number>),
>(
    h: &Clockwork<C, A1, A2, A3, A4, A5, A6, A7, A8, A9, B1, B2, B3, B4, B5, B6, B7, B8, B9, D1, D2, D3>,
    g: &Ground,
    before: Spread<C>,
    equation: &EquationItem,
    target: String,
    is_rate: bool,
) -> (r: Result<Spread<C>, String>)
    requires
        runs_true(*h),
    ensures
        spread_told(r) == spread_on(
            clockwork_of(*h),
            g.shape(),
            before.shape(),
            equation.deep_view(),
            target@,
            is_rate,
        ),
{
    let Spread { clocks, mut clock_of, settled } = before;
    let mut start: Vec<usize> = Vec::new();
    if let Some(clock) = g.grouped.get(target.as_str()) {
        start.push(*clock);
        assert(start@ =~= seq![*clock]);
    }
    assert(start@ =~= if g.shape().grouped.contains_key(target@) {
        seq![g.shape().grouped[target@]]
    } else {
        Seq::empty()
    });
    match h.do_touched(clocks, &equation.rhs, &clock_of, g.known, start) {
        Err(why) => Err(why),
        Ok((clocks, found)) => match h.do_meet(clocks, &found, target.as_str()) {
            Err(why) => Err(why),
            Ok((clocks, None)) => Ok(Spread { clocks, clock_of, settled }),
            Ok((clocks, Some(clock))) => {
                let t = h.do_ticking(&clocks, clock);
                if is_rate && t.solver.is_none() {
                    Ok(Spread { clocks, clock_of, settled })
                } else {
                    clock_of.put(target, clock);
                    Ok(Spread { clocks, clock_of, settled: false })
                }
            },
        },
    }
}

proof fn lemma_spread_once_stops<C>(
    h: ClockworkV<C>,
    g: GroundV,
    start: SpreadV<C>,
    n: nat,
    all: nat,
)
    requires
        n <= all <= g.equations.len(),
        spread_once(h, g, start, n) is Err,
    ensures
        spread_once(h, g, start, all) == spread_once(h, g, start, n),
    decreases all,
{
    if n < all {
        lemma_spread_once_stops(h, g, start, n, (all - 1) as nat);
    }
}


fn look_once<
    C,
    A1: Fn(C, &Expr, &Table<Number>) -> Result<(C, Option<usize>), String>,
    A2: Fn(C, &str, usize) -> C,
    A3: Fn(&C, &str) -> Option<usize>,
    A4: Fn(C, &Expr, &Table<usize>, &Table<Number>, Vec<usize>) -> Result<(C, Vec<usize>), String>,
    A5: Fn(C, &Vec<usize>, &str) -> Result<(C, Option<usize>), String>,
    A6: Fn(&C, usize) -> Ticking,
    A7: Fn(&C, usize, usize) -> bool,
    A8: Fn(&C, &str, usize, usize) -> String,
    A9: Fn(&C, &Table<usize>, Option<usize>, &Expr) -> Expr,
    B1: Fn(&C, usize, &Vec<(String, Expr)>, &Expr) -> Vec<(String, Expr)>,
    B2: Fn(&C, usize) -> Expr,
    B3: Fn(&Vec<(usize, Vec<(String, Expr)>)>) -> Result<Vec<usize>, String>,
    B4: Fn(Vec<(String, Expr)>) -> Result<Vec<WhenAction>, String>,
    B5: Fn(&Expr, &Table<usize>) -> Option<String>,
    B6: Fn(&EquationItem) -> Option<(String, bool)>,
    B7: Fn(&Expr) -> Vec<String>,
    B8: Fn(&Expr, &str) -> Expr,
    B9: Fn(&str, &Expr) -> Expr,
    D1: Fn(usize) -> String,
    D2: Fn(usize) -> String,
    D3: Fn(&C) -> (Option<usize>, usize, Option<Number>),
>(h: &Clockwork<C, A1, A2, A3, A4, A5, A6, A7, A8, A9, B1, B2, B3, B4, B5, B6, B7, B8, B9, D1, D2, D3>, g: &Ground, start: Spread<C>) -> (r: Result<
    Spread<C>,
    String,
>)
    requires
        runs_true(*h),
    ensures
        spread_told(r) == spread_once(
            clockwork_of(*h),
            g.shape(),
            start.shape(),
            g.equations@.len(),
        ),
{
    let ghost hv = clockwork_of(*h);
    let ghost gv = g.shape();
    let ghost first = start.shape();
    let mut now = start;
    let mut i: usize = 0;
    while i < g.equations.len()
        invariant
            i <= g.equations.len(),
            runs_true(*h),
            hv == clockwork_of(*h),
            gv == g.shape(),
            first == start.shape(),
            spread_once(hv, gv, first, i as nat) == Ok::<SpreadV<C>, Seq<char>>(now.shape()),
        decreases g.equations.len() - i,
    {
        let equation = &g.equations[i];
        assert(gv.equations[i as int] == equation.deep_view());
        proof {
            if spread_once(hv, gv, first, (i + 1) as nat) is Err {
                lemma_spread_once_stops(hv, gv, first, (i + 1) as nat, gv.equations.len());
            }
        }
        if let Some((target, is_rate)) = h.do_assigned(equation) {
            let made = if now.clock_of.has(target.as_str()) {
                go_back(h, g, now, equation, target.as_str())
            } else {
                go_on(h, g, now, equation, target, is_rate)
            };
            match made {
                Ok(next) => {
                    now = next;
                },
                Err(why) => return Err(why),
            }
        }
        i = i + 1;
    }
    Ok(now)
}

fn spread_clocks<
    C,
    A1: Fn(C, &Expr, &Table<Number>) -> Result<(C, Option<usize>), String>,
    A2: Fn(C, &str, usize) -> C,
    A3: Fn(&C, &str) -> Option<usize>,
    A4: Fn(C, &Expr, &Table<usize>, &Table<Number>, Vec<usize>) -> Result<(C, Vec<usize>), String>,
    A5: Fn(C, &Vec<usize>, &str) -> Result<(C, Option<usize>), String>,
    A6: Fn(&C, usize) -> Ticking,
    A7: Fn(&C, usize, usize) -> bool,
    A8: Fn(&C, &str, usize, usize) -> String,
    A9: Fn(&C, &Table<usize>, Option<usize>, &Expr) -> Expr,
    B1: Fn(&C, usize, &Vec<(String, Expr)>, &Expr) -> Vec<(String, Expr)>,
    B2: Fn(&C, usize) -> Expr,
    B3: Fn(&Vec<(usize, Vec<(String, Expr)>)>) -> Result<Vec<usize>, String>,
    B4: Fn(Vec<(String, Expr)>) -> Result<Vec<WhenAction>, String>,
    B5: Fn(&Expr, &Table<usize>) -> Option<String>,
    B6: Fn(&EquationItem) -> Option<(String, bool)>,
    B7: Fn(&Expr) -> Vec<String>,
    B8: Fn(&Expr, &str) -> Expr,
    B9: Fn(&str, &Expr) -> Expr,
    D1: Fn(usize) -> String,
    D2: Fn(usize) -> String,
    D3: Fn(&C) -> (Option<usize>, usize, Option<Number>),
>(h: &Clockwork<C, A1, A2, A3, A4, A5, A6, A7, A8, A9, B1, B2, B3, B4, B5, B6, B7, B8, B9, D1, D2, D3>, g: &Ground, clocks: C, clock_of: Table<usize>) -> (r:
    Result<Spread<C>, String>)
    requires
        runs_true(*h),
    ensures
        match spread_out(
            clockwork_of(*h),
            g.shape(),
            clocks,
            clock_of.deep_view(),
            MAX_DEPTH as nat,
        ) {
            Err(trouble) => r matches Err(why) && why@ == trouble,
            Ok(made) => r matches Ok(out) && out.clocks == made.clocks && out.clock_of.deep_view()
                == made.clock_of,
        },
{
    let ghost hv = clockwork_of(*h);
    let ghost gv = g.shape();
    let ghost whole = spread_out(hv, gv, clocks, clock_of.deep_view(), MAX_DEPTH as nat);
    let mut now = Spread { clocks, clock_of, settled: true };
    let mut rounds: usize = MAX_DEPTH;
    while rounds > 0
        invariant
            runs_true(*h),
            hv == clockwork_of(*h),
            gv == g.shape(),
            whole == spread_out(hv, gv, clocks, clock_of.deep_view(), MAX_DEPTH as nat),
            whole == spread_out(
                hv,
                gv,
                now.clocks,
                now.clock_of.deep_view(),
                rounds as nat,
            ),
            now.settled,
        decreases rounds,
    {
        match look_once(h, g, now) {
            Ok(made) => {
                if made.settled {
                    return Ok(made);
                }
                let Spread { clocks: c, clock_of: t, settled: _ } = made;
                now = Spread { clocks: c, clock_of: t, settled: true };
            },
            Err(why) => return Err(why),
        }
        rounds = rounds - 1;
    }
    Ok(now)
}

fn find_waiting<
    C,
    A1: Fn(C, &Expr, &Table<Number>) -> Result<(C, Option<usize>), String>,
    A2: Fn(C, &str, usize) -> C,
    A3: Fn(&C, &str) -> Option<usize>,
    A4: Fn(C, &Expr, &Table<usize>, &Table<Number>, Vec<usize>) -> Result<(C, Vec<usize>), String>,
    A5: Fn(C, &Vec<usize>, &str) -> Result<(C, Option<usize>), String>,
    A6: Fn(&C, usize) -> Ticking,
    A7: Fn(&C, usize, usize) -> bool,
    A8: Fn(&C, &str, usize, usize) -> String,
    A9: Fn(&C, &Table<usize>, Option<usize>, &Expr) -> Expr,
    B1: Fn(&C, usize, &Vec<(String, Expr)>, &Expr) -> Vec<(String, Expr)>,
    B2: Fn(&C, usize) -> Expr,
    B3: Fn(&Vec<(usize, Vec<(String, Expr)>)>) -> Result<Vec<usize>, String>,
    B4: Fn(Vec<(String, Expr)>) -> Result<Vec<WhenAction>, String>,
    B5: Fn(&Expr, &Table<usize>) -> Option<String>,
    B6: Fn(&EquationItem) -> Option<(String, bool)>,
    B7: Fn(&Expr) -> Vec<String>,
    B8: Fn(&Expr, &str) -> Expr,
    B9: Fn(&str, &Expr) -> Expr,
    D1: Fn(usize) -> String,
    D2: Fn(usize) -> String,
    D3: Fn(&C) -> (Option<usize>, usize, Option<Number>),
>(
    h: &Clockwork<C, A1, A2, A3, A4, A5, A6, A7, A8, A9, B1, B2, B3, B4, B5, B6, B7, B8, B9, D1, D2, D3>,
    clocks: &C,
    declared: &Vec<String>,
) -> (r: Option<String>)
    requires
        runs_true(*h),
    ensures
        r.deep_view() == first_waiting(clockwork_of(*h), *clocks, texts(declared@), 0),
{
    let ghost hv = clockwork_of(*h);
    let ghost all = texts(declared@);
    let mut i: usize = 0;
    while i < declared.len()
        invariant
            i <= declared.len(),
            runs_true(*h),
            hv == clockwork_of(*h),
            all == texts(declared@),
            first_waiting(hv, *clocks, all, 0) == first_waiting(hv, *clocks, all, i as nat),
        decreases declared.len() - i,
    {
        assert(all[i as int] == declared@[i as int]@);
        if let Some(index) = h.do_by_name(clocks, declared[i].as_str()) {
            let t = h.do_ticking(clocks, index);
            if matches!(t.beat, Beat::Waiting) {
                return Some(declared[i].clone());
            }
        }
        i = i + 1;
    }
    None
}

fn does_stand(list: &Vec<Component>, name: &str) -> (r: bool)
    ensures
        r == is_component(list.deep_view(), name@),
{
    let ghost all = list.deep_view();
    let mut i: usize = 0;
    while i < list.len()
        invariant
            i <= list.len(),
            all == list.deep_view(),
            forall|k: int| 0 <= k < i ==> (#[trigger] all[k]).name != name@,
        decreases list.len() - i,
    {
        assert(all[i as int] == list@[i as int].deep_view());
        if same(list[i].name.as_str(), name) {
            assert(all[i as int].name == name@);
            return true;
        }
        i = i + 1;
    }
    false
}

fn join_names(
    names: &Vec<String>,
    equation: &EquationItem,
    g: &Ground,
    components: &Vec<Component>,
    clock_of: &Table<usize>,
    clock: usize,
    out: &mut Vec<(String, usize)>,
)
    ensures
        final(out).deep_view() == old(out).deep_view() + names_joined(
            texts(names@),
            equation.deep_view(),
            g.shape(),
            components.deep_view(),
            clock_of.deep_view(),
            clock,
            names@.len(),
        ),
{
    let ghost was = out.deep_view();
    let ghost all = texts(names@);
    let ghost e = equation.deep_view();
    let ghost gv = g.shape();
    let ghost cv = components.deep_view();
    let ghost tv = clock_of.deep_view();
    let mut i: usize = 0;
    assert(out.deep_view() =~= was + names_joined(all, e, gv, cv, tv, clock, 0));
    while i < names.len()
        invariant
            i <= names.len(),
            all == texts(names@),
            e == equation.deep_view(),
            gv == g.shape(),
            cv == components.deep_view(),
            tv == clock_of.deep_view(),
            out.deep_view() == was + names_joined(all, e, gv, cv, tv, clock, i as nat),
        decreases names.len() - i,
    {
        let ghost before = out.deep_view();
        let name = names[i].as_str();
        assert(all[i as int] == name@);
        if !clock_of.has(name) && does_stand(components, name) && (does_ask(name, g.equations) || (
        matches!(equation.rhs, Expr::Ref(_)) && !does_cross(name, g.equations))) && holds(
            g.varying,
            name,
        ) {
            out.push((names[i].clone(), clock));
            assert(out.deep_view() =~= before.push((name@, clock)));
        }
        assert(out.deep_view() =~= was + names_joined(all, e, gv, cv, tv, clock, (i + 1) as nat));
        i = i + 1;
    }
}

fn join_equations<
    C,
    A1: Fn(C, &Expr, &Table<Number>) -> Result<(C, Option<usize>), String>,
    A2: Fn(C, &str, usize) -> C,
    A3: Fn(&C, &str) -> Option<usize>,
    A4: Fn(C, &Expr, &Table<usize>, &Table<Number>, Vec<usize>) -> Result<(C, Vec<usize>), String>,
    A5: Fn(C, &Vec<usize>, &str) -> Result<(C, Option<usize>), String>,
    A6: Fn(&C, usize) -> Ticking,
    A7: Fn(&C, usize, usize) -> bool,
    A8: Fn(&C, &str, usize, usize) -> String,
    A9: Fn(&C, &Table<usize>, Option<usize>, &Expr) -> Expr,
    B1: Fn(&C, usize, &Vec<(String, Expr)>, &Expr) -> Vec<(String, Expr)>,
    B2: Fn(&C, usize) -> Expr,
    B3: Fn(&Vec<(usize, Vec<(String, Expr)>)>) -> Result<Vec<usize>, String>,
    B4: Fn(Vec<(String, Expr)>) -> Result<Vec<WhenAction>, String>,
    B5: Fn(&Expr, &Table<usize>) -> Option<String>,
    B6: Fn(&EquationItem) -> Option<(String, bool)>,
    B7: Fn(&Expr) -> Vec<String>,
    B8: Fn(&Expr, &str) -> Expr,
    B9: Fn(&str, &Expr) -> Expr,
    D1: Fn(usize) -> String,
    D2: Fn(usize) -> String,
    D3: Fn(&C) -> (Option<usize>, usize, Option<Number>),
>(
    h: &Clockwork<C, A1, A2, A3, A4, A5, A6, A7, A8, A9, B1, B2, B3, B4, B5, B6, B7, B8, B9, D1, D2, D3>,
    g: &Ground,
    components: &Vec<Component>,
    clock_of: &Table<usize>,
) -> (r: Vec<(String, usize)>)
    requires
        runs_true(*h),
    ensures
        r.deep_view() == equations_joined(
            clockwork_of(*h),
            g.shape(),
            components.deep_view(),
            clock_of.deep_view(),
            g.equations@.len(),
        ),
{
    let ghost hv = clockwork_of(*h);
    let ghost gv = g.shape();
    let ghost cv = components.deep_view();
    let ghost tv = clock_of.deep_view();
    let mut out: Vec<(String, usize)> = Vec::new();
    let mut i: usize = 0;
    assert(out.deep_view() =~= Seq::empty());
    while i < g.equations.len()
        invariant
            i <= g.equations.len(),
            runs_true(*h),
            hv == clockwork_of(*h),
            gv == g.shape(),
            cv == components.deep_view(),
            tv == clock_of.deep_view(),
            out.deep_view() == equations_joined(hv, gv, cv, tv, i as nat),
        decreases g.equations.len() - i,
    {
        let equation = &g.equations[i];
        assert(gv.equations[i as int] == equation.deep_view());
        if let Expr::Ref(target) = &equation.lhs {
            if let Some(clock) = clock_of.get(target.as_str()) {
                let names = h.do_within(&equation.rhs);
                join_names(&names, equation, g, components, clock_of, *clock, &mut out);
            }
        }
        i = i + 1;
    }
    out
}

fn join_clocks<
    C,
    A1: Fn(C, &Expr, &Table<Number>) -> Result<(C, Option<usize>), String>,
    A2: Fn(C, &str, usize) -> C,
    A3: Fn(&C, &str) -> Option<usize>,
    A4: Fn(C, &Expr, &Table<usize>, &Table<Number>, Vec<usize>) -> Result<(C, Vec<usize>), String>,
    A5: Fn(C, &Vec<usize>, &str) -> Result<(C, Option<usize>), String>,
    A6: Fn(&C, usize) -> Ticking,
    A7: Fn(&C, usize, usize) -> bool,
    A8: Fn(&C, &str, usize, usize) -> String,
    A9: Fn(&C, &Table<usize>, Option<usize>, &Expr) -> Expr,
    B1: Fn(&C, usize, &Vec<(String, Expr)>, &Expr) -> Vec<(String, Expr)>,
    B2: Fn(&C, usize) -> Expr,
    B3: Fn(&Vec<(usize, Vec<(String, Expr)>)>) -> Result<Vec<usize>, String>,
    B4: Fn(Vec<(String, Expr)>) -> Result<Vec<WhenAction>, String>,
    B5: Fn(&Expr, &Table<usize>) -> Option<String>,
    B6: Fn(&EquationItem) -> Option<(String, bool)>,
    B7: Fn(&Expr) -> Vec<String>,
    B8: Fn(&Expr, &str) -> Expr,
    B9: Fn(&str, &Expr) -> Expr,
    D1: Fn(usize) -> String,
    D2: Fn(usize) -> String,
    D3: Fn(&C) -> (Option<usize>, usize, Option<Number>),
>(
    h: &Clockwork<C, A1, A2, A3, A4, A5, A6, A7, A8, A9, B1, B2, B3, B4, B5, B6, B7, B8, B9, D1, D2, D3>,
    g: &Ground,
    components: &Vec<Component>,
    clock_of: &mut Table<usize>,
)
    requires
        runs_true(*h),
    ensures
        final(clock_of).deep_view() == joined_out(
            clockwork_of(*h),
            g.shape(),
            components.deep_view(),
            old(clock_of).deep_view(),
            MAX_DEPTH as nat,
        ),
{
    let ghost hv = clockwork_of(*h);
    let ghost gv = g.shape();
    let ghost cv = components.deep_view();
    let ghost whole = joined_out(hv, gv, cv, clock_of.deep_view(), MAX_DEPTH as nat);
    let mut rounds: usize = MAX_DEPTH;
    while rounds > 0
        invariant
            runs_true(*h),
            hv == clockwork_of(*h),
            gv == g.shape(),
            cv == components.deep_view(),
            whole == joined_out(hv, gv, cv, old(clock_of).deep_view(), MAX_DEPTH as nat),
            whole == joined_out(hv, gv, cv, clock_of.deep_view(), rounds as nat),
        decreases rounds,
    {
        let joined = join_equations(h, g, components, clock_of);
        let ghost list = joined.deep_view();
        assert(list.len() == joined@.len());
        if joined.len() == 0 {
            return;
        }
        let ghost before = clock_of.deep_view();
        let mut i: usize = 0;
        while i < joined.len()
            invariant
                i <= joined.len(),
                list == joined.deep_view(),
                clock_of.deep_view() == put_all(before, list, i as nat),
            decreases joined.len() - i,
        {
            assert(list[i as int] == joined@[i as int].deep_view());
            clock_of.put(joined[i].0.clone(), joined[i].1);
            i = i + 1;
        }
        rounds = rounds - 1;
    }
}

fn find_operator(e: &Expr) -> (r: Option<&'static str>)
    ensures
        match r {
            Some(asked) => clocked_operator(e.deep_view()) == Some(asked@),
            None => clocked_operator(e.deep_view()) is None,
        },
{
    if mentions_call(e, "previous") {
        Some("previous")
    } else if mentions_call(e, "firstTick") {
        Some("firstTick")
    } else if mentions_call(e, "subSample") {
        Some("subSample")
    } else if mentions_call(e, "superSample") {
        Some("superSample")
    } else if mentions_call(e, "noClock") {
        Some("noClock")
    } else {
        None
    }
}

fn check_unclocked(list: &Vec<EquationItem>, clock_of: &Table<usize>) -> (r: Result<(), String>)
    ensures
        match first_unclocked(list.deep_view(), clock_of.deep_view(), 0) {
            None => r is Ok,
            Some((target, asked)) => r matches Err(why) && why@ == "`"@ + target + "` uses `"@
                + asked + "`, but nothing says which clock it is on"@,
        },
{
    let ghost all = list.deep_view();
    let ghost tv = clock_of.deep_view();
    let mut i: usize = 0;
    while i < list.len()
        invariant
            i <= list.len(),
            all == list.deep_view(),
            tv == clock_of.deep_view(),
            first_unclocked(all, tv, 0) == first_unclocked(all, tv, i as nat),
        decreases list.len() - i,
    {
        assert(all[i as int] == list@[i as int].deep_view());
        if let Expr::Ref(target) = &list[i].lhs {
            if !clock_of.has(target.as_str()) {
                if let Some(asked) = find_operator(&list[i].rhs) {
                    return Err(
                        join5(
                            "`",
                            target.as_str(),
                            "` uses `",
                            asked,
                            "`, but nothing says which clock it is on",
                        ),
                    );
                }
            }
        }
        i = i + 1;
    }
    Ok(())
}

/// Names with values, under the clocks they belong to.
type Filed = Vec<(usize, Vec<(String, Expr)>)>;

fn file(list: &mut Filed, clock: usize, target: String, value: Expr)
    ensures
        final(list).deep_view() == filed(
            old(list).deep_view(),
            clock,
            (target@, value.deep_view()),
            0,
        ),
{
    let ghost all = list.deep_view();
    let ghost one = (target@, value.deep_view());
    let ghost whole = filed(all, clock, one, 0);
    let mut i: usize = 0;
    while i < list.len()
        invariant
            i <= list.len(),
            all == list.deep_view(),
            *list == *old(list),
            one == (target@, value.deep_view()),
            whole == filed(all, clock, one, 0),
            whole == filed(all, clock, one, i as nat),
        decreases list.len() - i,
    {
        assert(all[i as int] == list@[i as int].deep_view());
        if list[i].0 == clock {
            let (was_clock, mut held) = list.remove(i);
            let ghost before = held.deep_view();
            held.push((target, value));
            assert(held.deep_view() =~= before.push(one));
            list.insert(i, (was_clock, held));
            assert(list.deep_view() =~= all.update(i as int, (clock, before.push(one))));
            return;
        }
        i = i + 1;
    }
    let mut held: Vec<(String, Expr)> = Vec::new();
    held.push((target, value));
    assert(held.deep_view() =~= seq![one]);
    list.push((clock, held));
    assert(list.deep_view() =~= all.push((clock, seq![one])));
}

/// What stays of the equations and what is lifted, as it is held.
struct Lifted {
    kept: Vec<EquationItem>,
    lifted: Filed,
    rates: Filed,
}

impl Lifted {
    spec fn shape(self) -> LiftedV {
        LiftedV {
            kept: self.kept.deep_view(),
            lifted: self.lifted.deep_view(),
            rates: self.rates.deep_view(),
        }
    }
}

fn lift_out<
    C,
    A1: Fn(C, &Expr, &Table<Number>) -> Result<(C, Option<usize>), String>,
    A2: Fn(C, &str, usize) -> C,
    A3: Fn(&C, &str) -> Option<usize>,
    A4: Fn(C, &Expr, &Table<usize>, &Table<Number>, Vec<usize>) -> Result<(C, Vec<usize>), String>,
    A5: Fn(C, &Vec<usize>, &str) -> Result<(C, Option<usize>), String>,
    A6: Fn(&C, usize) -> Ticking,
    A7: Fn(&C, usize, usize) -> bool,
    A8: Fn(&C, &str, usize, usize) -> String,
    A9: Fn(&C, &Table<usize>, Option<usize>, &Expr) -> Expr,
    B1: Fn(&C, usize, &Vec<(String, Expr)>, &Expr) -> Vec<(String, Expr)>,
    B2: Fn(&C, usize) -> Expr,
    B3: Fn(&Vec<(usize, Vec<(String, Expr)>)>) -> Result<Vec<usize>, String>,
    B4: Fn(Vec<(String, Expr)>) -> Result<Vec<WhenAction>, String>,
    B5: Fn(&Expr, &Table<usize>) -> Option<String>,
    B6: Fn(&EquationItem) -> Option<(String, bool)>,
    B7: Fn(&Expr) -> Vec<String>,
    B8: Fn(&Expr, &str) -> Expr,
    B9: Fn(&str, &Expr) -> Expr,
    D1: Fn(usize) -> String,
    D2: Fn(usize) -> String,
    D3: Fn(&C) -> (Option<usize>, usize, Option<Number>),
>(
    h: &Clockwork<C, A1, A2, A3, A4, A5, A6, A7, A8, A9, B1, B2, B3, B4, B5, B6, B7, B8, B9, D1, D2, D3>,
    clocks: &C,
    clock_of: &Table<usize>,
    list: &Vec<EquationItem>,
) -> (r: Lifted)
    requires
        runs_true(*h),
    ensures
        r.shape() == lifted_out(
            clockwork_of(*h),
            *clocks,
            clock_of.deep_view(),
            list.deep_view(),
            list@.len(),
        ),
{
    let ghost hv = clockwork_of(*h);
    let ghost tv = clock_of.deep_view();
    let ghost all = list.deep_view();
    let mut out = Lifted { kept: Vec::new(), lifted: Vec::new(), rates: Vec::new() };
    assert(out.kept.deep_view() =~= Seq::empty());
    assert(out.lifted.deep_view() =~= Seq::empty());
    assert(out.rates.deep_view() =~= Seq::empty());
    let mut i: usize = 0;
    while i < list.len()
        invariant
            i <= list.len(),
            runs_true(*h),
            hv == clockwork_of(*h),
            tv == clock_of.deep_view(),
            all == list.deep_view(),
            out.shape() == lifted_out(hv, *clocks, tv, all, i as nat),
        decreases list.len() - i,
    {
        let ghost before = out.shape();
        let e = &list[i];
        assert(all[i as int] == e.deep_view());
        let found: Option<(String, bool, usize)> = match h.do_assigned(e) {
            Some((target, is_rate)) => match clock_of.get(target.as_str()) {
                Some(clock) => Some((target, is_rate, *clock)),
                None => None,
            },
            None => None,
        };
        match found {
            Some((target, is_rate, clock)) => {
                let value = h.do_at_tick(clocks, clock_of, Some(clock), &e.rhs);
                if is_rate {
                    file(&mut out.rates, clock, target, value);
                } else {
                    file(&mut out.lifted, clock, target, value);
                }
            },
            None => {
                out.kept.push(e.clone());
                assert(out.kept.deep_view() =~= before.kept.push(e.deep_view()));
            },
        }
        i = i + 1;
    }
    out
}

fn place_number(list: &mut Vec<usize>, clock: usize)
    ensures
        final(list)@ == number_placed(old(list)@, clock),
    decreases old(list)@.len(),
{
    if list.len() == 0 || list[list.len() - 1] <= clock {
        list.push(clock);
        return;
    }
    let ghost was = list@;
    match list.pop() {
        Some(last) => {
            assert(list@ =~= was.drop_last());
            place_number(list, clock);
            list.push(last);
        },
        None => {},
    }
}

fn order_clocks(list: &Filed) -> (r: Vec<usize>)
    ensures
        r@ == clocks_in_order(list.deep_view(), list@.len()),
{
    let ghost all = list.deep_view();
    let mut out: Vec<usize> = Vec::new();
    let mut i: usize = 0;
    assert(out@ =~= Seq::empty());
    while i < list.len()
        invariant
            i <= list.len(),
            all == list.deep_view(),
            out@ == clocks_in_order(all, i as nat),
        decreases list.len() - i,
    {
        assert(all[i as int] == list@[i as int].deep_view());
        place_number(&mut out, list[i].0);
        i = i + 1;
    }
    out
}

fn copied(list: &Vec<(String, Expr)>) -> (r: Vec<(String, Expr)>)
    ensures
        r.deep_view() == list.deep_view(),
{
    let ghost all = list.deep_view();
    let mut out: Vec<(String, Expr)> = Vec::new();
    let mut i: usize = 0;
    while i < list.len()
        invariant
            i <= list.len(),
            all == list.deep_view(),
            out.deep_view() == all.take(i as int),
        decreases list.len() - i,
    {
        assert(all[i as int] == list@[i as int].deep_view());
        let ghost before = out.deep_view();
        out.push((list[i].0.clone(), list[i].1.clone()));
        assert(out.deep_view() =~= before.push(all[i as int]));
        assert(before.push(all[i as int]) =~= all.take(i + 1));
        i = i + 1;
    }
    assert(all.take(i as int) =~= all);
    out
}

fn read_under(list: &Filed, clock: usize) -> (r: Vec<(String, Expr)>)
    ensures
        r.deep_view() == under_clock(list.deep_view(), clock, 0),
{
    let ghost all = list.deep_view();
    let mut i: usize = 0;
    while i < list.len()
        invariant
            i <= list.len(),
            all == list.deep_view(),
            under_clock(all, clock, 0) == under_clock(all, clock, i as nat),
        decreases list.len() - i,
    {
        assert(all[i as int] == list@[i as int].deep_view());
        if list[i].0 == clock {
            return copied(&list[i].1);
        }
        i = i + 1;
    }
    let none: Vec<(String, Expr)> = Vec::new();
    assert(none.deep_view() =~= Seq::empty());
    none
}

fn extend_under(list: &mut Filed, clock: usize, more: Vec<(String, Expr)>)
    ensures
        final(list).deep_view() == extended_under(
            old(list).deep_view(),
            clock,
            more.deep_view(),
            0,
        ),
{
    let ghost all = list.deep_view();
    let ghost mv = more.deep_view();
    let ghost whole = extended_under(all, clock, mv, 0);
    let mut rest = more;
    let mut i: usize = 0;
    while i < list.len()
        invariant
            i <= list.len(),
            all == list.deep_view(),
            *list == *old(list),
            mv == more.deep_view(),
            mv == rest.deep_view(),
            whole == extended_under(all, clock, mv, 0),
            whole == extended_under(all, clock, mv, i as nat),
        decreases list.len() - i,
    {
        assert(all[i as int] == list@[i as int].deep_view());
        if list[i].0 == clock {
            let (was_clock, mut held) = list.remove(i);
            let ghost before = held.deep_view();
            held.append(&mut rest);
            assert(held.deep_view() =~= before + mv);
            list.insert(i, (was_clock, held));
            assert(list.deep_view() =~= all.update(i as int, (clock, before + mv)));
            return;
        }
        i = i + 1;
    }
    list.push((clock, rest));
    assert(list.deep_view() =~= all.push((clock, mv)));
}

fn place_name(list: &mut Vec<(String, Expr)>, one: (String, Expr))
    ensures
        final(list).deep_view() == name_placed(old(list).deep_view(), one.deep_view()),
    decreases old(list)@.len(),
{
    let ghost was = list.deep_view();
    let ghost ov = one.deep_view();
    let n: usize = list.len();
    assert(was.len() == n);
    if n > 0 {
        assert(was.last() == list@[n - 1].deep_view());
        if comes_before(one.0.as_str(), list[n - 1].0.as_str()) {
            match list.pop() {
                Some(last) => {
                    let ghost lv = last.deep_view();
                    assert(list.deep_view() =~= was.drop_last());
                    place_name(list, one);
                    let ghost now = list.deep_view();
                    list.push(last);
                    assert(list.deep_view() =~= now.push(lv));
                },
                None => {},
            }
            return;
        }
    }
    list.push(one);
    assert(list.deep_view() =~= was.push(ov));
}

fn order_names(list: Vec<(String, Expr)>) -> (r: Vec<(String, Expr)>)
    ensures
        r.deep_view() == names_in_order(list.deep_view(), list@.len()),
{
    let ghost all = list.deep_view();
    let mut out: Vec<(String, Expr)> = Vec::new();
    let mut i: usize = 0;
    assert(out.deep_view() =~= Seq::empty());
    while i < list.len()
        invariant
            i <= list.len(),
            all == list.deep_view(),
            out.deep_view() == names_in_order(all, i as nat),
        decreases list.len() - i,
    {
        assert(all[i as int] == list@[i as int].deep_view());
        place_name(&mut out, (list[i].0.clone(), list[i].1.clone()));
        i = i + 1;
    }
    out
}

fn keep_steps(
    made: &Vec<(String, Expr)>,
    states: &Vec<(String, Expr)>,
    clock: usize,
    kept: &mut Vec<(String, usize, Number)>,
)
    ensures
        final(kept).deep_view() == old(kept).deep_view() + steps_kept(
            made.deep_view(),
            states.deep_view(),
            clock,
            made@.len(),
        ),
{
    let ghost was = kept.deep_view();
    let ghost all = made.deep_view();
    let ghost sv = states.deep_view();
    let mut i: usize = 0;
    assert(kept.deep_view() =~= was + steps_kept(all, sv, clock, 0));
    while i < made.len()
        invariant
            i <= made.len(),
            all == made.deep_view(),
            sv == states.deep_view(),
            kept.deep_view() == was + steps_kept(all, sv, clock, i as nat),
        decreases made.len() - i,
    {
        let ghost before = kept.deep_view();
        assert(all[i as int] == made@[i as int].deep_view());
        if !holds_given(states, made[i].0.as_str()) {
            kept.push((made[i].0.clone(), clock, zero()));
            assert(kept.deep_view() =~= before.push((all[i as int].0, clock, zero())));
        }
        assert(kept.deep_view() =~= was + steps_kept(all, sv, clock, (i + 1) as nat));
        i = i + 1;
    }
}

fn quote_names(list: &Vec<(String, Expr)>) -> (r: Vec<String>)
    ensures
        texts(r@) == in_quotes(list.deep_view()),
{
    let ghost all = list.deep_view();
    let mut out: Vec<String> = Vec::new();
    let mut i: usize = 0;
    while i < list.len()
        invariant
            i <= list.len(),
            all == list.deep_view(),
            texts(out@) == in_quotes(all).take(i as int),
        decreases list.len() - i,
    {
        assert(all[i as int] == list@[i as int].deep_view());
        let ghost before = texts(out@);
        out.push(join3("`", list[i].0.as_str(), "`"));
        assert(texts(out@) =~= before.push(in_quotes(all)[i as int]));
        assert(before.push(in_quotes(all)[i as int]) =~= in_quotes(all).take(i + 1));
        i = i + 1;
    }
    assert(in_quotes(all).take(i as int) =~= in_quotes(all));
    out
}

fn find_step_length<
    C,
    A1: Fn(C, &Expr, &Table<Number>) -> Result<(C, Option<usize>), String>,
    A2: Fn(C, &str, usize) -> C,
    A3: Fn(&C, &str) -> Option<usize>,
    A4: Fn(C, &Expr, &Table<usize>, &Table<Number>, Vec<usize>) -> Result<(C, Vec<usize>), String>,
    A5: Fn(C, &Vec<usize>, &str) -> Result<(C, Option<usize>), String>,
    A6: Fn(&C, usize) -> Ticking,
    A7: Fn(&C, usize, usize) -> bool,
    A8: Fn(&C, &str, usize, usize) -> String,
    A9: Fn(&C, &Table<usize>, Option<usize>, &Expr) -> Expr,
    B1: Fn(&C, usize, &Vec<(String, Expr)>, &Expr) -> Vec<(String, Expr)>,
    B2: Fn(&C, usize) -> Expr,
    B3: Fn(&Vec<(usize, Vec<(String, Expr)>)>) -> Result<Vec<usize>, String>,
    B4: Fn(Vec<(String, Expr)>) -> Result<Vec<WhenAction>, String>,
    B5: Fn(&Expr, &Table<usize>) -> Option<String>,
    B6: Fn(&EquationItem) -> Option<(String, bool)>,
    B7: Fn(&Expr) -> Vec<String>,
    B8: Fn(&Expr, &str) -> Expr,
    B9: Fn(&str, &Expr) -> Expr,
    D1: Fn(usize) -> String,
    D2: Fn(usize) -> String,
    D3: Fn(&C) -> (Option<usize>, usize, Option<Number>),
>(
    h: &Clockwork<C, A1, A2, A3, A4, A5, A6, A7, A8, A9, B1, B2, B3, B4, B5, B6, B7, B8, B9, D1, D2, D3>,
    clocks: &C,
    clock: usize,
    states: &Vec<(String, Expr)>,
) -> (r: Result<Expr, String>)
    requires
        runs_true(*h),
    ensures
        told(r) == step_length(clockwork_of(*h), *clocks, clock, states.deep_view()),
{
    let t = h.do_ticking(clocks, clock);
    match &t.solver {
        None => {
            let named = quote_names(states);
            let all = join_all(&named, ", ");
            Err(
                join4(
                    all.as_str(),
                    " changes by a derivative on a clock ticking ",
                    t.described.as_str(),
                    ", which was not given a way to step it - a clocked state asks for a solver method, as in `Clock(0.1, solverMethod = \"ExplicitEuler\")`",
                ),
            )
        },
        Some(solver) => match t.interval {
            Some(seconds) => Ok(make::number(seconds)),
            None => if t.one_stage {
                Ok(h.do_elapsed(clocks, clock))
            } else {
                Err(
                    join3(
                        "`",
                        solver.as_str(),
                        "` works out where the state will be partway through a step, and an event clock does not know how long its next step is - `ExplicitEuler` is what a clock ticking on a condition can be stepped with",
                    ),
                )
            },
        },
    }
}

proof fn lemma_rates_stepped_stops<C>(
    h: ClockworkV<C>,
    clocks: C,
    rates: ByClock,
    lifted: ByClock,
    order: Seq<usize>,
    n: nat,
    all: nat,
)
    requires
        n <= all <= order.len(),
        rates_stepped(h, clocks, rates, lifted, order, n) is Err,
    ensures
        rates_stepped(
            h,
            clocks,
            rates,
            lifted,
            order,
            all,
        ) == rates_stepped(h, clocks, rates, lifted, order, n),
    decreases all,
{
    if n < all {
        lemma_rates_stepped_stops(h, clocks, rates, lifted, order, n, (all - 1) as nat);
    }
}


fn step_rates<
    C,
    A1: Fn(C, &Expr, &Table<Number>) -> Result<(C, Option<usize>), String>,
    A2: Fn(C, &str, usize) -> C,
    A3: Fn(&C, &str) -> Option<usize>,
    A4: Fn(C, &Expr, &Table<usize>, &Table<Number>, Vec<usize>) -> Result<(C, Vec<usize>), String>,
    A5: Fn(C, &Vec<usize>, &str) -> Result<(C, Option<usize>), String>,
    A6: Fn(&C, usize) -> Ticking,
    A7: Fn(&C, usize, usize) -> bool,
    A8: Fn(&C, &str, usize, usize) -> String,
    A9: Fn(&C, &Table<usize>, Option<usize>, &Expr) -> Expr,
    B1: Fn(&C, usize, &Vec<(String, Expr)>, &Expr) -> Vec<(String, Expr)>,
    B2: Fn(&C, usize) -> Expr,
    B3: Fn(&Vec<(usize, Vec<(String, Expr)>)>) -> Result<Vec<usize>, String>,
    B4: Fn(Vec<(String, Expr)>) -> Result<Vec<WhenAction>, String>,
    B5: Fn(&Expr, &Table<usize>) -> Option<String>,
    B6: Fn(&EquationItem) -> Option<(String, bool)>,
    B7: Fn(&Expr) -> Vec<String>,
    B8: Fn(&Expr, &str) -> Expr,
    B9: Fn(&str, &Expr) -> Expr,
    D1: Fn(usize) -> String,
    D2: Fn(usize) -> String,
    D3: Fn(&C) -> (Option<usize>, usize, Option<Number>),
>(
    h: &Clockwork<C, A1, A2, A3, A4, A5, A6, A7, A8, A9, B1, B2, B3, B4, B5, B6, B7, B8, B9, D1, D2, D3>,
    clocks: &C,
    rates: &Filed,
    lifted: Filed,
) -> (r: Result<(Filed, Vec<(String, usize, Number)>), String>)
    requires
        runs_true(*h),
    ensures
        ({
            let order = clocks_in_order(rates.deep_view(), rates@.len());
            match rates_stepped(
                clockwork_of(*h),
                *clocks,
                rates.deep_view(),
                lifted.deep_view(),
                order,
                order.len(),
            ) {
                Err(trouble) => r matches Err(why) && why@ == trouble,
                Ok(made) => r matches Ok(out) && out.0.deep_view() == made.0 && out.1.deep_view()
                    == made.1,
            }
        }),
{
    let ghost hv = clockwork_of(*h);
    let ghost rv = rates.deep_view();
    let ghost lv = lifted.deep_view();
    let order = order_clocks(rates);
    let mut now = lifted;
    let mut kept: Vec<(String, usize, Number)> = Vec::new();
    let mut i: usize = 0;
    assert(kept.deep_view() =~= Seq::empty());
    while i < order.len()
        invariant
            i <= order.len(),
            runs_true(*h),
            hv == clockwork_of(*h),
            rv == rates.deep_view(),
            lv == lifted.deep_view(),
            order@ == clocks_in_order(rv, rates@.len()),
            rates_stepped(hv, *clocks, rv, lv, order@, i as nat) == Ok::<
                (ByClock, Kept),
                Seq<char>,
            >((now.deep_view(), kept.deep_view())),
        decreases order.len() - i,
    {
        let clock: usize = order[i];
        let held = read_under(rates, clock);
        assert(held.deep_view().len() == held@.len());
        let states = order_names(held);
        proof {
            if rates_stepped(hv, *clocks, rv, lv, order@, (i + 1) as nat) is Err {
                lemma_rates_stepped_stops(
                    hv,
                    *clocks,
                    rv,
                    lv,
                    order@,
                    (i + 1) as nat,
                    order@.len(),
                );
            }
        }
        match find_step_length(h, clocks, clock, &states) {
            Err(why) => return Err(why),
            Ok(by) => {
                let made = h.do_stride(clocks, clock, &states, &by);
                assert(made.deep_view().len() == made@.len());
                keep_steps(&made, &states, clock, &mut kept);
                extend_under(&mut now, clock, made);
            },
        }
        i = i + 1;
    }
    Ok((now, kept))
}

fn put_kept(clock_of: &mut Table<usize>, kept: &Vec<(String, usize, Number)>)
    ensures
        final(clock_of).deep_view() == kept_put(
            old(clock_of).deep_view(),
            kept.deep_view(),
            kept@.len(),
        ),
{
    let ghost was = clock_of.deep_view();
    let ghost all = kept.deep_view();
    let mut i: usize = 0;
    while i < kept.len()
        invariant
            i <= kept.len(),
            all == kept.deep_view(),
            clock_of.deep_view() == kept_put(was, all, i as nat),
        decreases kept.len() - i,
    {
        assert(all[i as int] == kept@[i as int].deep_view());
        clock_of.put(kept[i].0.clone(), kept[i].1);
        i = i + 1;
    }
}

fn does_name(e: &Expr, name: &str) -> (r: bool)
    ensures
        r == names_anywhere(e.deep_view(), name@),
    decreases e.deep_view(),
{
    let ghost shape = e.deep_view();
    if let Expr::Ref(held) = e {
        if same(held.as_str(), name) {
            return true;
        }
    }
    let below = e.children();
    let mut i: usize = 0;
    proof {
        lemma_kids_smaller(shape);
    }
    while i < below.len()
        invariant
            i <= below.len(),
            shape == e.deep_view(),
            shape != ExprV::Ref(name@),
            below.deep_view() == kids(shape),
            forall|k: int|
                0 <= k < kids(shape).len() ==> (#[trigger] decreases_to!(shape => kids(shape)[k])),
            forall|k: int| 0 <= k < i ==> !names_anywhere(#[trigger] kids(shape)[k], name@),
        decreases below.len() - i,
    {
        assert(below.deep_view()[i as int] == below@[i as int].deep_view());
        assert(decreases_to!(shape => kids(shape)[i as int]));
        if does_name(below[i], name) {
            assert(names_anywhere(kids(shape)[i as int], name@));
            return true;
        }
        i = i + 1;
    }
    false
}

fn do_any_name(list: &Vec<(String, Expr)>, name: &str) -> (r: bool)
    ensures
        r == any_names(list.deep_view(), name@),
{
    let ghost all = list.deep_view();
    let mut i: usize = 0;
    while i < list.len()
        invariant
            i <= list.len(),
            all == list.deep_view(),
            forall|k: int| 0 <= k < i ==> !names_anywhere((#[trigger] all[k]).1, name@),
        decreases list.len() - i,
    {
        assert(all[i as int] == list@[i as int].deep_view());
        if does_name(&list[i].1, name) {
            assert(names_anywhere(all[i as int].1, name@));
            return true;
        }
        i = i + 1;
    }
    false
}

fn do_any_mention(list: &Vec<(String, Expr)>, name: &str) -> (r: bool)
    ensures
        r == any_mentions(list.deep_view(), name@),
{
    let ghost all = list.deep_view();
    let mut i: usize = 0;
    while i < list.len()
        invariant
            i <= list.len(),
            all == list.deep_view(),
            forall|k: int| 0 <= k < i ==> !mentions((#[trigger] all[k]).1, name@),
        decreases list.len() - i,
    {
        assert(all[i as int] == list@[i as int].deep_view());
        if mentions_call(&list[i].1, name) {
            assert(mentions(all[i as int].1, name@));
            return true;
        }
        i = i + 1;
    }
    false
}

/// A partition and what is kept beside it, as it is held.
struct Partition {
    actions: Vec<(String, Expr)>,
    kept: Vec<(String, usize, Number)>,
}

impl Partition {
    spec fn shape(self) -> PartitionV {
        PartitionV { actions: self.actions.deep_view(), kept: self.kept.deep_view() }
    }
}

fn answer_first_ticks<
    C,
    A1: Fn(C, &Expr, &Table<Number>) -> Result<(C, Option<usize>), String>,
    A2: Fn(C, &str, usize) -> C,
    A3: Fn(&C, &str) -> Option<usize>,
    A4: Fn(C, &Expr, &Table<usize>, &Table<Number>, Vec<usize>) -> Result<(C, Vec<usize>), String>,
    A5: Fn(C, &Vec<usize>, &str) -> Result<(C, Option<usize>), String>,
    A6: Fn(&C, usize) -> Ticking,
    A7: Fn(&C, usize, usize) -> bool,
    A8: Fn(&C, &str, usize, usize) -> String,
    A9: Fn(&C, &Table<usize>, Option<usize>, &Expr) -> Expr,
    B1: Fn(&C, usize, &Vec<(String, Expr)>, &Expr) -> Vec<(String, Expr)>,
    B2: Fn(&C, usize) -> Expr,
    B3: Fn(&Vec<(usize, Vec<(String, Expr)>)>) -> Result<Vec<usize>, String>,
    B4: Fn(Vec<(String, Expr)>) -> Result<Vec<WhenAction>, String>,
    B5: Fn(&Expr, &Table<usize>) -> Option<String>,
    B6: Fn(&EquationItem) -> Option<(String, bool)>,
    B7: Fn(&Expr) -> Vec<String>,
    B8: Fn(&Expr, &str) -> Expr,
    B9: Fn(&str, &Expr) -> Expr,
    D1: Fn(usize) -> String,
    D2: Fn(usize) -> String,
    D3: Fn(&C) -> (Option<usize>, usize, Option<Number>),
>(
    h: &Clockwork<C, A1, A2, A3, A4, A5, A6, A7, A8, A9, B1, B2, B3, B4, B5, B6, B7, B8, B9, D1, D2, D3>,
    actions: Vec<(String, Expr)>,
    counter: &str,
) -> (r: Vec<(String, Expr)>)
    requires
        runs_true(*h),
    ensures
        r.deep_view() == Seq::new(
            actions.deep_view().len(),
            |i: int|
                (
                    actions.deep_view()[i].0,
                    (clockwork_of(*h).first_tick)(actions.deep_view()[i].1, counter@),
                ),
        ),
{
    let ghost hv = clockwork_of(*h);
    let ghost all = actions.deep_view();
    let ghost whole = Seq::new(
        all.len(),
        |i: int| (all[i].0, (hv.first_tick)(all[i].1, counter@)),
    );
    let mut out: Vec<(String, Expr)> = Vec::new();
    let mut i: usize = 0;
    while i < actions.len()
        invariant
            i <= actions.len(),
            runs_true(*h),
            hv == clockwork_of(*h),
            all == actions.deep_view(),
            whole == Seq::new(
                all.len(),
                |i: int| (all[i].0, (hv.first_tick)(all[i].1, counter@)),
            ),
            out.deep_view() == whole.take(i as int),
        decreases actions.len() - i,
    {
        assert(all[i as int] == actions@[i as int].deep_view());
        let ghost before = out.deep_view();
        out.push((actions[i].0.clone(), h.do_first_tick(&actions[i].1, counter)));
        assert(out.deep_view() =~= before.push(whole[i as int]));
        assert(before.push(whole[i as int]) =~= whole.take(i + 1));
        i = i + 1;
    }
    assert(whole.take(i as int) =~= whole);
    out
}

fn count_ticks<
    C,
    A1: Fn(C, &Expr, &Table<Number>) -> Result<(C, Option<usize>), String>,
    A2: Fn(C, &str, usize) -> C,
    A3: Fn(&C, &str) -> Option<usize>,
    A4: Fn(C, &Expr, &Table<usize>, &Table<Number>, Vec<usize>) -> Result<(C, Vec<usize>), String>,
    A5: Fn(C, &Vec<usize>, &str) -> Result<(C, Option<usize>), String>,
    A6: Fn(&C, usize) -> Ticking,
    A7: Fn(&C, usize, usize) -> bool,
    A8: Fn(&C, &str, usize, usize) -> String,
    A9: Fn(&C, &Table<usize>, Option<usize>, &Expr) -> Expr,
    B1: Fn(&C, usize, &Vec<(String, Expr)>, &Expr) -> Vec<(String, Expr)>,
    B2: Fn(&C, usize) -> Expr,
    B3: Fn(&Vec<(usize, Vec<(String, Expr)>)>) -> Result<Vec<usize>, String>,
    B4: Fn(Vec<(String, Expr)>) -> Result<Vec<WhenAction>, String>,
    B5: Fn(&Expr, &Table<usize>) -> Option<String>,
    B6: Fn(&EquationItem) -> Option<(String, bool)>,
    B7: Fn(&Expr) -> Vec<String>,
    B8: Fn(&Expr, &str) -> Expr,
    B9: Fn(&str, &Expr) -> Expr,
    D1: Fn(usize) -> String,
    D2: Fn(usize) -> String,
    D3: Fn(&C) -> (Option<usize>, usize, Option<Number>),
>(
    h: &Clockwork<C, A1, A2, A3, A4, A5, A6, A7, A8, A9, B1, B2, B3, B4, B5, B6, B7, B8, B9, D1, D2, D3>,
    clock: usize,
    actions: Vec<(String, Expr)>,
) -> (r: Partition)
    requires
        runs_true(*h),
    ensures
        r.shape() == counted_ticks(clockwork_of(*h), clock, actions.deep_view()),
{
    let ghost hv = clockwork_of(*h);
    let ghost all = actions.deep_view();
    let counter = h.do_counter(clock);
    let last = h.do_last(clock);
    let asks_when = do_any_name(&actions, last.as_str());
    let mut out = Partition { actions, kept: Vec::new() };
    assert(out.kept.deep_view() =~= Seq::empty());
    if asks_when || do_any_mention(&out.actions, "firstTick") {
        let mut next = answer_first_ticks(h, out.actions, counter.as_str());
        let ghost now = next.deep_view();
        assert(now =~= Seq::new(
            all.len(),
            |i: int| (all[i].0, (hv.first_tick)(all[i].1, counter@)),
        ));
        let by = make::number(one());
        let step = h.do_after(counter.as_str(), &by);
        let ghost sv = step.deep_view();
        next.push((counter.clone(), step));
        assert(next.deep_view() =~= now.push((counter@, sv)));
        let ghost cv = counter@;
        out.actions = next;
        out.kept.push((counter, clock, zero()));
        assert(out.kept.deep_view() =~= seq![(cv, clock, zero())]);
    }
    if asks_when {
        let ghost before = out.shape();
        let ghost lv = last@;
        out.actions.push((last.clone(), Expr::Time));
        assert(out.actions.deep_view() =~= before.actions.push((lv, ExprV::Time)));
        out.kept.push((last, clock, zero()));
        assert(out.kept.deep_view() =~= before.kept.push((lv, clock, zero())));
    }
    out
}

fn find_condition(t: &Ticking, actions: &Vec<(String, Expr)>) -> (r: Result<Expr, String>)
    ensures
        told(r) == fires_on(t.deep_view(), actions.deep_view()),
{
    match &t.beat {
        Beat::Every { first, interval } => Ok(
            make::call2("sample", make::number(*first), make::number(*interval)),
        ),
        Beat::When(condition) => Ok(condition.clone()),
        Beat::Waiting => {
            let ghost all = actions.deep_view();
            assert(all.len() == actions@.len());
            let target: &str = if actions.len() > 0 {
                assert(all[0] == actions@[0].deep_view());
                actions[0].0.as_str()
            } else {
                "it"
            };
            Err(
                join3(
                    "nothing in this model says how often `",
                    target,
                    "` ticks - a clock left for the compiler to work out has to meet a known one somewhere in an equation",
                ),
            )
        },
    }
}

fn hold_actions(actions: Vec<(String, Expr)>, skipped: &str) -> (r: Vec<(String, Expr)>)
    ensures
        r.deep_view() == Seq::new(
            actions.deep_view().len(),
            |i: int|
                (
                    actions.deep_view()[i].0,
                    unless_skipped(
                        skipped@,
                        actions.deep_view()[i].0,
                        actions.deep_view()[i].1,
                    ),
                ),
        ),
{
    let ghost all = actions.deep_view();
    let ghost whole = Seq::new(
        all.len(),
        |i: int| (all[i].0, unless_skipped(skipped@, all[i].0, all[i].1)),
    );
    let mut out: Vec<(String, Expr)> = Vec::new();
    let mut i: usize = 0;
    while i < actions.len()
        invariant
            i <= actions.len(),
            all == actions.deep_view(),
            whole == Seq::new(
                all.len(),
                |i: int| (all[i].0, unless_skipped(skipped@, all[i].0, all[i].1)),
            ),
            out.deep_view() == whole.take(i as int),
        decreases actions.len() - i,
    {
        assert(all[i as int] == actions@[i as int].deep_view());
        let target = &actions[i].0;
        let value = make::either(
            make::rel(RelOp::Lt, make::name(skipped.to_string()), make::number(half())),
            actions[i].1.clone(),
            make::call1("pre", make::name(target.clone())),
        );
        assert(value.deep_view() == unless_skipped(skipped@, all[i as int].0, all[i as int].1));
        let ghost before = out.deep_view();
        out.push((target.clone(), value));
        assert(out.deep_view() =~= before.push(whole[i as int]));
        assert(before.push(whole[i as int]) =~= whole.take(i + 1));
        i = i + 1;
    }
    assert(whole.take(i as int) =~= whole);
    out
}

fn count_skips<
    C,
    A1: Fn(C, &Expr, &Table<Number>) -> Result<(C, Option<usize>), String>,
    A2: Fn(C, &str, usize) -> C,
    A3: Fn(&C, &str) -> Option<usize>,
    A4: Fn(C, &Expr, &Table<usize>, &Table<Number>, Vec<usize>) -> Result<(C, Vec<usize>), String>,
    A5: Fn(C, &Vec<usize>, &str) -> Result<(C, Option<usize>), String>,
    A6: Fn(&C, usize) -> Ticking,
    A7: Fn(&C, usize, usize) -> bool,
    A8: Fn(&C, &str, usize, usize) -> String,
    A9: Fn(&C, &Table<usize>, Option<usize>, &Expr) -> Expr,
    B1: Fn(&C, usize, &Vec<(String, Expr)>, &Expr) -> Vec<(String, Expr)>,
    B2: Fn(&C, usize) -> Expr,
    B3: Fn(&Vec<(usize, Vec<(String, Expr)>)>) -> Result<Vec<usize>, String>,
    B4: Fn(Vec<(String, Expr)>) -> Result<Vec<WhenAction>, String>,
    B5: Fn(&Expr, &Table<usize>) -> Option<String>,
    B6: Fn(&EquationItem) -> Option<(String, bool)>,
    B7: Fn(&Expr) -> Vec<String>,
    B8: Fn(&Expr, &str) -> Expr,
    B9: Fn(&str, &Expr) -> Expr,
    D1: Fn(usize) -> String,
    D2: Fn(usize) -> String,
    D3: Fn(&C) -> (Option<usize>, usize, Option<Number>),
    W: Fn(Arith, Number, Number) -> Number,
    O: Fn(&str, &Vec<Number>) -> Option<Vec<Number>>,
    N: Fn(&str) -> String,
>(
    h: &Clockwork<C, A1, A2, A3, A4, A5, A6, A7, A8, A9, B1, B2, B3, B4, B5, B6, B7, B8, B9, D1, D2, D3>,
    sums: &Sums<W, O, N>,
    clock: usize,
    t: &Ticking,
    before: Partition,
) -> (r: Partition)
    requires
        runs_true(*h),
        is_steady(*sums),
    ensures
        r.shape() == skipping(
            clockwork_of(*h),
            sums_of(*sums),
            clock,
            t.deep_view(),
            before.shape(),
        ),
{
    let ghost hv = clockwork_of(*h);
    let ghost was = before.shape();
    if t.interval.is_some() || t.every_nth <= 1 {
        return before;
    }
    let number = decimal(clock as u64);
    let skipped = join2("$every", number.as_str());
    let ghost sk = skipped@;
    let by = make::number(one());
    let next = h.do_after(skipped.as_str(), &by);
    let ghost nv = next.deep_view();
    let many = from_count(t.every_nth);
    let Partition { actions, mut kept } = before;
    let mut out = hold_actions(actions, skipped.as_str());
    let ghost held = out.deep_view();
    assert(held =~= Seq::new(
        was.actions.len(),
        |i: int|
            (was.actions[i].0, unless_skipped(sk, was.actions[i].0, was.actions[i].1)),
    ));
    let due = make::rel(RelOp::Ge, next.clone(), make::number(many));
    let value = make::either(due, make::number(zero()), next);
    let ghost vv = value.deep_view();
    out.push((skipped.clone(), value));
    assert(out.deep_view() =~= held.push((sk, vv)));
    kept.push((skipped, clock, sums.step(Arith::Sub, many, one())));
    assert(kept.deep_view() =~= was.kept.push(
        (sk, clock, (sums_of(*sums).work)(Arith::Sub, many, one())),
    ));
    Partition { actions: out, kept }
}

fn make_partition<
    C,
    A1: Fn(C, &Expr, &Table<Number>) -> Result<(C, Option<usize>), String>,
    A2: Fn(C, &str, usize) -> C,
    A3: Fn(&C, &str) -> Option<usize>,
    A4: Fn(C, &Expr, &Table<usize>, &Table<Number>, Vec<usize>) -> Result<(C, Vec<usize>), String>,
    A5: Fn(C, &Vec<usize>, &str) -> Result<(C, Option<usize>), String>,
    A6: Fn(&C, usize) -> Ticking,
    A7: Fn(&C, usize, usize) -> bool,
    A8: Fn(&C, &str, usize, usize) -> String,
    A9: Fn(&C, &Table<usize>, Option<usize>, &Expr) -> Expr,
    B1: Fn(&C, usize, &Vec<(String, Expr)>, &Expr) -> Vec<(String, Expr)>,
    B2: Fn(&C, usize) -> Expr,
    B3: Fn(&Vec<(usize, Vec<(String, Expr)>)>) -> Result<Vec<usize>, String>,
    B4: Fn(Vec<(String, Expr)>) -> Result<Vec<WhenAction>, String>,
    B5: Fn(&Expr, &Table<usize>) -> Option<String>,
    B6: Fn(&EquationItem) -> Option<(String, bool)>,
    B7: Fn(&Expr) -> Vec<String>,
    B8: Fn(&Expr, &str) -> Expr,
    B9: Fn(&str, &Expr) -> Expr,
    D1: Fn(usize) -> String,
    D2: Fn(usize) -> String,
    D3: Fn(&C) -> (Option<usize>, usize, Option<Number>),
    W: Fn(Arith, Number, Number) -> Number,
    O: Fn(&str, &Vec<Number>) -> Option<Vec<Number>>,
    N: Fn(&str) -> String,
>(
    h: &Clockwork<C, A1, A2, A3, A4, A5, A6, A7, A8, A9, B1, B2, B3, B4, B5, B6, B7, B8, B9, D1, D2, D3>,
    sums: &Sums<W, O, N>,
    clocks: &C,
    clock_of: &Table<usize>,
    clock: usize,
    actions: Vec<(String, Expr)>,
) -> (r: Result<(WhenClause, Vec<(String, usize, Number)>), String>)
    requires
        runs_true(*h),
        is_steady(*sums),
    ensures
        match partition_made(
            clockwork_of(*h),
            sums_of(*sums),
            *clocks,
            clock_of.deep_view(),
            clock,
            actions.deep_view(),
        ) {
            Err(trouble) => r matches Err(why) && why@ == trouble,
            Ok(made) => r matches Ok(out) && out.0.deep_view() == made.0 && out.1.deep_view()
                == made.1,
        },
{
    let t = h.do_ticking(clocks, clock);
    let first = count_ticks(h, clock, actions);
    let condition = match find_condition(&t, &first.actions) {
        Ok(condition) => condition,
        Err(why) => return Err(why),
    };
    let whole = count_skips(h, sums, clock, &t, first);
    let Partition { actions, kept } = whole;
    match h.do_arrange(actions) {
        Err(why) => Err(why),
        Ok(actions) => match h.do_unheld(&condition, clock_of) {
            Some(name) => Err(
                join5(
                    "an event clock waits on something the run varies between ticks, and `",
                    name.as_str(),
                    "` is clocked - `hold(",
                    name.as_str(),
                    ")` is how a clocked value is read in continuous time",
                ),
            ),
            None => {
                let mut branches: Vec<WhenBranch> = Vec::new();
                let branch = WhenBranch { condition, actions };
                let ghost bv = branch.deep_view();
                branches.push(branch);
                assert(branches.deep_view() =~= seq![bv]);
                let clause = WhenClause { branches, origin: String::new() };
                assert(clause.origin@ =~= Seq::empty());
                Ok((clause, kept))
            },
        },
    }
}

proof fn lemma_partitions_made_stops<C>(
    h: ClockworkV<C>,
    v: SumsV,
    clocks: C,
    clock_of: ClockOf,
    lifted: ByClock,
    order: Seq<usize>,
    n: nat,
    all: nat,
)
    requires
        n <= all <= order.len(),
        partitions_made(h, v, clocks, clock_of, lifted, order, n) is Err,
    ensures
        partitions_made(
            h,
            v,
            clocks,
            clock_of,
            lifted,
            order,
            all,
        ) == partitions_made(h, v, clocks, clock_of, lifted, order, n),
    decreases all,
{
    if n < all {
        lemma_partitions_made_stops(h, v, clocks, clock_of, lifted, order, n, (all - 1) as nat);
    }
}


fn make_partitions<
    C,
    A1: Fn(C, &Expr, &Table<Number>) -> Result<(C, Option<usize>), String>,
    A2: Fn(C, &str, usize) -> C,
    A3: Fn(&C, &str) -> Option<usize>,
    A4: Fn(C, &Expr, &Table<usize>, &Table<Number>, Vec<usize>) -> Result<(C, Vec<usize>), String>,
    A5: Fn(C, &Vec<usize>, &str) -> Result<(C, Option<usize>), String>,
    A6: Fn(&C, usize) -> Ticking,
    A7: Fn(&C, usize, usize) -> bool,
    A8: Fn(&C, &str, usize, usize) -> String,
    A9: Fn(&C, &Table<usize>, Option<usize>, &Expr) -> Expr,
    B1: Fn(&C, usize, &Vec<(String, Expr)>, &Expr) -> Vec<(String, Expr)>,
    B2: Fn(&C, usize) -> Expr,
    B3: Fn(&Vec<(usize, Vec<(String, Expr)>)>) -> Result<Vec<usize>, String>,
    B4: Fn(Vec<(String, Expr)>) -> Result<Vec<WhenAction>, String>,
    B5: Fn(&Expr, &Table<usize>) -> Option<String>,
    B6: Fn(&EquationItem) -> Option<(String, bool)>,
    B7: Fn(&Expr) -> Vec<String>,
    B8: Fn(&Expr, &str) -> Expr,
    B9: Fn(&str, &Expr) -> Expr,
    D1: Fn(usize) -> String,
    D2: Fn(usize) -> String,
    D3: Fn(&C) -> (Option<usize>, usize, Option<Number>),
    W: Fn(Arith, Number, Number) -> Number,
    O: Fn(&str, &Vec<Number>) -> Option<Vec<Number>>,
    N: Fn(&str) -> String,
>(
    h: &Clockwork<C, A1, A2, A3, A4, A5, A6, A7, A8, A9, B1, B2, B3, B4, B5, B6, B7, B8, B9, D1, D2, D3>,
    sums: &Sums<W, O, N>,
    clocks: &C,
    clock_of: &Table<usize>,
    lifted: &Filed,
    order: &Vec<usize>,
    kept: &mut Vec<(String, usize, Number)>,
) -> (r: Result<Vec<WhenClause>, String>)
    requires
        runs_true(*h),
        is_steady(*sums),
    ensures
        match partitions_made(
            clockwork_of(*h),
            sums_of(*sums),
            *clocks,
            clock_of.deep_view(),
            lifted.deep_view(),
            order@,
            order@.len(),
        ) {
            Err(trouble) => r matches Err(why) && why@ == trouble,
            Ok(made) => r matches Ok(out) && out.deep_view() == made.0 && final(kept).deep_view()
                == old(kept).deep_view() + made.1,
        },
{
    let ghost hv = clockwork_of(*h);
    let ghost v = sums_of(*sums);
    let ghost tv = clock_of.deep_view();
    let ghost lv = lifted.deep_view();
    let ghost was = kept.deep_view();
    let ghost mut so_far: Kept = Seq::empty();
    let mut out: Vec<WhenClause> = Vec::new();
    let mut i: usize = 0;
    assert(out.deep_view() =~= Seq::empty());
    assert(kept.deep_view() =~= was + so_far);
    while i < order.len()
        invariant
            i <= order.len(),
            runs_true(*h),
            is_steady(*sums),
            hv == clockwork_of(*h),
            v == sums_of(*sums),
            tv == clock_of.deep_view(),
            lv == lifted.deep_view(),
            was == old(kept).deep_view(),
            kept.deep_view() == was + so_far,
            partitions_made(hv, v, *clocks, tv, lv, order@, i as nat) == Ok::<
                (Seq<WhenClauseV>, Kept),
                Seq<char>,
            >((out.deep_view(), so_far)),
        decreases order.len() - i,
    {
        let ghost before = out.deep_view();
        let actions = read_under(lifted, order[i]);
        proof {
            if partitions_made(hv, v, *clocks, tv, lv, order@, (i + 1) as nat) is Err {
                lemma_partitions_made_stops(
                    hv,
                    v,
                    *clocks,
                    tv,
                    lv,
                    order@,
                    (i + 1) as nat,
                    order@.len(),
                );
            }
        }
        match make_partition(h, sums, clocks, clock_of, order[i], actions) {
            Err(why) => return Err(why),
            Ok((clause, mut more)) => {
                let ghost cv = clause.deep_view();
                let ghost mv = more.deep_view();
                let ghost kv = kept.deep_view();
                out.push(clause);
                assert(out.deep_view() =~= before.push(cv));
                kept.append(&mut more);
                assert(kept.deep_view() =~= kv + mv);
                proof {
                    so_far = so_far + mv;
                }
                assert(kept.deep_view() =~= was + so_far);
            },
        }
        i = i + 1;
    }
    Ok(out)
}

fn add_kept(list: &mut Vec<Component>, kept: &Vec<(String, usize, Number)>)
    ensures
        final(list).deep_view() == old(list).deep_view() + Seq::new(
            kept.deep_view().len(),
            |i: int| kept_component(kept.deep_view()[i]),
        ),
{
    let ghost was = list.deep_view();
    let ghost all = kept.deep_view();
    let ghost whole = Seq::new(all.len(), |i: int| kept_component(all[i]));
    let mut i: usize = 0;
    assert(list.deep_view() =~= was + whole.take(0));
    while i < kept.len()
        invariant
            i <= kept.len(),
            all == kept.deep_view(),
            whole == Seq::new(all.len(), |i: int| kept_component(all[i])),
            list.deep_view() == was + whole.take(i as int),
        decreases kept.len() - i,
    {
        let ghost before = list.deep_view();
        assert(all[i as int] == kept@[i as int].deep_view());
        let mut one = blank_component();
        one.name = kept[i].0.clone();
        one.variability = Variability::Discrete;
        one.start = Some(make::number(kept[i].2));
        one.description = Some("clock bookkeeping".to_string());
        assert(one.deep_view() == kept_component(all[i as int]));
        list.push(one);
        assert(list.deep_view() =~= before.push(whole[i as int]));
        assert(list.deep_view() =~= was + whole.take(i + 1));
        i = i + 1;
    }
    assert(whole.take(i as int) =~= whole);
}

fn check_unheld<
    C,
    A1: Fn(C, &Expr, &Table<Number>) -> Result<(C, Option<usize>), String>,
    A2: Fn(C, &str, usize) -> C,
    A3: Fn(&C, &str) -> Option<usize>,
    A4: Fn(C, &Expr, &Table<usize>, &Table<Number>, Vec<usize>) -> Result<(C, Vec<usize>), String>,
    A5: Fn(C, &Vec<usize>, &str) -> Result<(C, Option<usize>), String>,
    A6: Fn(&C, usize) -> Ticking,
    A7: Fn(&C, usize, usize) -> bool,
    A8: Fn(&C, &str, usize, usize) -> String,
    A9: Fn(&C, &Table<usize>, Option<usize>, &Expr) -> Expr,
    B1: Fn(&C, usize, &Vec<(String, Expr)>, &Expr) -> Vec<(String, Expr)>,
    B2: Fn(&C, usize) -> Expr,
    B3: Fn(&Vec<(usize, Vec<(String, Expr)>)>) -> Result<Vec<usize>, String>,
    B4: Fn(Vec<(String, Expr)>) -> Result<Vec<WhenAction>, String>,
    B5: Fn(&Expr, &Table<usize>) -> Option<String>,
    B6: Fn(&EquationItem) -> Option<(String, bool)>,
    B7: Fn(&Expr) -> Vec<String>,
    B8: Fn(&Expr, &str) -> Expr,
    B9: Fn(&str, &Expr) -> Expr,
    D1: Fn(usize) -> String,
    D2: Fn(usize) -> String,
    D3: Fn(&C) -> (Option<usize>, usize, Option<Number>),
>(h: &Clockwork<C, A1, A2, A3, A4, A5, A6, A7, A8, A9, B1, B2, B3, B4, B5, B6, B7, B8, B9, D1, D2, D3>, list: &Vec<EquationItem>, clock_of: &Table<usize>) -> (r:
    Option<String>)
    requires
        runs_true(*h),
    ensures
        r.deep_view() == first_unheld(
            clockwork_of(*h),
            list.deep_view(),
            clock_of.deep_view(),
            0,
        ),
{
    let ghost hv = clockwork_of(*h);
    let ghost all = list.deep_view();
    let ghost tv = clock_of.deep_view();
    let mut i: usize = 0;
    while i < list.len()
        invariant
            i <= list.len(),
            runs_true(*h),
            hv == clockwork_of(*h),
            all == list.deep_view(),
            tv == clock_of.deep_view(),
            first_unheld(hv, all, tv, 0) == first_unheld(hv, all, tv, i as nat),
        decreases list.len() - i,
    {
        assert(all[i as int] == list@[i as int].deep_view());
        if let Some(name) = h.do_unheld(&list[i].lhs, clock_of) {
            return Some(name);
        }
        if let Some(name) = h.do_unheld(&list[i].rhs, clock_of) {
            return Some(name);
        }
        i = i + 1;
    }
    None
}

fn leave_declarations(list: Vec<Component>, clock_of: &Table<usize>) -> (r: Vec<Component>)
    ensures
        r.deep_view() == declarations_left(list.deep_view(), clock_of.deep_view(), list@.len()),
{
    let ghost all = list.deep_view();
    let ghost tv = clock_of.deep_view();
    let mut out: Vec<Component> = Vec::new();
    let mut i: usize = 0;
    assert(out.deep_view() =~= Seq::empty());
    while i < list.len()
        invariant
            i <= list.len(),
            all == list.deep_view(),
            tv == clock_of.deep_view(),
            out.deep_view() == declarations_left(all, tv, i as nat),
        decreases list.len() - i,
    {
        let ghost before = out.deep_view();
        assert(all[i as int] == list@[i as int].deep_view());
        if !same(list[i].of_type.as_str(), "Clock") {
            let mut one = list[i].clone();
            if clock_of.has(one.name.as_str()) {
                one.variability = Variability::Discrete;
                if one.start.is_none() {
                    one.start = Some(make::number(zero()));
                }
            }
            assert(one.deep_view() == held_between(all[i as int], tv));
            out.push(one);
            assert(out.deep_view() =~= before.push(held_between(all[i as int], tv)));
        }
        i = i + 1;
    }
    out
}

fn read_at_ticks<
    C,
    A1: Fn(C, &Expr, &Table<Number>) -> Result<(C, Option<usize>), String>,
    A2: Fn(C, &str, usize) -> C,
    A3: Fn(&C, &str) -> Option<usize>,
    A4: Fn(C, &Expr, &Table<usize>, &Table<Number>, Vec<usize>) -> Result<(C, Vec<usize>), String>,
    A5: Fn(C, &Vec<usize>, &str) -> Result<(C, Option<usize>), String>,
    A6: Fn(&C, usize) -> Ticking,
    A7: Fn(&C, usize, usize) -> bool,
    A8: Fn(&C, &str, usize, usize) -> String,
    A9: Fn(&C, &Table<usize>, Option<usize>, &Expr) -> Expr,
    B1: Fn(&C, usize, &Vec<(String, Expr)>, &Expr) -> Vec<(String, Expr)>,
    B2: Fn(&C, usize) -> Expr,
    B3: Fn(&Vec<(usize, Vec<(String, Expr)>)>) -> Result<Vec<usize>, String>,
    B4: Fn(Vec<(String, Expr)>) -> Result<Vec<WhenAction>, String>,
    B5: Fn(&Expr, &Table<usize>) -> Option<String>,
    B6: Fn(&EquationItem) -> Option<(String, bool)>,
    B7: Fn(&Expr) -> Vec<String>,
    B8: Fn(&Expr, &str) -> Expr,
    B9: Fn(&str, &Expr) -> Expr,
    D1: Fn(usize) -> String,
    D2: Fn(usize) -> String,
    D3: Fn(&C) -> (Option<usize>, usize, Option<Number>),
>(
    h: &Clockwork<C, A1, A2, A3, A4, A5, A6, A7, A8, A9, B1, B2, B3, B4, B5, B6, B7, B8, B9, D1, D2, D3>,
    clocks: &C,
    clock_of: &Table<usize>,
    list: &Vec<EquationItem>,
) -> (r: Vec<EquationItem>)
    requires
        runs_true(*h),
    ensures
        r.deep_view() == Seq::new(
            list.deep_view().len(),
            |i: int|
                EquationV {
                    lhs: (clockwork_of(*h).at_tick)(
                        *clocks,
                        clock_of.deep_view(),
                        None,
                        list.deep_view()[i].lhs,
                    ),
                    rhs: (clockwork_of(*h).at_tick)(
                        *clocks,
                        clock_of.deep_view(),
                        None,
                        list.deep_view()[i].rhs,
                    ),
                    origin: list.deep_view()[i].origin,
                },
        ),
{
    let ghost hv = clockwork_of(*h);
    let ghost all = list.deep_view();
    let ghost tv = clock_of.deep_view();
    let ghost whole = Seq::new(
        all.len(),
        |i: int|
            EquationV {
                lhs: (hv.at_tick)(*clocks, tv, None, all[i].lhs),
                rhs: (hv.at_tick)(*clocks, tv, None, all[i].rhs),
                origin: all[i].origin,
            },
    );
    let mut out: Vec<EquationItem> = Vec::new();
    let mut i: usize = 0;
    while i < list.len()
        invariant
            i <= list.len(),
            runs_true(*h),
            hv == clockwork_of(*h),
            all == list.deep_view(),
            tv == clock_of.deep_view(),
            whole == Seq::new(
                all.len(),
                |i: int|
                    EquationV {
                        lhs: (hv.at_tick)(*clocks, tv, None, all[i].lhs),
                        rhs: (hv.at_tick)(*clocks, tv, None, all[i].rhs),
                        origin: all[i].origin,
                    },
            ),
            out.deep_view() == whole.take(i as int),
        decreases list.len() - i,
    {
        assert(all[i as int] == list@[i as int].deep_view());
        let one = EquationItem {
            lhs: h.do_at_tick(clocks, clock_of, None, &list[i].lhs),
            rhs: h.do_at_tick(clocks, clock_of, None, &list[i].rhs),
            origin: list[i].origin.clone(),
        };
        assert(one.deep_view() == whole[i as int]);
        let ghost before = out.deep_view();
        out.push(one);
        assert(out.deep_view() =~= before.push(whole[i as int]));
        assert(before.push(whole[i as int]) =~= whole.take(i + 1));
        i = i + 1;
    }
    assert(whole.take(i as int) =~= whole);
    out
}

spec fn model_told(r: Result<Model, String>) -> Result<ModelV, Seq<char>> {
    match r {
        Ok(made) => Ok(made.deep_view()),
        Err(why) => Err(why@),
    }
}

fn finish<
    C,
    A1: Fn(C, &Expr, &Table<Number>) -> Result<(C, Option<usize>), String>,
    A2: Fn(C, &str, usize) -> C,
    A3: Fn(&C, &str) -> Option<usize>,
    A4: Fn(C, &Expr, &Table<usize>, &Table<Number>, Vec<usize>) -> Result<(C, Vec<usize>), String>,
    A5: Fn(C, &Vec<usize>, &str) -> Result<(C, Option<usize>), String>,
    A6: Fn(&C, usize) -> Ticking,
    A7: Fn(&C, usize, usize) -> bool,
    A8: Fn(&C, &str, usize, usize) -> String,
    A9: Fn(&C, &Table<usize>, Option<usize>, &Expr) -> Expr,
    B1: Fn(&C, usize, &Vec<(String, Expr)>, &Expr) -> Vec<(String, Expr)>,
    B2: Fn(&C, usize) -> Expr,
    B3: Fn(&Vec<(usize, Vec<(String, Expr)>)>) -> Result<Vec<usize>, String>,
    B4: Fn(Vec<(String, Expr)>) -> Result<Vec<WhenAction>, String>,
    B5: Fn(&Expr, &Table<usize>) -> Option<String>,
    B6: Fn(&EquationItem) -> Option<(String, bool)>,
    B7: Fn(&Expr) -> Vec<String>,
    B8: Fn(&Expr, &str) -> Expr,
    B9: Fn(&str, &Expr) -> Expr,
    D1: Fn(usize) -> String,
    D2: Fn(usize) -> String,
    D3: Fn(&C) -> (Option<usize>, usize, Option<Number>),
>(
    h: &Clockwork<C, A1, A2, A3, A4, A5, A6, A7, A8, A9, B1, B2, B3, B4, B5, B6, B7, B8, B9, D1, D2, D3>,
    clocks: &C,
    clock_of: Table<usize>,
    model: Model,
    clauses: Vec<WhenClause>,
    kept: &Vec<(String, usize, Number)>,
) -> (r: Result<Model, String>)
    requires
        runs_true(*h),
    ensures
        model_told(r) == finished(
            clockwork_of(*h),
            *clocks,
            clock_of.deep_view(),
            model.deep_view(),
            clauses.deep_view(),
            kept.deep_view(),
        ),
        r matches Ok(out) ==> out.functions == model.functions,
{
    let ghost was = model.deep_view();
    let ghost cv = clauses.deep_view();
    let ghost kv = kept.deep_view();
    assert(kv.len() == kept@.len());
    let mut clauses = clauses;
    let mut model = model;
    let mut clock_of = clock_of;
    add_kept(&mut model.components, kept);
    let ghost components = model.components.deep_view();
    assert(components =~= was.components + Seq::new(kv.len(), |i: int| kept_component(kv[i])));
    put_kept(&mut clock_of, kept);
    if let Some(name) = check_unheld(h, &model.equations, &clock_of) {
        return Err(
            join5(
                "`",
                name.as_str(),
                "` is a clocked variable, so a continuous equation may only read it through `hold(",
                name.as_str(),
                ")`",
            ),
        );
    }
    let ghost all = clock_of.deep_view();
    let equations = read_at_ticks(h, clocks, &clock_of, &model.equations);
    assert(equations.deep_view() =~= Seq::new(
        was.equations.len(),
        |i: int|
            EquationV {
                lhs: (clockwork_of(*h).at_tick)(*clocks, all, None, was.equations[i].lhs),
                rhs: (clockwork_of(*h).at_tick)(*clocks, all, None, was.equations[i].rhs),
                origin: was.equations[i].origin,
            },
    ));
    assert(components.len() == model.components@.len());
    model.components = leave_declarations(model.components, &clock_of);
    model.equations = equations;
    let ghost before = model.when_clauses.deep_view();
    model.when_clauses.append(&mut clauses);
    assert(model.when_clauses.deep_view() =~= before + cv);
    Ok(model)
}

fn lift_model<
    C,
    A1: Fn(C, &Expr, &Table<Number>) -> Result<(C, Option<usize>), String>,
    A2: Fn(C, &str, usize) -> C,
    A3: Fn(&C, &str) -> Option<usize>,
    A4: Fn(C, &Expr, &Table<usize>, &Table<Number>, Vec<usize>) -> Result<(C, Vec<usize>), String>,
    A5: Fn(C, &Vec<usize>, &str) -> Result<(C, Option<usize>), String>,
    A6: Fn(&C, usize) -> Ticking,
    A7: Fn(&C, usize, usize) -> bool,
    A8: Fn(&C, &str, usize, usize) -> String,
    A9: Fn(&C, &Table<usize>, Option<usize>, &Expr) -> Expr,
    B1: Fn(&C, usize, &Vec<(String, Expr)>, &Expr) -> Vec<(String, Expr)>,
    B2: Fn(&C, usize) -> Expr,
    B3: Fn(&Vec<(usize, Vec<(String, Expr)>)>) -> Result<Vec<usize>, String>,
    B4: Fn(Vec<(String, Expr)>) -> Result<Vec<WhenAction>, String>,
    B5: Fn(&Expr, &Table<usize>) -> Option<String>,
    B6: Fn(&EquationItem) -> Option<(String, bool)>,
    B7: Fn(&Expr) -> Vec<String>,
    B8: Fn(&Expr, &str) -> Expr,
    B9: Fn(&str, &Expr) -> Expr,
    D1: Fn(usize) -> String,
    D2: Fn(usize) -> String,
    D3: Fn(&C) -> (Option<usize>, usize, Option<Number>),
    W: Fn(Arith, Number, Number) -> Number,
    O: Fn(&str, &Vec<Number>) -> Option<Vec<Number>>,
    N: Fn(&str) -> String,
>(
    h: &Clockwork<C, A1, A2, A3, A4, A5, A6, A7, A8, A9, B1, B2, B3, B4, B5, B6, B7, B8, B9, D1, D2, D3>,
    sums: &Sums<W, O, N>,
    clocks: &C,
    clock_of: Table<usize>,
    model: Model,
) -> (r: Result<Model, String>)
    requires
        runs_true(*h),
        is_steady(*sums),
    ensures
        model_told(r) == lifted_model(
            clockwork_of(*h),
            sums_of(*sums),
            *clocks,
            clock_of.deep_view(),
            model.deep_view(),
        ),
        r matches Ok(out) ==> out.functions == model.functions,
{
    let mut model = model;
    let mut clock_of = clock_of;
    assert(model.deep_view().equations.len() == model.equations@.len());
    let Lifted { kept: left, lifted, rates } = lift_out(h, clocks, &clock_of, &model.equations);
    assert(rates.deep_view().len() == rates@.len());
    model.equations = left;
    let (lifted, mut kept) = match step_rates(h, clocks, &rates, lifted) {
        Ok(made) => made,
        Err(why) => return Err(why),
    };
    assert(kept.deep_view().len() == kept@.len());
    put_kept(&mut clock_of, &kept);
    let order = match h.do_order(&lifted) {
        Ok(order) => order,
        Err(why) => return Err(why),
    };
    match make_partitions(h, sums, clocks, &clock_of, &lifted, &order, &mut kept) {
        Ok(clauses) => finish(h, clocks, clock_of, model, clauses, &kept),
        Err(why) => Err(why),
    }
}

fn spread_the_model<
    C,
    A1: Fn(C, &Expr, &Table<Number>) -> Result<(C, Option<usize>), String>,
    A2: Fn(C, &str, usize) -> C,
    A3: Fn(&C, &str) -> Option<usize>,
    A4: Fn(C, &Expr, &Table<usize>, &Table<Number>, Vec<usize>) -> Result<(C, Vec<usize>), String>,
    A5: Fn(C, &Vec<usize>, &str) -> Result<(C, Option<usize>), String>,
    A6: Fn(&C, usize) -> Ticking,
    A7: Fn(&C, usize, usize) -> bool,
    A8: Fn(&C, &str, usize, usize) -> String,
    A9: Fn(&C, &Table<usize>, Option<usize>, &Expr) -> Expr,
    B1: Fn(&C, usize, &Vec<(String, Expr)>, &Expr) -> Vec<(String, Expr)>,
    B2: Fn(&C, usize) -> Expr,
    B3: Fn(&Vec<(usize, Vec<(String, Expr)>)>) -> Result<Vec<usize>, String>,
    B4: Fn(Vec<(String, Expr)>) -> Result<Vec<WhenAction>, String>,
    B5: Fn(&Expr, &Table<usize>) -> Option<String>,
    B6: Fn(&EquationItem) -> Option<(String, bool)>,
    B7: Fn(&Expr) -> Vec<String>,
    B8: Fn(&Expr, &str) -> Expr,
    B9: Fn(&str, &Expr) -> Expr,
    D1: Fn(usize) -> String,
    D2: Fn(usize) -> String,
    D3: Fn(&C) -> (Option<usize>, usize, Option<Number>),
    W: Fn(Arith, Number, Number) -> Number,
    O: Fn(&str, &Vec<Number>) -> Option<Vec<Number>>,
    N: Fn(&str) -> String,
>(
    h: &Clockwork<C, A1, A2, A3, A4, A5, A6, A7, A8, A9, B1, B2, B3, B4, B5, B6, B7, B8, B9, D1, D2, D3>,
    sums: &Sums<W, O, N>,
    clocks: C,
    clock_of: Table<usize>,
    known: &Table<Number>,
    grouped: &Table<usize>,
    declared: &Vec<String>,
    model: Model,
) -> (r: Result<Model, String>)
    requires
        runs_true(*h),
        is_steady(*sums),
    ensures
        model_told(r) == spread_model(
            clockwork_of(*h),
            sums_of(*sums),
            clocks,
            clock_of.deep_view(),
            known.deep_view(),
            grouped.deep_view(),
            texts(declared@),
            model.deep_view(),
        ),
        r matches Ok(out) ==> out.functions == model.functions,
{
    let varying = find_varying(&model.components);
    let g = Ground { equations: &model.equations, varying: &varying, known, grouped };
    let Spread { clocks, mut clock_of, settled: _ } = match spread_clocks(h, &g, clocks, clock_of) {
        Ok(made) => made,
        Err(why) => return Err(why),
    };
    if let Some(name) = find_waiting(h, &clocks, declared) {
        return Err(
            join3(
                "nothing in this model says how often `",
                name.as_str(),
                "` ticks - a clock written as `Clock()` takes its rate from an equation where it meets a clock that has one",
            ),
        );
    }
    join_clocks(h, &g, &model.components, &mut clock_of);
    if let Err(why) = check_unclocked(&model.equations, &clock_of) {
        return Err(why);
    }
    lift_model(h, sums, &clocks, clock_of, model)
}

fn build_the_machines<
    C,
    A1: Fn(C, &Expr, &Table<Number>) -> Result<(C, Option<usize>), String>,
    A2: Fn(C, &str, usize) -> C,
    A3: Fn(&C, &str) -> Option<usize>,
    A4: Fn(C, &Expr, &Table<usize>, &Table<Number>, Vec<usize>) -> Result<(C, Vec<usize>), String>,
    A5: Fn(C, &Vec<usize>, &str) -> Result<(C, Option<usize>), String>,
    A6: Fn(&C, usize) -> Ticking,
    A7: Fn(&C, usize, usize) -> bool,
    A8: Fn(&C, &str, usize, usize) -> String,
    A9: Fn(&C, &Table<usize>, Option<usize>, &Expr) -> Expr,
    B1: Fn(&C, usize, &Vec<(String, Expr)>, &Expr) -> Vec<(String, Expr)>,
    B2: Fn(&C, usize) -> Expr,
    B3: Fn(&Vec<(usize, Vec<(String, Expr)>)>) -> Result<Vec<usize>, String>,
    B4: Fn(Vec<(String, Expr)>) -> Result<Vec<WhenAction>, String>,
    B5: Fn(&Expr, &Table<usize>) -> Option<String>,
    B6: Fn(&EquationItem) -> Option<(String, bool)>,
    B7: Fn(&Expr) -> Vec<String>,
    B8: Fn(&Expr, &str) -> Expr,
    B9: Fn(&str, &Expr) -> Expr,
    D1: Fn(usize) -> String,
    D2: Fn(usize) -> String,
    D3: Fn(&C) -> (Option<usize>, usize, Option<Number>),
>(h: &Clockwork<C, A1, A2, A3, A4, A5, A6, A7, A8, A9, B1, B2, B3, B4, B5, B6, B7, B8, B9, D1, D2, D3>, clocks: &C, model: Model) -> (r: Result<
    (Model, Table<usize>),
    String,
>)
    requires
        runs_true(*h),
    ensures
        match machines_built(clockwork_of(*h), *clocks, model.deep_view()) {
            Err(trouble) => r matches Err(why) && why@ == trouble,
            Ok(made) => r matches Ok(out) && out.0.deep_view() == made.0 && out.1.deep_view()
                == made.1,
        },
        r matches Ok(out) ==> out.0.functions == model.functions,
{
    let mut model = model;
    let mut clock_of: Table<usize> = Table::new();
    let (clock, many, period) = h.do_sole(clocks);
    match build_state_machines(&mut model, clock, many, period, &mut clock_of) {
        Ok(()) => Ok((model, clock_of)),
        Err(why) => Err(why),
    }
}

/// What every clock a model declares ticks at, and the numbers they were read
/// against, as they are held.
struct DeclaredClocks<C> {
    clocks: C,
    parameters: Table<Number>,
}

fn clocks_of_the_model<
    C,
    A1: Fn(C, &Expr, &Table<Number>) -> Result<(C, Option<usize>), String>,
    A2: Fn(C, &str, usize) -> C,
    A3: Fn(&C, &str) -> Option<usize>,
    A4: Fn(C, &Expr, &Table<usize>, &Table<Number>, Vec<usize>) -> Result<(C, Vec<usize>), String>,
    A5: Fn(C, &Vec<usize>, &str) -> Result<(C, Option<usize>), String>,
    A6: Fn(&C, usize) -> Ticking,
    A7: Fn(&C, usize, usize) -> bool,
    A8: Fn(&C, &str, usize, usize) -> String,
    A9: Fn(&C, &Table<usize>, Option<usize>, &Expr) -> Expr,
    B1: Fn(&C, usize, &Vec<(String, Expr)>, &Expr) -> Vec<(String, Expr)>,
    B2: Fn(&C, usize) -> Expr,
    B3: Fn(&Vec<(usize, Vec<(String, Expr)>)>) -> Result<Vec<usize>, String>,
    B4: Fn(Vec<(String, Expr)>) -> Result<Vec<WhenAction>, String>,
    B5: Fn(&Expr, &Table<usize>) -> Option<String>,
    B6: Fn(&EquationItem) -> Option<(String, bool)>,
    B7: Fn(&Expr) -> Vec<String>,
    B8: Fn(&Expr, &str) -> Expr,
    B9: Fn(&str, &Expr) -> Expr,
    D1: Fn(usize) -> String,
    D2: Fn(usize) -> String,
    D3: Fn(&C) -> (Option<usize>, usize, Option<Number>),
    W: Fn(Arith, Number, Number) -> Number,
    O: Fn(&str, &Vec<Number>) -> Option<Vec<Number>>,
    N: Fn(&str) -> String,
>(
    h: &Clockwork<C, A1, A2, A3, A4, A5, A6, A7, A8, A9, B1, B2, B3, B4, B5, B6, B7, B8, B9, D1, D2, D3>,
    none: C,
    sums: &Sums<W, O, N>,
    declared: &Vec<String>,
    model: &mut Model,
) -> (r: Result<DeclaredClocks<C>, String>)
    requires
        runs_true(*h),
        is_steady(*sums),
    ensures
        ({
            let m = old(model).deep_view();
            let v = sums_of(*sums);
            let hv = clockwork_of(*h);
            let known = settled_values(m.components, Map::empty(), v, m.components.len());
            let (definitions, kept) = definitions_split(
                m.equations,
                texts(declared@),
                definitions_declared(m.components),
                m.equations.len(),
            );
            match clocks_settled(hv, none, definitions, known, MAX_DEPTH as nat) {
                Err(trouble) => r matches Err(why) && why@ == trouble,
                Ok(clocks) => match clocks_trouble(hv, clocks, texts(declared@), 0) {
                    Some(trouble) => r matches Err(why) && why@ == trouble,
                    None => r matches Ok(out) && out.clocks == clocks && out.parameters.deep_view()
                        == known && final(model).deep_view() == (ModelV { equations: kept, ..m }),
                },
            }
        }),
        final(model).functions == old(model).functions,
{
    let ghost m = model.deep_view();
    assert(m.components.len() == model.components@.len());
    assert(m.equations.len() == model.equations@.len());
    let parameters = settle_values(&model.components, sums);
    let mut definitions = find_definitions(&model.components);
    let kept = split_definitions(&model.equations, declared, &mut definitions);
    model.equations = kept;
    match settle_clocks(h, none, &definitions, &parameters) {
        Err(why) => Err(why),
        Ok(clocks) => match check_clocks(h, &clocks, declared) {
            Some(why) => Err(why),
            None => Ok(DeclaredClocks { clocks, parameters }),
        },
    }
}

/// Lift a model's clocked equations into the `when` clauses that fire on each
/// clock, with the counters and last-tick markers kept beside them. `none` is
/// the table with no clock in it.
pub fn partition_clocks<
    C,
    A1: Fn(C, &Expr, &Table<Number>) -> Result<(C, Option<usize>), String>,
    A2: Fn(C, &str, usize) -> C,
    A3: Fn(&C, &str) -> Option<usize>,
    A4: Fn(C, &Expr, &Table<usize>, &Table<Number>, Vec<usize>) -> Result<(C, Vec<usize>), String>,
    A5: Fn(C, &Vec<usize>, &str) -> Result<(C, Option<usize>), String>,
    A6: Fn(&C, usize) -> Ticking,
    A7: Fn(&C, usize, usize) -> bool,
    A8: Fn(&C, &str, usize, usize) -> String,
    A9: Fn(&C, &Table<usize>, Option<usize>, &Expr) -> Expr,
    B1: Fn(&C, usize, &Vec<(String, Expr)>, &Expr) -> Vec<(String, Expr)>,
    B2: Fn(&C, usize) -> Expr,
    B3: Fn(&Vec<(usize, Vec<(String, Expr)>)>) -> Result<Vec<usize>, String>,
    B4: Fn(Vec<(String, Expr)>) -> Result<Vec<WhenAction>, String>,
    B5: Fn(&Expr, &Table<usize>) -> Option<String>,
    B6: Fn(&EquationItem) -> Option<(String, bool)>,
    B7: Fn(&Expr) -> Vec<String>,
    B8: Fn(&Expr, &str) -> Expr,
    B9: Fn(&str, &Expr) -> Expr,
    D1: Fn(usize) -> String,
    D2: Fn(usize) -> String,
    D3: Fn(&C) -> (Option<usize>, usize, Option<Number>),
    W: Fn(Arith, Number, Number) -> Number,
    O: Fn(&str, &Vec<Number>) -> Option<Vec<Number>>,
    N: Fn(&str) -> String,
>(
    model: Model,
    h: &Clockwork<C, A1, A2, A3, A4, A5, A6, A7, A8, A9, B1, B2, B3, B4, B5, B6, B7, B8, B9, D1, D2, D3>,
    none: C,
    sums: &Sums<W, O, N>,
) -> (r: Result<Model, String>)
    requires
        runs_true(*h),
        is_steady(*sums),
    ensures
        match partitioned_model(
            clockwork_of(*h),
            none,
            sums_of(*sums),
            model.deep_view(),
        ) {
            Err(trouble) => r matches Err(why) && why@ == trouble,
            Ok(made) => r matches Ok(out) && out.deep_view() == made,
        },
        r matches Ok(out) ==> out.functions == model.functions,
{
    let mut model = model;
    let declared = find_declared_clocks(&model.components);
    assert(texts(declared@).len() == declared@.len());
    if declared.len() == 0 {
        return match build_the_machines(h, &none, model) {
            Ok((model, _)) => Ok(model),
            Err(why) => Err(why),
        };
    }
    let DeclaredClocks { clocks, parameters } = match clocks_of_the_model(
        h,
        none,
        sums,
        &declared,
        &mut model,
    ) {
        Ok(made) => made,
        Err(why) => return Err(why),
    };
    let Model {
        name,
        description,
        components,
        equations,
        initial_equations,
        asserts,
        transitions,
        initial_states,
        connection_graph,
        when_clauses,
        conditional,
        transports,
        experiment,
        functions,
    } = model;
    assert(when_clauses.deep_view().len() == when_clauses@.len());
    let ReadOut { clocks, grouped, kept, equations } = match read_clauses(
        h,
        clocks,
        equations,
        when_clauses,
        &parameters,
    ) {
        Ok(out) => out,
        Err(why) => return Err(why),
    };
    let model = Model {
        name,
        description,
        components,
        equations,
        initial_equations,
        asserts,
        transitions,
        initial_states,
        connection_graph,
        when_clauses: kept,
        conditional,
        transports,
        experiment,
        functions,
    };
    let (model, clock_of) = match build_the_machines(h, &clocks, model) {
        Ok(made) => made,
        Err(why) => return Err(why),
    };
    spread_the_model(h, sums, clocks, clock_of, &parameters, &grouped, &declared, model)
}

/// A model that declares no clock and has no state machine in it has nothing
/// lifted out of it.
pub proof fn law_nothing_clocked_is_left_alone<C>(
    h: ClockworkV<C>,
    none: C,
    v: SumsV,
    m: ModelV,
)
    requires
        declared_clocks(m.components).len() == 0,
        !has_machines(m),
    ensures
        partitioned_model(h, none, v, m) == Ok::<ModelV, Seq<char>>(m),
{
}

/// Lifting clocked equations out of a model leaves its name, its description,
/// its checks, its connections and its settings as they were.
pub proof fn law_lifting_out_keeps_the_rest<C>(h: ClockworkV<C>, none: C, v: SumsV, m: ModelV)
    requires
        partitioned_model(h, none, v, m) is Ok,
    ensures
        ({
            let n = partitioned_model(h, none, v, m)->Ok_0;
            &&& n.name == m.name
            &&& n.description == m.description
            &&& n.connection_graph == m.connection_graph
            &&& n.conditional == m.conditional
            &&& n.transports == m.transports
            &&& n.experiment == m.experiment
        }),
{
}

/// Whether none of a list of declarations is a clock.
pub open spec fn no_clock_among(list: Seq<ComponentV>) -> bool {
    forall|i: int| 0 <= i < list.len() ==> (#[trigger] list[i]).of_type != "Clock"@
}

proof fn lemma_none_declared(list: Seq<ComponentV>)
    requires
        declared_clocks(list).len() == 0,
    ensures
        no_clock_among(list),
    decreases list.len(),
{
    if list.len() > 0 {
        let before = list.drop_last();
        lemma_none_declared(before);
        assert forall|i: int| 0 <= i < list.len() implies (#[trigger] list[i]).of_type
            != "Clock"@ by {
            if i < before.len() {
                assert(before[i] == list[i]);
            }
        }
    }
}

proof fn lemma_clocks_left_out(list: Seq<ComponentV>, clock_of: ClockOf, n: nat)
    ensures
        no_clock_among(declarations_left(list, clock_of, n)),
    decreases n,
{
    if n > 0 && n <= list.len() {
        lemma_clocks_left_out(list, clock_of, (n - 1) as nat);
    }
}

proof fn lemma_no_clock_booked(machines: Seq<MachineV>, varying: Seq<Seq<char>>, n: nat)
    ensures
        no_clock_among(whole_book(machines, varying, n)),
    decreases n,
{
    reveal_strlit("Real");
    reveal_strlit("Boolean");
    reveal_strlit("Clock");
    assert("Real"@.len() == 4 && "Boolean"@.len() == 7 && "Clock"@.len() == 5);
    if n > 0 {
        lemma_no_clock_booked(machines, varying, (n - 1) as nat);
        let before = whole_book(machines, varying, (n - 1) as nat);
        let more = machine_book(
            (n - 1) as nat,
            machine_steps(machines, varying, (n - 1) as nat)->Ok_0,
        );
        let list = before + more;
        assert forall|i: int| 0 <= i < list.len() implies (#[trigger] list[i]).of_type
            != "Clock"@ by {
            if i < before.len() {
                assert(list[i] == before[i]);
            } else {
                assert(list[i] == more[i - before.len()]);
            }
        }
    }
}

/// A model with its clocks out has no clock declared in it, no arrow of a
/// machine and no state that one starts in.
pub proof fn law_no_clock_is_left<C>(h: ClockworkV<C>, none: C, v: SumsV, m: ModelV)
    requires
        partitioned_model(h, none, v, m) is Ok,
    ensures
        ({
            let n = partitioned_model(h, none, v, m)->Ok_0;
            &&& n.transitions == Seq::<TransitionV>::empty()
            &&& n.initial_states == Seq::<Seq<char>>::empty()
            &&& no_clock_among(n.components)
        }),
{
    let n = partitioned_model(h, none, v, m)->Ok_0;
    if !has_machines(m) {
        assert(m.transitions =~= Seq::empty());
        assert(m.initial_states =~= Seq::empty());
    }
    if declared_clocks(m.components).len() == 0 {
        lemma_none_declared(m.components);
        if has_machines(m) {
            let (clock, many, period) = (h.sole)(none);
            let machines = partitioned(m.transitions, m.initial_states)->Ok_0;
            let added = stepped(m, clock, many as nat, period)->Ok_0.added;
            assert(n.components == m.components + added);
            assert(added == whole_book(machines, varying_of(m.components), machines.len()));
            lemma_no_clock_booked(machines, varying_of(m.components), machines.len());
            assert forall|i: int| 0 <= i < n.components.len() implies (
            #[trigger] n.components[i]).of_type != "Clock"@ by {
                if i < m.components.len() {
                    assert(n.components[i] == m.components[i]);
                } else {
                    assert(n.components[i] == added[i - m.components.len()]);
                }
            }
        }
    } else {
        assert forall|list: Seq<ComponentV>, clock_of: ClockOf, k: nat| no_clock_among(
            #[trigger] declarations_left(list, clock_of, k),
        ) by {
            lemma_clocks_left_out(list, clock_of, k);
        }
    }
}

}
