//! What a state machine comes to: equations on its clock.
//!
//! A machine keeps a few variables of its own: the state it is in, how many
//! ticks it has been there, and whether the arrow that brought it there asked
//! for what it arrives at to be put back. At each tick it looks at the arrows
//! leaving its state, in priority order, and takes the first whose condition
//! held at the tick before. The states' own equations run guarded: the one
//! that is in force computes, and the others hold what they had.
use crate::class::{
    Causality, Component, ComponentV, EquationItem, EquationV, Scope, Transition, Variability,
};
use crate::expr::{
    is_call, kids, lemma_kids_smaller, lemma_views, told, with_kids, BinOp, Expr, ExprV, RelOp,
};
use crate::flat::{Model, ModelV};
use crate::machines::{
    all_under, partition, partitioned, Machine, MachineV, TransitionV,
};
use crate::make;
use crate::number::{from_count, half, minus_one, nearest, one, zero, Number};
use crate::table::Table;
use crate::text::{
    begins_with, comes_before, decimal, digits, holds, join2, join3, join4, join5, precedes, same,
    signed, starts, texts, whole,
};
use vstd::prelude::*;

verus! {

pub open spec fn state_var(tag: nat) -> Seq<char> {
    "$state"@ + digits(tag)
}

pub open spec fn ticks_var(tag: nat) -> Seq<char> {
    "$ticks"@ + digits(tag)
}

pub open spec fn reset_var(tag: nat) -> Seq<char> {
    "$reset"@ + digits(tag)
}

/// The value of a variable at the tick before.
pub open spec fn previous_of(name: Seq<char>) -> ExprV {
    ExprV::Call("previous"@, seq![ExprV::Ref(name)])
}

pub open spec fn counted(n: nat) -> ExprV {
    ExprV::Number(nearest(n))
}

pub open spec fn is_at(name: Seq<char>, index: nat) -> ExprV {
    ExprV::Rel(RelOp::Eq, Box::new(ExprV::Ref(name)), Box::new(counted(index)))
}

pub open spec fn was_at(name: Seq<char>, index: nat) -> ExprV {
    ExprV::Rel(RelOp::Eq, Box::new(previous_of(name)), Box::new(counted(index)))
}

pub open spec fn both(a: ExprV, b: ExprV) -> ExprV {
    ExprV::And(Box::new(a), Box::new(b))
}

pub open spec fn choice(c: ExprV, a: ExprV, b: ExprV) -> ExprV {
    ExprV::If(Box::new(c), Box::new(a), Box::new(b))
}

/// Whether the arrow taken asked for what it arrives at to be put back.
pub open spec fn asked_reset(tag: nat) -> ExprV {
    ExprV::Rel(
        RelOp::Gt,
        Box::new(ExprV::Ref(reset_var(tag))),
        Box::new(ExprV::Number(half())),
    )
}

fn state_name(tag: usize) -> (r: String)
    ensures
        r@ == state_var(tag as nat),
{
    let count = decimal(tag as u64);
    join2("$state", count.as_str())
}

fn ticks_name(tag: usize) -> (r: String)
    ensures
        r@ == ticks_var(tag as nat),
{
    let count = decimal(tag as u64);
    join2("$ticks", count.as_str())
}

fn reset_name(tag: usize) -> (r: String)
    ensures
        r@ == reset_var(tag as nat),
{
    let count = decimal(tag as u64);
    join2("$reset", count.as_str())
}

fn make_previous(name: &str) -> (r: Expr)
    ensures
        r.deep_view() == previous_of(name@),
{
    make::call1("previous", make::name(name.to_owned()))
}

fn make_count(n: usize) -> (r: Expr)
    ensures
        r.deep_view() == counted(n as nat),
{
    make::number(from_count(n as u64))
}

fn make_is(name: String, index: usize) -> (r: Expr)
    ensures
        r.deep_view() == is_at(name@, index as nat),
{
    make::rel(RelOp::Eq, make::name(name), make_count(index))
}

fn make_was(name: &str, index: usize) -> (r: Expr)
    ensures
        r.deep_view() == was_at(name@, index as nat),
{
    make::rel(RelOp::Eq, make_previous(name), make_count(index))
}

fn make_asked_reset(tag: usize) -> (r: Expr)
    ensures
        r.deep_view() == asked_reset(tag as nat),
{
    make::rel(RelOp::Gt, make::name(reset_name(tag)), make::number(half()))
}

/// Whether an expression calls something of that name anywhere.
pub open spec fn mentions(e: ExprV, name: Seq<char>) -> bool
    decreases e,
{
    proof {
        lemma_kids_smaller(e);
    }
    (e matches ExprV::Call(called, _) && called == name) || exists|i: int|
        0 <= i < kids(e).len() && mentions(#[trigger] kids(e)[i], name)
}

/// Whether an expression calls something of that name anywhere.
pub fn mentions_call(expr: &Expr, name: &str) -> (r: bool)
    ensures
        r == mentions(expr.deep_view(), name@),
    decreases expr.deep_view(),
{
    if let Expr::Call(called, _) = expr {
        if same(called.as_str(), name) {
            return true;
        }
    }
    let ghost shape = expr.deep_view();
    let parts = expr.children();
    let mut i: usize = 0;
    proof {
        lemma_kids_smaller(shape);
    }
    while i < parts.len()
        invariant
            i <= parts.len(),
            shape == expr.deep_view(),
            parts.deep_view() == kids(shape),
            forall|k: int|
                0 <= k < kids(shape).len() ==> (#[trigger] decreases_to!(shape => kids(shape)[k])),
            forall|k: int| 0 <= k < i ==> !mentions(#[trigger] kids(shape)[k], name@),
            mentions(shape, name@) == exists|k: int|
                0 <= k < kids(shape).len() && mentions(#[trigger] kids(shape)[k], name@),
        decreases parts.len() - i,
    {
        assert(parts.deep_view()[i as int] == parts@[i as int].deep_view());
        assert(decreases_to!(shape => kids(shape)[i as int]));
        let part: &Expr = parts[i];
        if mentions_call(part, name) {
            return true;
        }
        i = i + 1;
    }
    false
}

/// Whether a name is inside a state, or is the state where that counts too.
pub open spec fn belongs(name: Seq<char>, state: Seq<char>, itself: bool) -> bool {
    begins_with(name, state + "."@) || (itself && name == state)
}

/// The innermost state that a name belongs to, of the first `tag` machines
/// and the first `at` states of the next; the first of two as deep.
pub open spec fn innermost(
    machines: Seq<MachineV>,
    name: Seq<char>,
    itself: bool,
    tag: nat,
    at: nat,
) -> Option<(usize, usize)>
    decreases tag, at,
{
    if at > 0 && tag < machines.len() && at <= machines[tag as int].states.len() {
        let best = innermost(machines, name, itself, tag, (at - 1) as nat);
        let state = machines[tag as int].states[at - 1];
        let takes = match best {
            Some((t, a)) => state.len() > machines[t as int].states[a as int].len(),
            None => true,
        };
        if belongs(name, state, itself) && takes {
            Some((tag as usize, (at - 1) as usize))
        } else {
            best
        }
    } else if tag > 0 && tag <= machines.len() {
        innermost(
            machines,
            name,
            itself,
            (tag - 1) as nat,
            machines[tag - 1].states.len(),
        )
    } else {
        None
    }
}

fn find_innermost(machines: &Vec<Machine>, name: &str, itself: bool) -> (r: Option<(usize, usize)>)
    ensures
        r == innermost(machines.deep_view(), name@, itself, machines@.len(), 0),
        r matches Some((tag, at)) ==> tag < machines.len() && at < machines.deep_view()[tag as int].states.len(),
{
    let ghost all = machines.deep_view();
    let mut best: Option<(usize, usize)> = None;
    let mut tag: usize = 0;
    while tag < machines.len()
        invariant
            tag <= machines.len(),
            all == machines.deep_view(),
            best == innermost(all, name@, itself, tag as nat, 0),
            best matches Some((t, a)) ==> t < machines.len() && a < all[t as int].states.len(),
        decreases machines.len() - tag,
    {
        let machine = &machines[tag];
        assert(all[tag as int] == machine.deep_view());
        let mut at: usize = 0;
        while at < machine.states.len()
            invariant
                tag < machines.len(),
                at <= machine.states.len(),
                all == machines.deep_view(),
                all[tag as int] == machine.deep_view(),
                best == innermost(all, name@, itself, tag as nat, at as nat),
                best matches Some((t, a)) ==> t < machines.len() && a < all[t as int].states.len(),
            decreases machine.states.len() - at,
        {
            let ghost state = all[tag as int].states[at as int];
            assert(state == machine.states@[at as int]@);
            let under = join2(machine.states[at].as_str(), ".");
            if starts(name, under.as_str()) || (itself && same(name, machine.states[at].as_str())) {
                let takes = match best {
                    Some((t, a)) => {
                        assert(all[t as int] == machines@[t as int].deep_view());
                        assert(all[t as int].states[a as int] == machines@[t as int].states@[a as int]@);
                        machine.states[at].as_str().unicode_len()
                            > machines[t].states[a].as_str().unicode_len()
                    },
                    None => true,
                };
                if takes {
                    best = Some((tag, at));
                }
            }
            at = at + 1;
        }
        tag = tag + 1;
    }
    best
}

/// Which machine and which of its states a variable belongs to. What does not
/// vary belongs to none: it has no value from before to reach back to.
pub open spec fn owner_of(machines: Seq<MachineV>, varying: Seq<Seq<char>>, name: Seq<char>) -> Option<
    (usize, usize),
> {
    if varying.contains(name) {
        innermost(machines, name, false, machines.len(), 0)
    } else {
        None
    }
}

fn find_owner(machines: &Vec<Machine>, varying: &Vec<String>, name: &str) -> (r: Option<
    (usize, usize),
>)
    ensures
        r == owner_of(machines.deep_view(), texts(varying@), name@),
        r matches Some((tag, at)) ==> tag < machines.len() && at < machines.deep_view()[tag as int].states.len(),
{
    if holds(varying, name) {
        find_innermost(machines, name, false)
    } else {
        None
    }
}

/// Whether the passes here look into what an expression is made of.
pub open spec fn looked_into(e: ExprV) -> bool {
    e is Call || e is Neg || e is Not || e is Bin || e is Rel || e is And || e is Or || e is If
}

fn is_looked_into(e: &Expr) -> (r: bool)
    ensures
        r == looked_into(e.deep_view()),
{
    matches!(
        e,
        Expr::Call(..)
        | Expr::Neg(_)
        | Expr::Not(_)
        | Expr::Bin(..)
        | Expr::Rel(..)
        | Expr::And(..)
        | Expr::Or(..)
        | Expr::If(..)
    )
}

/// [`looked_back`] of every child.
pub open spec fn looked_back_kids(e: ExprV, machines: Seq<MachineV>, varying: Seq<Seq<char>>) -> Seq<ExprV>
    decreases e, 0int,
{
    proof {
        lemma_kids_smaller(e);
    }
    Seq::new(
        kids(e).len(),
        |i: int|
            if 0 <= i < kids(e).len() {
                looked_back(kids(e)[i], machines, varying)
            } else {
                e
            },
    )
}

/// The expression with the machines' own variables read at the tick before.
pub open spec fn looked_back(
    e: ExprV,
    machines: Seq<MachineV>,
    varying: Seq<Seq<char>>,
) -> ExprV
    decreases e, 1int,
{
    match e {
        ExprV::Ref(name) => if owner_of(machines, varying, name) is Some {
            previous_of(name)
        } else {
            e
        },
        _ => if looked_into(e) {
            with_kids(e, looked_back_kids(e, machines, varying))
        } else {
            e
        },
    }
}

/// Wrap the machines' own variables in `previous`, so a condition is judged
/// on the values from the tick before.
pub fn look_back(expr: &Expr, machines: &Vec<Machine>, varying: &Vec<String>) -> (r: Expr)
    ensures
        r.deep_view() == looked_back(expr.deep_view(), machines.deep_view(), texts(varying@)),
    decreases expr.deep_view(),
{
    if let Expr::Ref(name) = expr {
        return if find_owner(machines, varying, name.as_str()).is_some() {
            make_previous(name.as_str())
        } else {
            expr.clone()
        };
    }
    if !is_looked_into(expr) {
        return expr.clone();
    }
    let ghost held = machines.deep_view();
    let ghost names = texts(varying@);
    let ghost shape = expr.deep_view();
    let parts = expr.children();
    let mut new: Vec<Expr> = Vec::new();
    let mut i: usize = 0;
    proof {
        lemma_kids_smaller(shape);
    }
    while i < parts.len()
        invariant
            i <= parts.len(),
            shape == expr.deep_view(),
            parts.deep_view() == kids(shape),
            forall|k: int|
                0 <= k < kids(shape).len() ==> (#[trigger] decreases_to!(shape => kids(shape)[k])),
            new.len() == i,
            forall|k: int|
                0 <= k < i ==> (#[trigger] new@[k]).deep_view() == looked_back(kids(shape)[k], held, names),
            held == machines.deep_view(),
            names == texts(varying@),
        decreases parts.len() - i,
    {
        assert(parts.deep_view()[i as int] == parts@[i as int].deep_view());
        assert(decreases_to!(shape => kids(shape)[i as int]));
        let part: &Expr = parts[i];
        new.push(look_back(part, machines, varying));
        i = i + 1;
    }
    assert(new.deep_view() =~= looked_back_kids(shape, held, names));
    expr.with_children(new)
}

/// What a model asks about its machines, answered.
pub open spec fn query_answer(
    e: ExprV,
    named: Map<Seq<char>, (usize, usize)>,
    ticks: Seq<char>,
    period: Number,
) -> Option<ExprV> {
    if is_call(e, "activeState"@, 1) {
        match kids(e)[0] {
            ExprV::Ref(state) => if named.contains_key(state) {
                Some(is_at(state_var(named[state].0 as nat), named[state].1 as nat))
            } else {
                None
            },
            _ => None,
        }
    } else if is_call(e, "ticksInState"@, 0) {
        Some(ExprV::Ref(ticks))
    } else if is_call(e, "timeInState"@, 0) {
        Some(
            ExprV::Bin(
                BinOp::Mul,
                Box::new(ExprV::Ref(ticks)),
                Box::new(ExprV::Number(period)),
            ),
        )
    } else {
        None
    }
}

/// [`queried`] of every child.
pub open spec fn queried_kids(e: ExprV, named: Map<Seq<char>, (usize, usize)>, ticks: Seq<char>, period: Number) -> Seq<ExprV>
    decreases e, 0int,
{
    proof {
        lemma_kids_smaller(e);
    }
    Seq::new(
        kids(e).len(),
        |i: int|
            if 0 <= i < kids(e).len() {
                queried(kids(e)[i], named, ticks, period)
            } else {
                e
            },
    )
}

/// The expression with what it asks about the machines answered.
pub open spec fn queried(
    e: ExprV,
    named: Map<Seq<char>, (usize, usize)>,
    ticks: Seq<char>,
    period: Number,
) -> ExprV
    decreases e, 1int,
{
    match query_answer(e, named, ticks, period) {
        Some(answer) => answer,
        None => if looked_into(e) {
            with_kids(e, queried_kids(e, named, ticks, period))
        } else {
            e
        },
    }
}

fn find_query_answer(
    e: &Expr,
    named: &Table<(usize, usize)>,
    ticks: &str,
    period: Number,
) -> (r: Option<Expr>)
    ensures
        r.deep_view() == query_answer(e.deep_view(), named.deep_view(), ticks@, period),
{
    match e {
        Expr::Call(name, args) => {
            proof {
                lemma_views(*args);
            }
            if same(name.as_str(), "activeState") && args.len() == 1 {
                assert(args.deep_view()[0] == args@[0].deep_view());
                return match &args[0] {
                    Expr::Ref(state) => match named.get(state.as_str()) {
                        Some((tag, at)) => Some(make_is(state_name(*tag), *at)),
                        None => None,
                    },
                    _ => None,
                };
            }
            if same(name.as_str(), "ticksInState") && args.len() == 0 {
                return Some(make::name(ticks.to_owned()));
            }
            if same(name.as_str(), "timeInState") && args.len() == 0 {
                return Some(
                    make::bin(BinOp::Mul, make::name(ticks.to_owned()), make::number(period)),
                );
            }
            None
        },
        _ => None,
    }
}

/// Answer what a model asks about the machine it declared.
pub fn machine_queries(
    expr: &Expr,
    named: &Table<(usize, usize)>,
    ticks: &str,
    period: Number,
) -> (r: Expr)
    ensures
        r.deep_view() == queried(expr.deep_view(), named.deep_view(), ticks@, period),
    decreases expr.deep_view(),
{
    if let Some(answer) = find_query_answer(expr, named, ticks, period) {
        return answer;
    }
    if !is_looked_into(expr) {
        return expr.clone();
    }
    let ghost held = named.deep_view();
    let ghost counter = ticks@;
    let ghost shape = expr.deep_view();
    let parts = expr.children();
    let mut new: Vec<Expr> = Vec::new();
    let mut i: usize = 0;
    proof {
        lemma_kids_smaller(shape);
    }
    while i < parts.len()
        invariant
            i <= parts.len(),
            shape == expr.deep_view(),
            parts.deep_view() == kids(shape),
            forall|k: int|
                0 <= k < kids(shape).len() ==> (#[trigger] decreases_to!(shape => kids(shape)[k])),
            new.len() == i,
            forall|k: int|
                0 <= k < i ==> (#[trigger] new@[k]).deep_view() == queried(kids(shape)[k], held, counter, period),
            held == named.deep_view(),
            counter == ticks@,
        decreases parts.len() - i,
    {
        assert(parts.deep_view()[i as int] == parts@[i as int].deep_view());
        assert(decreases_to!(shape => kids(shape)[i as int]));
        let part: &Expr = parts[i];
        new.push(machine_queries(part, named, ticks, period));
        i = i + 1;
    }
    assert(new.deep_view() =~= queried_kids(shape, held, counter, period));
    expr.with_children(new)
}

/// A declaration with nothing said about it.
pub open spec fn blank() -> ComponentV {
    ComponentV {
        name: Seq::empty(),
        of_type: "Real"@,
        flow: false,
        stream: false,
        dimensions: Seq::empty(),
        causality: Causality::Acausal,
        modifiers: Seq::empty(),
        variability: Variability::Continuous,
        start: None,
        fixed: None,
        unit: None,
        min: None,
        max: None,
        binding: None,
        description: None,
        scope: Scope::Local,
        replaceable: false,
        constrained_by: None,
        condition: None,
        redeclares: Seq::empty(),
        redeclaration: false,
        is_final: false,
        protected: false,
        each_modifiers: Seq::empty(),
        annotations: Seq::empty(),
    }
}

/// A component with nothing said about it, for the ones that are made up for
/// bookkeeping.
pub fn blank_component() -> (r: Component)
    ensures
        r.deep_view() == blank(),
{
    let out = Component {
        name: String::new(),
        of_type: "Real".to_owned(),
        flow: false,
        stream: false,
        dimensions: Vec::new(),
        causality: Causality::Acausal,
        modifiers: Vec::new(),
        variability: Variability::Continuous,
        start: None,
        fixed: None,
        unit: None,
        min: None,
        max: None,
        binding: None,
        description: None,
        scope: Scope::Local,
        replaceable: false,
        constrained_by: None,
        condition: None,
        redeclares: Vec::new(),
        redeclaration: false,
        is_final: false,
        protected: false,
        each_modifiers: Vec::new(),
        annotations: Vec::new(),
    };
    assert(out.name@ =~= Seq::empty());
    assert(out.dimensions.deep_view() =~= Seq::empty());
    assert(out.modifiers.deep_view() =~= Seq::empty());
    assert(out.redeclares.deep_view() =~= Seq::empty());
    assert(out.each_modifiers.deep_view() =~= Seq::empty());
    assert(out.annotations.deep_view() =~= Seq::empty());
    out
}

/// Where a state stands among those of its machine.
pub open spec fn place_in(states: Seq<Seq<char>>, name: Seq<char>, i: nat) -> nat
    decreases states.len() - i,
{
    if i >= states.len() {
        0
    } else if states[i as int] == name {
        i
    } else {
        place_in(states, name, i + 1)
    }
}

fn find_place(states: &Vec<String>, name: &str) -> (r: usize)
    ensures
        r == place_in(texts(states@), name@, 0),
{
    let ghost all = texts(states@);
    let mut i: usize = 0;
    while i < states.len()
        invariant
            i <= states.len(),
            all == texts(states@),
            place_in(all, name@, 0) == place_in(all, name@, i as nat),
        decreases states.len() - i,
    {
        if same(states[i].as_str(), name) {
            return i;
        }
        i = i + 1;
    }
    0
}

/// Whether an arrow leaves a state.
pub open spec fn is_left(arrows: Seq<TransitionV>, state: Seq<char>) -> bool {
    exists|i: int| 0 <= i < arrows.len() && (#[trigger] arrows[i]).from == state
}

fn leaves(arrows: &Vec<Transition>, state: &str) -> (r: bool)
    ensures
        r == is_left(arrows.deep_view(), state@),
{
    let ghost all = arrows.deep_view();
    let mut i: usize = 0;
    while i < arrows.len()
        invariant
            i <= arrows.len(),
            all == arrows.deep_view(),
            forall|k: int| 0 <= k < i ==> (#[trigger] all[k]).from != state@,
        decreases arrows.len() - i,
    {
        assert(all[i as int] == arrows@[i as int].deep_view());
        if same(arrows[i].from.as_str(), state) {
            assert(all[i as int].from == state@);
            return true;
        }
        i = i + 1;
    }
    false
}

/// That a machine rested, at the tick before, in one of its first `n` states
/// that no arrow leaves.
pub open spec fn rested(machine: MachineV, tag: nat, n: nat) -> Option<ExprV>
    decreases n,
{
    if n == 0 || n > machine.states.len() {
        None
    } else {
        let before = rested(machine, tag, (n - 1) as nat);
        if is_left(machine.arrows, machine.states[n - 1]) {
            before
        } else {
            let here = was_at(state_var(tag), (n - 1) as nat);
            match before {
                Some(so_far) => Some(ExprV::Or(Box::new(so_far), Box::new(here))),
                None => Some(here),
            }
        }
    }
}

fn make_rested(machine: &Machine, tag: usize) -> (r: Option<Expr>)
    ensures
        r.deep_view() == rested(machine.deep_view(), tag as nat, machine.deep_view().states.len()),
{
    let ghost held = machine.deep_view();
    let mut out: Option<Expr> = None;
    let mut at: usize = 0;
    while at < machine.states.len()
        invariant
            at <= machine.states.len(),
            held == machine.deep_view(),
            out.deep_view() == rested(held, tag as nat, at as nat),
        decreases machine.states.len() - at,
    {
        assert(held.states[at as int] == machine.states@[at as int]@);
        if !leaves(&machine.arrows, machine.states[at].as_str()) {
            let name = state_name(tag);
            let here = make_was(name.as_str(), at);
            out = match out {
                Some(so_far) => Some(make::or(so_far, here)),
                None => Some(here),
            };
        }
        at = at + 1;
    }
    out
}

/// That the machines inside a state have finished, of the first `n`.
pub open spec fn finished(machines: Seq<MachineV>, state: Seq<char>, n: nat) -> Option<ExprV>
    decreases n,
{
    if n == 0 || n > machines.len() {
        None
    } else {
        let before = finished(machines, state, (n - 1) as nat);
        let machine = machines[n - 1];
        match rested(machine, (n - 1) as nat, machine.states.len()) {
            Some(rest) => if all_under(machine.states, state) {
                match before {
                    Some(so_far) => Some(both(so_far, rest)),
                    None => Some(rest),
                }
            } else {
                before
            },
            None => before,
        }
    }
}

fn is_under(states: &Vec<String>, state: &str) -> (r: bool)
    ensures
        r == all_under(texts(states@), state@),
{
    let under = join2(state, ".");
    let ghost all = texts(states@);
    let mut i: usize = 0;
    while i < states.len()
        invariant
            i <= states.len(),
            all == texts(states@),
            under@ == state@ + "."@,
            forall|k: int| 0 <= k < i ==> begins_with(#[trigger] all[k], under@),
        decreases states.len() - i,
    {
        if !starts(states[i].as_str(), under.as_str()) {
            assert(!begins_with(all[i as int], under@));
            return false;
        }
        i = i + 1;
    }
    true
}

fn make_finished(machines: &Vec<Machine>, state: &str) -> (r: Option<Expr>)
    ensures
        r.deep_view() == finished(machines.deep_view(), state@, machines@.len()),
{
    let ghost all = machines.deep_view();
    let mut out: Option<Expr> = None;
    let mut i: usize = 0;
    while i < machines.len()
        invariant
            i <= machines.len(),
            all == machines.deep_view(),
            out.deep_view() == finished(all, state@, i as nat),
        decreases machines.len() - i,
    {
        assert(all[i as int] == machines@[i as int].deep_view());
        if is_under(&machines[i].states, state) {
            if let Some(rest) = make_rested(&machines[i], i) {
                out = match out {
                    Some(so_far) => Some(make::and(so_far, rest)),
                    None => Some(rest),
                };
            }
        }
        i = i + 1;
    }
    out
}

/// Whether one arrow is looked at no later than another: by priority, then by
/// the state it leaves.
pub open spec fn no_later(a: TransitionV, b: TransitionV) -> bool {
    a.priority < b.priority || (a.priority == b.priority && !precedes(b.from, a.from))
}

/// An arrow, by its position, put after those that are looked at no later.
pub open spec fn put_arrow(arrows: Seq<TransitionV>, order: Seq<usize>, i: usize) -> Seq<usize>
    decreases order.len(),
{
    if order.len() == 0 || no_later(arrows[order.last() as int], arrows[i as int]) {
        order.push(i)
    } else {
        put_arrow(arrows, order.drop_last(), i).push(order.last())
    }
}

/// The positions of the first `n` arrows, in the order they are looked at.
pub open spec fn arrow_order(arrows: Seq<TransitionV>, n: nat) -> Seq<usize>
    decreases n,
{
    if n == 0 {
        Seq::empty()
    } else {
        put_arrow(arrows, arrow_order(arrows, (n - 1) as nat), (n - 1) as usize)
    }
}

proof fn lemma_put_arrow(arrows: Seq<TransitionV>, order: Seq<usize>, i: usize)
    ensures
        put_arrow(arrows, order, i).len() == order.len() + 1,
        forall|k: int|
            0 <= k < put_arrow(arrows, order, i).len() ==> (#[trigger] put_arrow(
                arrows,
                order,
                i,
            )[k] == i || order.contains(put_arrow(arrows, order, i)[k])),
    decreases order.len(),
{
    let after = put_arrow(arrows, order, i);
    if order.len() == 0 || no_later(arrows[order.last() as int], arrows[i as int]) {
        assert forall|k: int| 0 <= k < after.len() implies (#[trigger] after[k] == i
            || order.contains(after[k])) by {
            if k < order.len() {
                assert(order[k] == after[k]);
            }
        }
    } else {
        let front = order.drop_last();
        lemma_put_arrow(arrows, front, i);
        let before = put_arrow(arrows, front, i);
        assert forall|k: int| 0 <= k < after.len() implies (#[trigger] after[k] == i
            || order.contains(after[k])) by {
            if k < before.len() {
                assert(after[k] == before[k]);
                if before[k] != i {
                    let m = choose|m: int| 0 <= m < front.len() && front[m] == before[k];
                    assert(order[m] == before[k]);
                }
            } else {
                assert(order[order.len() - 1] == after[k]);
            }
        }
    }
}

proof fn lemma_arrow_order(arrows: Seq<TransitionV>, n: nat)
    requires
        n <= usize::MAX,
    ensures
        arrow_order(arrows, n).len() == n,
        forall|k: int| 0 <= k < n ==> (#[trigger] arrow_order(arrows, n)[k]) < n,
    decreases n,
{
    if n > 0 {
        let before = arrow_order(arrows, (n - 1) as nat);
        lemma_arrow_order(arrows, (n - 1) as nat);
        lemma_put_arrow(arrows, before, (n - 1) as usize);
        assert forall|k: int| 0 <= k < n implies (#[trigger] arrow_order(arrows, n)[k]) < n by {
            let x = put_arrow(arrows, before, (n - 1) as usize)[k];
            if x != n - 1 {
                let m = choose|m: int| 0 <= m < before.len() && before[m] == x;
                assert(before[m] < n - 1);
            }
        }
    }
}

fn put_arrow_index(arrows: &Vec<Transition>, order: &mut Vec<usize>, i: usize)
    requires
        i < arrows.len(),
        forall|k: int| 0 <= k < old(order).len() ==> (#[trigger] old(order)@[k]) < arrows.len(),
    ensures
        final(order)@ == put_arrow(arrows.deep_view(), old(order)@, i),
{
    let ghost all = arrows.deep_view();
    let ghost was = order@;
    let mut at: usize = order.len();
    let ghost mut tail: Seq<usize> = Seq::empty();
    assert(was.take(at as int) =~= was);
    assert(put_arrow(all, was, i) =~= put_arrow(all, was.take(at as int), i) + tail);
    while at > 0
        invariant
            at <= order.len(),
            all == arrows.deep_view(),
            was == order@,
            was == old(order)@,
            i < arrows.len(),
            forall|k: int| 0 <= k < was.len() ==> (#[trigger] was[k]) < arrows.len(),
            tail == was.skip(at as int),
            put_arrow(all, was, i) == put_arrow(all, was.take(at as int), i) + tail,
        decreases at,
    {
        let ghost here = was.take(at as int);
        assert(here.last() == was[at - 1]);
        assert(here.drop_last() =~= was.take(at - 1));
        let held = &arrows[order[at - 1]];
        let new = &arrows[i];
        assert(all[was[at - 1] as int] == held.deep_view());
        assert(all[i as int] == new.deep_view());
        if held.priority < new.priority || (held.priority == new.priority && !comes_before(
            new.from.as_str(),
            held.from.as_str(),
        )) {
            order.insert(at, i);
            assert(order@ =~= here.push(i) + tail);
            return;
        }
        proof {
            assert(put_arrow(all, here, i) + tail =~= put_arrow(all, was.take(at - 1), i) + (
            seq![was[at - 1]] + tail));
            tail = seq![was[at - 1]] + tail;
            assert(tail =~= was.skip(at - 1));
        }
        at = at - 1;
    }
    order.insert(0, i);
    assert(was.take(0) =~= Seq::empty());
    assert(order@ =~= seq![i] + tail);
}

fn find_arrow_order(arrows: &Vec<Transition>) -> (r: Vec<usize>)
    ensures
        r@ == arrow_order(arrows.deep_view(), arrows@.len()),
        r.len() == arrows.len(),
        forall|k: int| 0 <= k < r.len() ==> (#[trigger] r@[k]) < arrows.len(),
{
    let ghost all = arrows.deep_view();
    let mut order: Vec<usize> = Vec::new();
    let mut i: usize = 0;
    assert(order@ =~= arrow_order(all, 0));
    while i < arrows.len()
        invariant
            i <= arrows.len(),
            all == arrows.deep_view(),
            order@ == arrow_order(all, i as nat),
        decreases arrows.len() - i,
    {
        proof {
            lemma_arrow_order(all, i as nat);
        }
        put_arrow_index(arrows, &mut order, i);
        i = i + 1;
    }
    proof {
        lemma_arrow_order(all, i as nat);
    }
    order
}


/// That an arrow may be taken: the machine was where it leaves from and its
/// condition held, and where it waits for the machines inside, they had
/// finished.
pub open spec fn ready_of(
    machines: Seq<MachineV>,
    varying: Seq<Seq<char>>,
    tag: nat,
    arrow: TransitionV,
) -> Result<ExprV, Seq<char>> {
    let ready = both(
        was_at(state_var(tag), place_in(machines[tag as int].states, arrow.from, 0)),
        looked_back(arrow.condition, machines, varying),
    );
    if arrow.synchronize {
        match finished(machines, arrow.from, machines.len()) {
            None => Err(
                "the arrow leaving `"@ + arrow.from
                    + "` waits for the machines inside it to finish, and there are none there to wait for"@,
            ),
            Some(done) => Ok(both(ready, done)),
        }
    } else {
        Ok(ready)
    }
}

/// The variable that keeps a delayed arrow's answer for a tick.
pub open spec fn kept_name(tag: nat, index: nat) -> Seq<char> {
    "$arm"@ + digits(tag) + "_"@ + digits(index)
}

/// What guards the arrows of a machine, in the order they are looked at, and
/// what the delayed ones keep.
pub ghost struct GuardsV {
    pub guards: Seq<ExprV>,
    pub armed: Seq<(Seq<char>, ExprV)>,
}

/// The same for the first `n` arrows of an order.
pub open spec fn guards_of(
    machines: Seq<MachineV>,
    varying: Seq<Seq<char>>,
    tag: nat,
    order: Seq<usize>,
    n: nat,
) -> Result<GuardsV, Seq<char>>
    decreases n,
{
    if n == 0 {
        Ok(GuardsV { guards: Seq::empty(), armed: Seq::empty() })
    } else {
        let index = order[n - 1];
        let arrow = machines[tag as int].arrows[index as int];
        match guards_of(machines, varying, tag, order, (n - 1) as nat) {
            Err(why) => Err(why),
            Ok(before) => match ready_of(machines, varying, tag, arrow) {
                Err(why) => Err(why),
                Ok(ready) => if arrow.immediate {
                    Ok(GuardsV { guards: before.guards.push(ready), armed: before.armed })
                } else {
                    let kept = kept_name(tag, index as nat);
                    Ok(
                        GuardsV {
                            guards: before.guards.push(previous_of(kept)),
                            armed: before.armed.push((kept, ready)),
                        },
                    )
                },
            },
        }
    }
}

proof fn lemma_guards_stop(
    machines: Seq<MachineV>,
    varying: Seq<Seq<char>>,
    tag: nat,
    order: Seq<usize>,
    n: nat,
    all: nat,
)
    requires
        n <= all,
        guards_of(machines, varying, tag, order, n) is Err,
    ensures
        guards_of(machines, varying, tag, order, all) == guards_of(
            machines,
            varying,
            tag,
            order,
            n,
        ),
    decreases all,
{
    if n < all {
        lemma_guards_stop(machines, varying, tag, order, n, (all - 1) as nat);
    }
}

proof fn lemma_guards_len(
    machines: Seq<MachineV>,
    varying: Seq<Seq<char>>,
    tag: nat,
    order: Seq<usize>,
    n: nat,
)
    ensures
        guards_of(machines, varying, tag, order, n) matches Ok(made) ==> made.guards.len() == n,
    decreases n,
{
    if n > 0 {
        lemma_guards_len(machines, varying, tag, order, (n - 1) as nat);
    }
}

/// The first guard from the `k`-th on that holds says what comes, and where
/// none does, `last`.
pub open spec fn first_guard(guards: Seq<ExprV>, says: Seq<ExprV>, last: ExprV, k: nat) -> ExprV
    decreases guards.len() - k,
{
    if k >= guards.len() {
        last
    } else {
        choice(guards[k as int], says[k as int], first_guard(guards, says, last, k + 1))
    }
}

/// Where each arrow of an order leads, by the position of the state.
pub open spec fn leads_to(machine: MachineV, order: Seq<usize>) -> Seq<ExprV> {
    Seq::new(
        order.len(),
        |k: int| counted(place_in(machine.states, machine.arrows[order[k] as int].to, 0)),
    )
}

/// Whether each arrow of an order asks for a reset.
pub open spec fn asks_reset(machine: MachineV, order: Seq<usize>) -> Seq<ExprV> {
    Seq::new(
        order.len(),
        |k: int|
            ExprV::Number(
                if machine.arrows[order[k] as int].reset {
                    one()
                } else {
                    zero()
                },
            ),
    )
}

/// That the machine has not been anywhere yet.
pub open spec fn first_tick(tag: nat) -> ExprV {
    ExprV::Rel(
        RelOp::Lt,
        Box::new(previous_of(state_var(tag))),
        Box::new(ExprV::Number(zero())),
    )
}

/// How long the machine has been where it is.
pub open spec fn ticks_now(tag: nat) -> ExprV {
    choice(
        ExprV::Rel(
            RelOp::Eq,
            Box::new(ExprV::Ref(state_var(tag))),
            Box::new(previous_of(state_var(tag))),
        ),
        ExprV::Bin(
            BinOp::Add,
            Box::new(previous_of(ticks_var(tag))),
            Box::new(ExprV::Number(one())),
        ),
        ExprV::Number(zero()),
    )
}

/// That a machine was entered afresh: the state that holds it is in force,
/// was not at the tick before, and the arrow that brought it about asked for
/// a reset.
pub open spec fn restarted(outer: nat, at: nat) -> ExprV {
    both(
        is_at(state_var(outer), at),
        both(
            ExprV::Not(Box::new(was_at(state_var(outer), at))),
            asked_reset(outer),
        ),
    )
}

pub open spec fn armed_while(armed: Seq<(Seq<char>, ExprV)>, alive: ExprV) -> Seq<
    (Seq<char>, ExprV),
> {
    Seq::new(armed.len(), |i: int| (armed[i].0, both(alive, armed[i].1)))
}

/// Where a machine goes: to the state it starts in at its first tick, and
/// then where the first arrow leads whose guard holds.
pub open spec fn next_of(machine: MachineV, tag: nat, guards: Seq<ExprV>) -> ExprV {
    choice(
        first_tick(tag),
        ExprV::Number(zero()),
        first_guard(
            guards,
            leads_to(machine, arrow_order(machine.arrows, machine.arrows.len())),
            previous_of(state_var(tag)),
            0,
        ),
    )
}

/// Whether what a machine arrives at is put back.
pub open spec fn resets_of(machine: MachineV, tag: nat, guards: Seq<ExprV>) -> ExprV {
    choice(
        first_tick(tag),
        ExprV::Number(one()),
        first_guard(
            guards,
            asks_reset(machine, arrow_order(machine.arrows, machine.arrows.len())),
            ExprV::Number(zero()),
            0,
        ),
    )
}

/// The equations of a machine at the top of the model.
pub open spec fn free_steps(machine: MachineV, tag: nat, made: GuardsV) -> Seq<
    (Seq<char>, ExprV),
> {
    seq![
        (state_var(tag), next_of(machine, tag, made.guards)),
        (reset_var(tag), resets_of(machine, tag, made.guards)),
        (ticks_var(tag), ticks_now(tag)),
    ] + made.armed
}

/// The equations of a machine inside a state: it holds still while that state
/// is not the one in force, and starts over where it was entered afresh.
pub open spec fn inner_steps(machine: MachineV, tag: nat, made: GuardsV, outer: nat, at: nat) -> Seq<
    (Seq<char>, ExprV),
> {
    let alive = is_at(state_var(outer), at);
    seq![
        (
            state_var(tag),
            choice(
                restarted(outer, at),
                ExprV::Number(zero()),
                choice(alive, next_of(machine, tag, made.guards), previous_of(state_var(tag))),
            ),
        ),
        (
            reset_var(tag),
            choice(alive, resets_of(machine, tag, made.guards), ExprV::Number(zero())),
        ),
        (ticks_var(tag), choice(alive, ticks_now(tag), previous_of(ticks_var(tag)))),
    ] + armed_while(made.armed, alive)
}

/// The equations of one machine: where it goes, whether what it arrives at is
/// put back, how long it has been there, and what its delayed arrows keep.
pub open spec fn machine_steps(
    machines: Seq<MachineV>,
    varying: Seq<Seq<char>>,
    tag: nat,
) -> Result<Seq<(Seq<char>, ExprV)>, Seq<char>> {
    let machine = machines[tag as int];
    let order = arrow_order(machine.arrows, machine.arrows.len());
    match guards_of(machines, varying, tag, order, order.len()) {
        Err(why) => Err(why),
        Ok(made) => match machine.inside {
            None => Ok(free_steps(machine, tag, made)),
            Some((outer, at)) => Ok(inner_steps(machine, tag, made, outer as nat, at as nat)),
        },
    }
}

/// The equations of the first `n` machines.
pub open spec fn all_steps(machines: Seq<MachineV>, varying: Seq<Seq<char>>, n: nat) -> Result<
    Seq<(Seq<char>, ExprV)>,
    Seq<char>,
>
    decreases n,
{
    if n == 0 {
        Ok(Seq::empty())
    } else {
        match all_steps(machines, varying, (n - 1) as nat) {
            Err(why) => Err(why),
            Ok(before) => match machine_steps(machines, varying, (n - 1) as nat) {
                Err(why) => Err(why),
                Ok(made) => Ok(before + made),
            },
        }
    }
}

/// A variable made up for bookkeeping.
pub open spec fn booked(name: Seq<char>, of_type: Seq<char>, start: ExprV) -> ComponentV {
    ComponentV {
        name,
        of_type,
        variability: Variability::Discrete,
        start: Some(start),
        description: Some("state machine bookkeeping"@),
        ..blank()
    }
}

/// The variables of one machine: a number each for where it is, how long and
/// whether to put back, and a truth for each delayed arrow.
pub open spec fn machine_book(tag: nat, steps: Seq<(Seq<char>, ExprV)>) -> Seq<ComponentV> {
    seq![
        booked(state_var(tag), "Real"@, ExprV::Number(minus_one())),
        booked(ticks_var(tag), "Real"@, ExprV::Number(zero())),
        booked(reset_var(tag), "Real"@, ExprV::Number(zero())),
    ] + Seq::new(
        (steps.len() - 3) as nat,
        |i: int| booked(steps[i + 3].0, "Boolean"@, ExprV::Bool(false)),
    )
}

/// The variables of the first `n` machines.
pub open spec fn whole_book(machines: Seq<MachineV>, varying: Seq<Seq<char>>, n: nat) -> Seq<
    ComponentV,
>
    decreases n,
{
    if n == 0 {
        Seq::empty()
    } else {
        whole_book(machines, varying, (n - 1) as nat) + machine_book(
            (n - 1) as nat,
            machine_steps(machines, varying, (n - 1) as nat)->Ok_0,
        )
    }
}

fn make_kept_name(tag: usize, index: usize) -> (r: String)
    ensures
        r@ == kept_name(tag as nat, index as nat),
{
    let machine = decimal(tag as u64);
    let arrow = decimal(index as u64);
    join4("$arm", machine.as_str(), "_", arrow.as_str())
}

fn make_ready(machines: &Vec<Machine>, varying: &Vec<String>, tag: usize, arrow: &Transition) -> (r:
    Result<Expr, String>)
    requires
        tag < machines.len(),
    ensures
        told(r) == ready_of(
            machines.deep_view(),
            texts(varying@),
            tag as nat,
            arrow.deep_view(),
        ),
{
    assert(machines.deep_view()[tag as int] == machines@[tag as int].deep_view());
    let active = state_name(tag);
    let place: usize = find_place(&machines[tag].states, arrow.from.as_str());
    let ready = make::and(
        make_was(active.as_str(), place),
        look_back(&arrow.condition, machines, varying),
    );
    if arrow.synchronize {
        match make_finished(machines, arrow.from.as_str()) {
            Some(done) => Ok(make::and(ready, done)),
            None => Err(
                join3(
                    "the arrow leaving `",
                    arrow.from.as_str(),
                    "` waits for the machines inside it to finish, and there are none there to wait for",
                ),
            ),
        }
    } else {
        Ok(ready)
    }
}

fn make_guards(
    machines: &Vec<Machine>,
    varying: &Vec<String>,
    tag: usize,
    order: &Vec<usize>,
) -> (r: Result<(Vec<Expr>, Vec<(String, Expr)>), String>)
    requires
        tag < machines.len(),
        forall|k: int|
            0 <= k < order.len() ==> (#[trigger] order@[k]) < machines@[tag as int].arrows.len(),
    ensures
        match guards_of(
            machines.deep_view(),
            texts(varying@),
            tag as nat,
            order@,
            order@.len(),
        ) {
            Err(trouble) => r matches Err(why) && why@ == trouble,
            Ok(made) => r matches Ok(held) && held.0.deep_view() == made.guards
                && held.1.deep_view() == made.armed,
        },
{
    let ghost all = machines.deep_view();
    let ghost names = texts(varying@);
    assert(all[tag as int] == machines@[tag as int].deep_view());
    let mut guards: Vec<Expr> = Vec::new();
    let mut armed: Vec<(String, Expr)> = Vec::new();
    let mut k: usize = 0;
    assert(guards.deep_view() =~= Seq::empty());
    assert(armed.deep_view() =~= Seq::empty());
    while k < order.len()
        invariant
            k <= order.len(),
            tag < machines.len(),
            all == machines.deep_view(),
            names == texts(varying@),
            all[tag as int] == machines@[tag as int].deep_view(),
            forall|k: int|
                0 <= k < order.len() ==> (#[trigger] order@[k])
                    < machines@[tag as int].arrows.len(),
            guards_of(all, names, tag as nat, order@, k as nat) == Ok::<GuardsV, Seq<char>>(
                GuardsV { guards: guards.deep_view(), armed: armed.deep_view() },
            ),
        decreases order.len() - k,
    {
        let ghost g = guards.deep_view();
        let ghost a = armed.deep_view();
        let index: usize = order[k];
        let arrow = &machines[tag].arrows[index];
        assert(all[tag as int].arrows[index as int] == arrow.deep_view());
        match make_ready(machines, varying, tag, arrow) {
            Ok(ready) => {
                if arrow.immediate {
                    guards.push(ready);
                    assert(guards.deep_view() =~= g.push(ready.deep_view()));
                } else {
                    let kept = make_kept_name(tag, index);
                    let read = make_previous(kept.as_str());
                    let ghost pair = (kept@, ready.deep_view());
                    armed.push((kept, ready));
                    assert(armed.deep_view() =~= a.push(pair));
                    guards.push(read);
                    assert(guards.deep_view() =~= g.push(read.deep_view()));
                }
            },
            Err(why) => {
                proof {
                    lemma_guards_stop(
                        all,
                        names,
                        tag as nat,
                        order@,
                        (k + 1) as nat,
                        order@.len(),
                    );
                }
                return Err(why);
            },
        }
        k = k + 1;
    }
    Ok((guards, armed))
}

fn make_first_guard(guards: &Vec<Expr>, says: &Vec<Expr>, last: Expr) -> (r: Expr)
    requires
        guards.len() == says.len(),
    ensures
        r.deep_view() == first_guard(guards.deep_view(), says.deep_view(), last.deep_view(), 0),
{
    let ghost g = guards.deep_view();
    let ghost s = says.deep_view();
    let ghost end = last.deep_view();
    let mut out: Expr = last;
    let mut k: usize = guards.len();
    while k > 0
        invariant
            k <= guards.len(),
            guards.len() == says.len(),
            g == guards.deep_view(),
            s == says.deep_view(),
            out.deep_view() == first_guard(g, s, end, k as nat),
        decreases k,
    {
        k = k - 1;
        assert(g[k as int] == guards@[k as int].deep_view());
        assert(s[k as int] == says@[k as int].deep_view());
        out = make::either(guards[k].clone(), says[k].clone(), out);
    }
    out
}

fn make_leads(machine: &Machine, order: &Vec<usize>) -> (r: (Vec<Expr>, Vec<Expr>))
    requires
        forall|k: int| 0 <= k < order.len() ==> (#[trigger] order@[k]) < machine.arrows.len(),
    ensures
        r.0.deep_view() == leads_to(machine.deep_view(), order@),
        r.1.deep_view() == asks_reset(machine.deep_view(), order@),
{
    let ghost held = machine.deep_view();
    let mut to: Vec<Expr> = Vec::new();
    let mut resets: Vec<Expr> = Vec::new();
    let mut k: usize = 0;
    while k < order.len()
        invariant
            k <= order.len(),
            held == machine.deep_view(),
            forall|k: int| 0 <= k < order.len() ==> (#[trigger] order@[k]) < machine.arrows.len(),
            to.len() == k,
            resets.len() == k,
            forall|i: int| 0 <= i < k ==> (#[trigger] to@[i]).deep_view() == leads_to(held, order@)[i],
            forall|i: int|
                0 <= i < k ==> (#[trigger] resets@[i]).deep_view() == asks_reset(held, order@)[i],
        decreases order.len() - k,
    {
        let arrow = &machine.arrows[order[k]];
        assert(held.arrows[order@[k as int] as int] == arrow.deep_view());
        to.push(make_count(find_place(&machine.states, arrow.to.as_str())));
        resets.push(
            make::number(
                if arrow.reset {
                    one()
                } else {
                    zero()
                },
            ),
        );
        k = k + 1;
    }
    assert(to.deep_view() =~= leads_to(held, order@));
    assert(resets.deep_view() =~= asks_reset(held, order@));
    (to, resets)
}

fn make_first_tick(tag: usize) -> (r: Expr)
    ensures
        r.deep_view() == first_tick(tag as nat),
{
    let active = state_name(tag);
    make::rel(RelOp::Lt, make_previous(active.as_str()), make::number(zero()))
}

fn make_ticks_now(tag: usize) -> (r: Expr)
    ensures
        r.deep_view() == ticks_now(tag as nat),
{
    let active = state_name(tag);
    let ticks = ticks_name(tag);
    let before = make_previous(active.as_str());
    let same_state = make::rel(RelOp::Eq, make::name(active), before);
    let more = make::bin(BinOp::Add, make_previous(ticks.as_str()), make::number(one()));
    make::either(same_state, more, make::number(zero()))
}

fn make_restarted(outer: usize, at: usize) -> (r: Expr)
    ensures
        r.deep_view() == restarted(outer as nat, at as nat),
{
    let holder = state_name(outer);
    let elsewhere = make::not(make_was(holder.as_str(), at));
    let afresh = make::and(elsewhere, make_asked_reset(outer));
    make::and(make_is(holder, at), afresh)
}

fn make_armed_while(armed: Vec<(String, Expr)>, outer: usize, at: usize) -> (r: Vec<(String, Expr)>)
    ensures
        r.deep_view() == armed_while(
            armed.deep_view(),
            is_at(state_var(outer as nat), at as nat),
        ),
{
    let ghost all = armed.deep_view();
    let ghost alive = is_at(state_var(outer as nat), at as nat);
    let mut out: Vec<(String, Expr)> = Vec::new();
    let mut i: usize = 0;
    while i < armed.len()
        invariant
            i <= armed.len(),
            all == armed.deep_view(),
            alive == is_at(state_var(outer as nat), at as nat),
            out.len() == i,
            forall|k: int|
                0 <= k < i ==> (#[trigger] out@[k]).deep_view() == armed_while(all, alive)[k],
        decreases armed.len() - i,
    {
        assert(all[i as int] == armed@[i as int].deep_view());
        let while_alive = make::and(make_is(state_name(outer), at), armed[i].1.clone());
        out.push((armed[i].0.clone(), while_alive));
        i = i + 1;
    }
    assert(out.deep_view() =~= armed_while(all, alive));
    out
}

fn make_next(machine: &Machine, tag: usize, guards: &Vec<Expr>) -> (r: (Expr, Expr))
    requires
        guards.len() == machine.arrows.len(),
    ensures
        r.0.deep_view() == next_of(machine.deep_view(), tag as nat, guards.deep_view()),
        r.1.deep_view() == resets_of(machine.deep_view(), tag as nat, guards.deep_view()),
{
    let order = find_arrow_order(&machine.arrows);
    let (to, asks) = make_leads(machine, &order);
    assert(to.deep_view().len() == to.len());
    assert(asks.deep_view().len() == asks.len());
    let active = state_name(tag);
    let moves = make_first_guard(guards, &to, make_previous(active.as_str()));
    let next = make::either(make_first_tick(tag), make::number(zero()), moves);
    let put_back = make_first_guard(guards, &asks, make::number(zero()));
    let resets = make::either(make_first_tick(tag), make::number(one()), put_back);
    (next, resets)
}

fn make_free_steps(machine: &Machine, tag: usize, guards: &Vec<Expr>, armed: Vec<(String, Expr)>) -> (r:
    Vec<(String, Expr)>)
    requires
        guards.len() == machine.arrows.len(),
    ensures
        r.deep_view() == free_steps(
            machine.deep_view(),
            tag as nat,
            GuardsV { guards: guards.deep_view(), armed: armed.deep_view() },
        ),
        r.len() >= 3,
{
    let ghost made = GuardsV { guards: guards.deep_view(), armed: armed.deep_view() };
    let (next, resets) = make_next(machine, tag, guards);
    let mut out: Vec<(String, Expr)> = Vec::new();
    out.push((state_name(tag), next));
    out.push((reset_name(tag), resets));
    out.push((ticks_name(tag), make_ticks_now(tag)));
    let mut armed = armed;
    out.append(&mut armed);
    assert(out.deep_view() =~= free_steps(machine.deep_view(), tag as nat, made));
    out
}

fn make_inner_steps(
    machine: &Machine,
    tag: usize,
    guards: &Vec<Expr>,
    armed: Vec<(String, Expr)>,
    outer: usize,
    at: usize,
) -> (r: Vec<(String, Expr)>)
    requires
        guards.len() == machine.arrows.len(),
    ensures
        r.deep_view() == inner_steps(
            machine.deep_view(),
            tag as nat,
            GuardsV { guards: guards.deep_view(), armed: armed.deep_view() },
            outer as nat,
            at as nat,
        ),
        r.len() >= 3,
{
    let ghost made = GuardsV { guards: guards.deep_view(), armed: armed.deep_view() };
    let (next, resets) = make_next(machine, tag, guards);
    let active = state_name(tag);
    let counter = ticks_name(tag);
    let held = make::either(make_is(state_name(outer), at), next, make_previous(active.as_str()));
    let next = make::either(make_restarted(outer, at), make::number(zero()), held);
    let resets = make::either(make_is(state_name(outer), at), resets, make::number(zero()));
    let ticks = make::either(
        make_is(state_name(outer), at),
        make_ticks_now(tag),
        make_previous(counter.as_str()),
    );
    let mut out: Vec<(String, Expr)> = Vec::new();
    out.push((active, next));
    out.push((reset_name(tag), resets));
    out.push((counter, ticks));
    let mut armed = make_armed_while(armed, outer, at);
    out.append(&mut armed);
    assert(out.deep_view() =~= inner_steps(
        machine.deep_view(),
        tag as nat,
        made,
        outer as nat,
        at as nat,
    ));
    out
}

fn make_machine_steps(machines: &Vec<Machine>, varying: &Vec<String>, tag: usize) -> (r: Result<
    Vec<(String, Expr)>,
    String,
>)
    requires
        tag < machines.len(),
    ensures
        told(r) == machine_steps(machines.deep_view(), texts(varying@), tag as nat),
        r matches Ok(steps) ==> steps.len() >= 3,
{
    let ghost all = machines.deep_view();
    let ghost names = texts(varying@);
    let machine = &machines[tag];
    assert(all[tag as int] == machine.deep_view());
    let order = find_arrow_order(&machine.arrows);
    let (guards, armed) = match make_guards(machines, varying, tag, &order) {
        Ok(made) => made,
        Err(why) => {
            return Err(why);
        },
    };
    proof {
        lemma_guards_len(all, names, tag as nat, order@, order@.len());
        assert(guards.deep_view().len() == guards.len());
        assert(machine.deep_view().arrows.len() == machine.arrows.len());
    }
    match machine.inside {
        None => Ok(make_free_steps(machine, tag, &guards, armed)),
        Some((outer, at)) => Ok(make_inner_steps(machine, tag, &guards, armed, outer, at)),
    }
}

proof fn lemma_steps_stop(machines: Seq<MachineV>, varying: Seq<Seq<char>>, n: nat, all: nat)
    requires
        n <= all,
        all_steps(machines, varying, n) is Err,
    ensures
        all_steps(machines, varying, all) == all_steps(machines, varying, n),
    decreases all,
{
    if n < all {
        lemma_steps_stop(machines, varying, n, (all - 1) as nat);
    }
}

fn push_booked(out: &mut Vec<Component>, name: String, of_type: &str, start: Expr)
    ensures
        final(out).deep_view() == old(out).deep_view().push(
            booked(name@, of_type@, start.deep_view()),
        ),
{
    let ghost before = out.deep_view();
    let mut one = blank_component();
    one.name = name;
    one.of_type = of_type.to_owned();
    one.variability = Variability::Discrete;
    one.start = Some(start);
    one.description = Some("state machine bookkeeping".to_owned());
    assert(one.deep_view() == booked(name@, of_type@, start.deep_view()));
    out.push(one);
    assert(out.deep_view() =~= before.push(booked(name@, of_type@, start.deep_view())));
}

fn push_book(out: &mut Vec<Component>, tag: usize, steps: &Vec<(String, Expr)>)
    requires
        steps.len() >= 3,
    ensures
        final(out).deep_view() == old(out).deep_view() + machine_book(
            tag as nat,
            steps.deep_view(),
        ),
{
    let ghost was = out.deep_view();
    let ghost all = steps.deep_view();
    push_booked(out, state_name(tag), "Real", make::number(minus_one()));
    push_booked(out, ticks_name(tag), "Real", make::number(zero()));
    push_booked(out, reset_name(tag), "Real", make::number(zero()));
    let ghost aim = machine_book(tag as nat, all);
    let mut i: usize = 3;
    assert(out.deep_view() =~= was + aim.take(3));
    while i < steps.len()
        invariant
            3 <= i <= steps.len(),
            all == steps.deep_view(),
            aim == machine_book(tag as nat, all),
            out.deep_view() == was + aim.take(i as int),
        decreases steps.len() - i,
    {
        let ghost before = out.deep_view();
        assert(all[i as int] == steps@[i as int].deep_view());
        push_booked(out, steps[i].0.clone(), "Boolean", make::boolean(false));
        assert(aim[i as int] == booked(all[i as int].0, "Boolean"@, ExprV::Bool(false)));
        assert(out.deep_view() =~= was + aim.take(i + 1));
        i = i + 1;
    }
    assert(aim.take(i as int) =~= aim);
}

fn make_all_steps(machines: &Vec<Machine>, varying: &Vec<String>) -> (r: Result<
    (Vec<(String, Expr)>, Vec<Component>),
    String,
>)
    ensures
        match all_steps(machines.deep_view(), texts(varying@), machines@.len()) {
            Err(trouble) => r matches Err(why) && why@ == trouble,
            Ok(steps) => r matches Ok(made) && made.0.deep_view() == steps && made.1.deep_view()
                == whole_book(machines.deep_view(), texts(varying@), machines@.len()),
        },
{
    let ghost all = machines.deep_view();
    let ghost names = texts(varying@);
    let mut steps: Vec<(String, Expr)> = Vec::new();
    let mut book: Vec<Component> = Vec::new();
    let mut tag: usize = 0;
    assert(steps.deep_view() =~= Seq::empty());
    assert(book.deep_view() =~= Seq::empty());
    while tag < machines.len()
        invariant
            tag <= machines.len(),
            all == machines.deep_view(),
            names == texts(varying@),
            all_steps(all, names, tag as nat) == Ok::<Seq<(Seq<char>, ExprV)>, Seq<char>>(
                steps.deep_view(),
            ),
            book.deep_view() == whole_book(all, names, tag as nat),
        decreases machines.len() - tag,
    {
        let ghost before = steps.deep_view();
        match make_machine_steps(machines, varying, tag) {
            Ok(mut more) => {
                push_book(&mut book, tag, &more);
                let ghost added = more.deep_view();
                steps.append(&mut more);
                assert(steps.deep_view() =~= before + added);
            },
            Err(why) => {
                proof {
                    lemma_steps_stop(all, names, (tag + 1) as nat, machines@.len());
                }
                return Err(why);
            },
        }
        tag = tag + 1;
    }
    Ok((steps, book))
}


/// The start value of the last declaration of that name that has one.
pub open spec fn start_of(components: Seq<ComponentV>, name: Seq<char>) -> Option<ExprV>
    decreases components.len(),
{
    if components.len() == 0 {
        None
    } else if components.last().name == name && components.last().start is Some {
        components.last().start
    } else {
        start_of(components.drop_last(), name)
    }
}

fn find_start<'c>(components: &'c Vec<Component>, name: &str) -> (r: Option<&'c Expr>)
    ensures
        match r {
            Some(value) => start_of(components.deep_view(), name@) == Some(value.deep_view()),
            None => start_of(components.deep_view(), name@) is None,
        },
{
    let ghost all = components.deep_view();
    let mut i: usize = components.len();
    assert(all.take(i as int) =~= all);
    while i > 0
        invariant
            i <= components.len(),
            all == components.deep_view(),
            start_of(all, name@) == start_of(all.take(i as int), name@),
        decreases i,
    {
        let ghost here = all.take(i as int);
        i = i - 1;
        assert(here.drop_last() =~= all.take(i as int));
        assert(here.last() == components@[i as int].deep_view());
        if same(components[i].name.as_str(), name) {
            if let Some(value) = &components[i].start {
                return Some(value);
            }
        }
    }
    None
}

/// What a state's own variable holds: what the state computes while it is in
/// force, its start value on arrival where the arrow taken asked for that,
/// and otherwise what it held.
pub open spec fn guarded_value(
    target: Seq<char>,
    rhs: ExprV,
    tag: nat,
    at: nat,
    back_to: ExprV,
) -> ExprV {
    let in_force = is_at(state_var(tag), at);
    choice(
        both(
            both(in_force, ExprV::Not(Box::new(was_at(state_var(tag), at)))),
            asked_reset(tag),
        ),
        back_to,
        choice(in_force, rhs, previous_of(target)),
    )
}

fn make_guarded_value(target: &str, rhs: Expr, tag: usize, at: usize, back_to: Expr) -> (r: Expr)
    ensures
        r.deep_view() == guarded_value(
            target@,
            rhs.deep_view(),
            tag as nat,
            at as nat,
            back_to.deep_view(),
        ),
{
    let active = state_name(tag);
    let holding = make::either(make_is(state_name(tag), at), rhs, make_previous(target));
    let elsewhere = make::not(make_was(active.as_str(), at));
    let entered = make::and(make_is(active, at), elsewhere);
    let asked = make::and(entered, make_asked_reset(tag));
    make::either(asked, back_to, holding)
}

/// What the states say about a variable declared outside them: which machine,
/// which of its states, and the value it gives.
pub type SaidV = Seq<(usize, usize, ExprV)>;

/// One more thing said about a variable.
pub open spec fn said_more(
    shared: Seq<(Seq<char>, SaidV)>,
    name: Seq<char>,
    one: (usize, usize, ExprV),
    i: nat,
) -> Seq<(Seq<char>, SaidV)>
    decreases shared.len() - i,
{
    if i >= shared.len() {
        shared.push((name, seq![one]))
    } else if shared[i as int].0 == name {
        shared.update(i as int, (name, shared[i as int].1.push(one)))
    } else {
        said_more(shared, name, one, i + 1)
    }
}

/// What becomes of the equations: those that stand, guarded or not; what the
/// states say of variables outside them; and the variables that are clocked.
pub ghost struct SortedV {
    pub kept: Seq<EquationV>,
    pub shared: Seq<(Seq<char>, SaidV)>,
    pub clocked: Seq<Seq<char>>,
}

/// The same after one more equation.
pub open spec fn sorted_one(
    machines: Seq<MachineV>,
    varying: Seq<Seq<char>>,
    components: Seq<ComponentV>,
    before: SortedV,
    equation: EquationV,
) -> SortedV {
    match equation.lhs {
        ExprV::Ref(target) => match owner_of(machines, varying, target) {
            Some((tag, at)) => SortedV {
                kept: before.kept.push(
                    EquationV {
                        lhs: equation.lhs,
                        rhs: guarded_value(
                            target,
                            equation.rhs,
                            tag as nat,
                            at as nat,
                            match start_of(components, target) {
                                Some(value) => value,
                                None => ExprV::Number(zero()),
                            },
                        ),
                        origin: Seq::empty(),
                    },
                ),
                clocked: before.clocked.push(target),
                ..before
            },
            None => match innermost(machines, equation.origin, true, machines.len(), 0) {
                Some((tag, at)) => SortedV {
                    shared: said_more(before.shared, target, (tag, at, equation.rhs), 0),
                    ..before
                },
                None => SortedV { kept: before.kept.push(equation), ..before },
            },
        },
        _ => SortedV { kept: before.kept.push(equation), ..before },
    }
}

pub open spec fn sorted_out(
    machines: Seq<MachineV>,
    varying: Seq<Seq<char>>,
    components: Seq<ComponentV>,
    equations: Seq<EquationV>,
) -> SortedV
    decreases equations.len(),
{
    if equations.len() == 0 {
        SortedV { kept: Seq::empty(), shared: Seq::empty(), clocked: Seq::empty() }
    } else {
        sorted_one(
            machines,
            varying,
            components,
            sorted_out(machines, varying, components, equations.drop_last()),
            equations.last(),
        )
    }
}

/// The equations sorted out, as they are held.
struct Sorted {
    kept: Vec<EquationItem>,
    shared: Vec<(String, Vec<(usize, usize, Expr)>)>,
    clocked: Vec<String>,
}

impl DeepView for Sorted {
    type V = SortedV;

    closed spec fn deep_view(&self) -> SortedV {
        SortedV {
            kept: self.kept.deep_view(),
            shared: self.shared.deep_view(),
            clocked: texts(self.clocked@),
        }
    }
}

fn say_more(
    shared: &mut Vec<(String, Vec<(usize, usize, Expr)>)>,
    name: &String,
    tag: usize,
    at: usize,
    rhs: Expr,
)
    ensures
        final(shared).deep_view() == said_more(
            old(shared).deep_view(),
            name@,
            (tag, at, rhs.deep_view()),
            0,
        ),
{
    let ghost all = shared.deep_view();
    let ghost said = (tag, at, rhs.deep_view());
    let mut i: usize = 0;
    while i < shared.len()
        invariant
            i <= shared.len(),
            all == shared.deep_view(),
            all == old(shared).deep_view(),
            said == (tag, at, rhs.deep_view()),
            said_more(all, name@, said, 0) == said_more(all, name@, said, i as nat),
        decreases shared.len() - i,
    {
        assert(all[i as int] == shared@[i as int].deep_view());
        if same(shared[i].0.as_str(), name.as_str()) {
            let (held, mut says) = shared.remove(i);
            let ghost before = says.deep_view();
            says.push((tag, at, rhs));
            assert(says.deep_view() =~= before.push(said));
            shared.insert(i, (held, says));
            assert(shared.deep_view() =~= all.update(i as int, (name@, before.push(said))));
            return;
        }
        i = i + 1;
    }
    let mut says: Vec<(usize, usize, Expr)> = Vec::new();
    says.push((tag, at, rhs));
    assert(says.deep_view() =~= seq![said]);
    shared.push((name.clone(), says));
    assert(shared.deep_view() =~= all.push((name@, seq![said])));
}

fn sort_one(
    machines: &Vec<Machine>,
    varying: &Vec<String>,
    components: &Vec<Component>,
    sorted: &mut Sorted,
    equation: &EquationItem,
)
    ensures
        final(sorted).deep_view() == sorted_one(
            machines.deep_view(),
            texts(varying@),
            components.deep_view(),
            old(sorted).deep_view(),
            equation.deep_view(),
        ),
{
    let ghost was = sorted.deep_view();
    if let Expr::Ref(target) = &equation.lhs {
        match find_owner(machines, varying, target.as_str()) {
            Some((tag, at)) => {
                let back_to: Expr = match find_start(components, target.as_str()) {
                    Some(value) => value.clone(),
                    None => make::number(zero()),
                };
                let rhs = make_guarded_value(
                    target.as_str(),
                    equation.rhs.clone(),
                    tag,
                    at,
                    back_to,
                );
                let one = EquationItem { lhs: equation.lhs.clone(), rhs, origin: String::new() };
                assert(one.origin@ =~= Seq::empty());
                let ghost kept = one.deep_view();
                sorted.kept.push(one);
                assert(sorted.kept.deep_view() =~= was.kept.push(kept));
                sorted.clocked.push(target.clone());
                assert(texts(sorted.clocked@) =~= was.clocked.push(target@));
                return;
            },
            None => {
                if let Some((tag, at)) = find_innermost(machines, equation.origin.as_str(), true) {
                    say_more(&mut sorted.shared, target, tag, at, equation.rhs.clone());
                    return;
                }
            },
        }
    }
    sorted.kept.push(equation.clone());
    assert(sorted.kept.deep_view() =~= was.kept.push(equation.deep_view()));
}

fn sort_out(
    machines: &Vec<Machine>,
    varying: &Vec<String>,
    components: &Vec<Component>,
    equations: &Vec<EquationItem>,
) -> (r: Sorted)
    ensures
        r.deep_view() == sorted_out(
            machines.deep_view(),
            texts(varying@),
            components.deep_view(),
            equations.deep_view(),
        ),
{
    let ghost all = equations.deep_view();
    let mut sorted = Sorted { kept: Vec::new(), shared: Vec::new(), clocked: Vec::new() };
    let mut i: usize = 0;
    assert(sorted.kept.deep_view() =~= Seq::empty());
    assert(sorted.shared.deep_view() =~= Seq::empty());
    assert(texts(sorted.clocked@) =~= Seq::empty());
    assert(all.take(0) =~= Seq::empty());
    while i < equations.len()
        invariant
            i <= equations.len(),
            all == equations.deep_view(),
            sorted.deep_view() == sorted_out(
                machines.deep_view(),
                texts(varying@),
                components.deep_view(),
                all.take(i as int),
            ),
        decreases equations.len() - i,
    {
        assert(all.take(i + 1).drop_last() =~= all.take(i as int));
        sort_one(machines, varying, components, &mut sorted, &equations[i]);
        i = i + 1;
    }
    assert(all.take(i as int) =~= all);
    sorted
}

/// Whichever state is in force has its say, and where none is the variable
/// keeps what it held.
pub open spec fn said_value(target: Seq<char>, says: SaidV, k: nat) -> ExprV
    decreases says.len() - k,
{
    if k >= says.len() {
        previous_of(target)
    } else {
        choice(
            is_at(state_var(says[k as int].0 as nat), says[k as int].1 as nat),
            says[k as int].2,
            said_value(target, says, k + 1),
        )
    }
}

/// Whether an equation defines a variable.
pub open spec fn is_defined(equations: Seq<EquationV>, name: Seq<char>) -> bool {
    exists|i: int| 0 <= i < equations.len() && (#[trigger] equations[i]).lhs == ExprV::Ref(name)
}

/// The equations with one more definition for each of the first `n` variables
/// that states have a say in.
pub open spec fn with_shared(
    equations: Seq<EquationV>,
    shared: Seq<(Seq<char>, SaidV)>,
    n: nat,
) -> Result<Seq<EquationV>, Seq<char>>
    decreases n,
{
    if n == 0 {
        Ok(equations)
    } else {
        match with_shared(equations, shared, (n - 1) as nat) {
            Err(why) => Err(why),
            Ok(before) => {
                let target = shared[n - 1].0;
                if is_defined(before, target) {
                    Err(
                        "`"@ + target
                            + "` is written both inside a state and outside every state, and a variable has one definition"@,
                    )
                } else {
                    Ok(
                        before.push(
                            EquationV {
                                lhs: ExprV::Ref(target),
                                rhs: said_value(target, shared[n - 1].1, 0),
                                origin: Seq::empty(),
                            },
                        ),
                    )
                }
            },
        }
    }
}

proof fn lemma_shared_stop(
    equations: Seq<EquationV>,
    shared: Seq<(Seq<char>, SaidV)>,
    n: nat,
    all: nat,
)
    requires
        n <= all,
        with_shared(equations, shared, n) is Err,
    ensures
        with_shared(equations, shared, all) == with_shared(equations, shared, n),
    decreases all,
{
    if n < all {
        lemma_shared_stop(equations, shared, n, (all - 1) as nat);
    }
}

fn defines(equations: &Vec<EquationItem>, name: &str) -> (r: bool)
    ensures
        r == is_defined(equations.deep_view(), name@),
{
    let ghost all = equations.deep_view();
    let mut i: usize = 0;
    while i < equations.len()
        invariant
            i <= equations.len(),
            all == equations.deep_view(),
            forall|k: int| 0 <= k < i ==> (#[trigger] all[k]).lhs != ExprV::Ref(name@),
        decreases equations.len() - i,
    {
        assert(all[i as int] == equations@[i as int].deep_view());
        if let Expr::Ref(held) = &equations[i].lhs {
            if same(held.as_str(), name) {
                assert(all[i as int].lhs == ExprV::Ref(name@));
                return true;
            }
        }
        i = i + 1;
    }
    false
}

fn make_said_value(target: &str, says: &Vec<(usize, usize, Expr)>) -> (r: Expr)
    ensures
        r.deep_view() == said_value(target@, says.deep_view(), 0),
{
    let ghost all = says.deep_view();
    let mut out: Expr = make_previous(target);
    let mut k: usize = says.len();
    while k > 0
        invariant
            k <= says.len(),
            all == says.deep_view(),
            out.deep_view() == said_value(target@, all, k as nat),
        decreases k,
    {
        k = k - 1;
        assert(all[k as int] == says@[k as int].deep_view());
        out = make::either(make_is(state_name(says[k].0), says[k].1), says[k].2.clone(), out);
    }
    out
}

fn merge_shared(
    equations: &mut Vec<EquationItem>,
    shared: &Vec<(String, Vec<(usize, usize, Expr)>)>,
) -> (r: Result<(), String>)
    ensures
        match with_shared(old(equations).deep_view(), shared.deep_view(), shared@.len()) {
            Err(trouble) => r matches Err(why) && why@ == trouble,
            Ok(made) => r is Ok && final(equations).deep_view() == made,
        },
{
    let ghost was = equations.deep_view();
    let ghost all = shared.deep_view();
    let mut n: usize = 0;
    while n < shared.len()
        invariant
            n <= shared.len(),
            was == old(equations).deep_view(),
            all == shared.deep_view(),
            with_shared(was, all, n as nat) == Ok::<Seq<EquationV>, Seq<char>>(
                equations.deep_view(),
            ),
        decreases shared.len() - n,
    {
        let ghost before = equations.deep_view();
        assert(all[n as int] == shared@[n as int].deep_view());
        let target = &shared[n].0;
        if defines(equations, target.as_str()) {
            proof {
                lemma_shared_stop(was, all, (n + 1) as nat, shared@.len());
            }
            return Err(
                join3(
                    "`",
                    target.as_str(),
                    "` is written both inside a state and outside every state, and a variable has one definition",
                ),
            );
        }
        let rhs = make_said_value(target.as_str(), &shared[n].1);
        let one = EquationItem { lhs: make::name(target.clone()), rhs, origin: String::new() };
        assert(one.origin@ =~= Seq::empty());
        let ghost made = one.deep_view();
        equations.push(one);
        assert(equations.deep_view() =~= before.push(made));
        n = n + 1;
    }
    Ok(())
}

/// Which machine and which of its states every state is, of the first `tag`
/// machines and the first `at` states of the next.
pub open spec fn states_named(machines: Seq<MachineV>, tag: nat, at: nat) -> Map<
    Seq<char>,
    (usize, usize),
>
    decreases tag, at,
{
    if at > 0 && tag < machines.len() && at <= machines[tag as int].states.len() {
        states_named(machines, tag, (at - 1) as nat).insert(
            machines[tag as int].states[at - 1],
            (tag as usize, (at - 1) as usize),
        )
    } else if tag > 0 && tag <= machines.len() {
        states_named(machines, (tag - 1) as nat, machines[tag - 1].states.len())
    } else {
        Map::empty()
    }
}

fn name_states(machines: &Vec<Machine>) -> (r: Table<(usize, usize)>)
    ensures
        r.deep_view() == states_named(machines.deep_view(), machines@.len(), 0),
{
    let ghost all = machines.deep_view();
    let mut out: Table<(usize, usize)> = Table::new();
    let mut tag: usize = 0;
    while tag < machines.len()
        invariant
            tag <= machines.len(),
            all == machines.deep_view(),
            out.deep_view() == states_named(all, tag as nat, 0),
        decreases machines.len() - tag,
    {
        let machine = &machines[tag];
        assert(all[tag as int] == machine.deep_view());
        let mut at: usize = 0;
        while at < machine.states.len()
            invariant
                tag < machines.len(),
                at <= machine.states.len(),
                all == machines.deep_view(),
                all[tag as int] == machine.deep_view(),
                out.deep_view() == states_named(all, tag as nat, at as nat),
            decreases machine.states.len() - at,
        {
            assert(all[tag as int].states[at as int] == machine.states@[at as int]@);
            out.put(machine.states[at].clone(), (tag, at));
            at = at + 1;
        }
        tag = tag + 1;
    }
    out
}

/// The machine that an equation is asked inside, where it is inside one.
pub open spec fn asked_in(machines: Seq<MachineV>, varying: Seq<Seq<char>>, lhs: ExprV) -> Option<
    usize,
> {
    match lhs {
        ExprV::Ref(target) => match owner_of(machines, varying, target) {
            Some((tag, _)) => Some(tag),
            None => None,
        },
        _ => None,
    }
}

/// The ticks of the machine that a question is about.
pub open spec fn ticks_asked(machines: Seq<MachineV>, varying: Seq<Seq<char>>, lhs: ExprV) -> Seq<
    char,
> {
    match asked_in(machines, varying, lhs) {
        Some(tag) => ticks_var(tag as nat),
        None => ticks_var(0),
    }
}

/// Whether an equation asks about a machine and is inside none, where there
/// are several to be meant.
pub open spec fn asks_outside(machines: Seq<MachineV>, varying: Seq<Seq<char>>, e: EquationV) -> bool {
    asked_in(machines, varying, e.lhs) is None && machines.len() > 1 && (mentions(
        e.rhs,
        "ticksInState"@,
    ) || mentions(e.rhs, "timeInState"@))
}

/// An equation with what it asks about the machines answered.
pub open spec fn asked_and_answered(
    machines: Seq<MachineV>,
    varying: Seq<Seq<char>>,
    period: Number,
    e: EquationV,
) -> EquationV {
    EquationV {
        rhs: queried(
            e.rhs,
            states_named(machines, machines.len(), 0),
            ticks_asked(machines, varying, e.lhs),
            period,
        ),
        ..e
    }
}

/// The machines' own equations, with what they ask answered.
pub open spec fn step_equations(
    machines: Seq<MachineV>,
    varying: Seq<Seq<char>>,
    period: Number,
    steps: Seq<(Seq<char>, ExprV)>,
) -> Seq<EquationV> {
    Seq::new(
        steps.len(),
        |i: int|
            asked_and_answered(
                machines,
                varying,
                period,
                EquationV {
                    lhs: ExprV::Ref(steps[i].0),
                    rhs: steps[i].1,
                    origin: Seq::empty(),
                },
            ),
    )
}

fn find_asked_in(machines: &Vec<Machine>, varying: &Vec<String>, lhs: &Expr) -> (r: Option<usize>)
    ensures
        r == asked_in(machines.deep_view(), texts(varying@), lhs.deep_view()),
{
    match lhs {
        Expr::Ref(target) => match find_owner(machines, varying, target.as_str()) {
            Some((tag, _)) => Some(tag),
            None => None,
        },
        _ => None,
    }
}

fn answer_equation(
    machines: &Vec<Machine>,
    varying: &Vec<String>,
    named: &Table<(usize, usize)>,
    period: Number,
    equation: &EquationItem,
) -> (r: EquationItem)
    requires
        named.deep_view() == states_named(machines.deep_view(), machines@.len(), 0),
    ensures
        r.deep_view() == asked_and_answered(
            machines.deep_view(),
            texts(varying@),
            period,
            equation.deep_view(),
        ),
{
    let tag: usize = match find_asked_in(machines, varying, &equation.lhs) {
        Some(tag) => tag,
        None => 0,
    };
    let ticks = ticks_name(tag);
    let rhs = machine_queries(&equation.rhs, named, ticks.as_str(), period);
    EquationItem { lhs: equation.lhs.clone(), rhs, origin: equation.origin.clone() }
}

/// The variables that vary: what is settled before the run does not.
pub open spec fn varying_of(components: Seq<ComponentV>) -> Seq<Seq<char>>
    decreases components.len(),
{
    if components.len() == 0 {
        Seq::empty()
    } else {
        let before = varying_of(components.drop_last());
        let last = components.last();
        if last.variability == Variability::Parameter || last.variability == Variability::Constant {
            before
        } else {
            before.push(last.name)
        }
    }
}

pub fn find_varying(components: &Vec<Component>) -> (r: Vec<String>)
    ensures
        texts(r@) == varying_of(components.deep_view()),
{
    let ghost all = components.deep_view();
    let mut out: Vec<String> = Vec::new();
    let mut i: usize = 0;
    assert(texts(out@) =~= varying_of(all.take(0)));
    while i < components.len()
        invariant
            i <= components.len(),
            all == components.deep_view(),
            texts(out@) == varying_of(all.take(i as int)),
        decreases components.len() - i,
    {
        let ghost before = texts(out@);
        assert(all.take(i + 1).drop_last() =~= all.take(i as int));
        assert(all[i as int] == components@[i as int].deep_view());
        if !matches!(
            components[i].variability,
            Variability::Parameter | Variability::Constant
        ) {
            out.push(components[i].name.clone());
            assert(texts(out@) =~= before.push(all[i as int].name));
        }
        i = i + 1;
    }
    assert(all.take(i as int) =~= all);
    out
}

/// Whether a state is a component with something in it.
pub open spec fn is_filled(components: Seq<ComponentV>, state: Seq<char>) -> bool {
    exists|i: int|
        0 <= i < components.len() && begins_with((#[trigger] components[i]).name, state + "."@)
}

/// The first state from the `i`-th on that has nothing in it.
pub open spec fn first_empty(
    components: Seq<ComponentV>,
    states: Seq<Seq<char>>,
    i: nat,
) -> Option<Seq<char>>
    decreases states.len() - i,
{
    if i >= states.len() {
        None
    } else if !is_filled(components, states[i as int]) {
        Some(states[i as int])
    } else {
        first_empty(components, states, i + 1)
    }
}

/// Whether an arrow has one after it that leaves the same state with the same
/// priority.
pub open spec fn is_undecided(arrows: Seq<TransitionV>, i: int) -> bool {
    exists|k: int|
        i < k < arrows.len() && (#[trigger] arrows[k]).from == arrows[i].from && arrows[k].priority
            == arrows[i].priority
}

/// The first arrow from the `i`-th on that has such a one after it.
pub open spec fn first_undecided(arrows: Seq<TransitionV>, i: nat) -> Option<nat>
    decreases arrows.len() - i,
{
    if i >= arrows.len() {
        None
    } else if is_undecided(arrows, i as int) {
        Some(i)
    } else {
        first_undecided(arrows, i + 1)
    }
}

/// What is wrong with a machine: a state with nothing in it, or two arrows
/// that nothing decides between.
pub open spec fn machine_trouble(components: Seq<ComponentV>, machine: MachineV) -> Option<
    Seq<char>,
> {
    match first_empty(components, machine.states, 0) {
        Some(state) => Some(
            "`"@ + state + "` is named as a state but is not a component with anything in it"@,
        ),
        None => match first_undecided(machine.arrows, 0) {
            Some(i) => Some(
                "two arrows leave `"@ + machine.arrows[i as int].from + "` with priority "@
                    + signed(machine.arrows[i as int].priority as int)
                    + ", and the one to take is then nobody's decision"@,
            ),
            None => None,
        },
    }
}

/// What is wrong with the first machine from the `i`-th on that has something
/// wrong with it.
pub open spec fn machines_trouble(
    components: Seq<ComponentV>,
    machines: Seq<MachineV>,
    i: nat,
) -> Option<Seq<char>>
    decreases machines.len() - i,
{
    if i >= machines.len() {
        None
    } else {
        match machine_trouble(components, machines[i as int]) {
            Some(why) => Some(why),
            None => machines_trouble(components, machines, i + 1),
        }
    }
}

fn fills(components: &Vec<Component>, state: &str) -> (r: bool)
    ensures
        r == is_filled(components.deep_view(), state@),
{
    let under = join2(state, ".");
    let ghost all = components.deep_view();
    let mut i: usize = 0;
    while i < components.len()
        invariant
            i <= components.len(),
            all == components.deep_view(),
            under@ == state@ + "."@,
            forall|k: int| 0 <= k < i ==> !begins_with((#[trigger] all[k]).name, under@),
        decreases components.len() - i,
    {
        assert(all[i as int] == components@[i as int].deep_view());
        if starts(components[i].name.as_str(), under.as_str()) {
            assert(begins_with(all[i as int].name, under@));
            return true;
        }
        i = i + 1;
    }
    false
}

fn undecided(arrows: &Vec<Transition>, i: usize) -> (r: bool)
    requires
        i < arrows.len(),
    ensures
        r == is_undecided(arrows.deep_view(), i as int),
{
    let ghost all = arrows.deep_view();
    assert(all[i as int] == arrows@[i as int].deep_view());
    let mut k: usize = i + 1;
    while k < arrows.len()
        invariant
            i < k <= arrows.len(),
            all == arrows.deep_view(),
            all[i as int] == arrows@[i as int].deep_view(),
            forall|j: int|
                i < j < k ==> !((#[trigger] all[j]).from == all[i as int].from && all[j].priority
                    == all[i as int].priority),
        decreases arrows.len() - k,
    {
        assert(all[k as int] == arrows@[k as int].deep_view());
        if arrows[k].from == arrows[i].from && arrows[k].priority == arrows[i].priority {
            assert(all[k as int].from == all[i as int].from);
            return true;
        }
        k = k + 1;
    }
    false
}

fn find_machine_trouble(components: &Vec<Component>, machine: &Machine) -> (r: Option<String>)
    ensures
        r.deep_view() == machine_trouble(components.deep_view(), machine.deep_view()),
{
    let ghost held = machine.deep_view();
    let ghost all = components.deep_view();
    let mut i: usize = 0;
    while i < machine.states.len()
        invariant
            i <= machine.states.len(),
            held == machine.deep_view(),
            all == components.deep_view(),
            first_empty(all, held.states, 0) == first_empty(all, held.states, i as nat),
        decreases machine.states.len() - i,
    {
        assert(held.states[i as int] == machine.states@[i as int]@);
        if !fills(components, machine.states[i].as_str()) {
            return Some(
                join3(
                    "`",
                    machine.states[i].as_str(),
                    "` is named as a state but is not a component with anything in it",
                ),
            );
        }
        i = i + 1;
    }
    let mut i: usize = 0;
    while i < machine.arrows.len()
        invariant
            i <= machine.arrows.len(),
            held == machine.deep_view(),
            all == components.deep_view(),
            first_empty(all, held.states, 0) is None,
            first_undecided(held.arrows, 0) == first_undecided(held.arrows, i as nat),
        decreases machine.arrows.len() - i,
    {
        assert(held.arrows[i as int] == machine.arrows@[i as int].deep_view());
        if undecided(&machine.arrows, i) {
            let priority = whole(machine.arrows[i].priority);
            return Some(
                join5(
                    "two arrows leave `",
                    machine.arrows[i].from.as_str(),
                    "` with priority ",
                    priority.as_str(),
                    ", and the one to take is then nobody's decision",
                ),
            );
        }
        i = i + 1;
    }
    None
}

/// The clock of everything that is clocked.
pub open spec fn clocked_by(
    clocks: Map<Seq<char>, usize>,
    names: Seq<Seq<char>>,
    clock: usize,
) -> Map<Seq<char>, usize>
    decreases names.len(),
{
    if names.len() == 0 {
        clocks
    } else {
        clocked_by(clocks, names.drop_last(), clock).insert(names.last(), clock)
    }
}

fn put_clocks(clock_of: &mut Table<usize>, names: &Vec<String>, clock: usize)
    ensures
        final(clock_of).deep_view() == clocked_by(old(clock_of).deep_view(), texts(names@), clock),
{
    let ghost was = clock_of.deep_view();
    let ghost all = texts(names@);
    let mut i: usize = 0;
    assert(all.take(0) =~= Seq::empty());
    while i < names.len()
        invariant
            i <= names.len(),
            all == texts(names@),
            clock_of.deep_view() == clocked_by(was, all.take(i as int), clock),
        decreases names.len() - i,
    {
        assert(all.take(i + 1).drop_last() =~= all.take(i as int));
        clock_of.put(names[i].clone(), clock);
        i = i + 1;
    }
    assert(all.take(i as int) =~= all);
}

pub open spec fn component_names(list: Seq<ComponentV>) -> Seq<Seq<char>> {
    Seq::new(list.len(), |i: int| list[i].name)
}

pub open spec fn shared_names(list: Seq<(Seq<char>, SaidV)>) -> Seq<Seq<char>> {
    Seq::new(list.len(), |i: int| list[i].0)
}

/// What building the machines of a model comes to: the variables it adds, the
/// equations it leaves, and the variables it clocks.
pub ghost struct SteppedV {
    pub added: Seq<ComponentV>,
    pub equations: Seq<EquationV>,
    pub clocked: Seq<Seq<char>>,
}

/// Whether any equation asks how long a state has been held.
pub open spec fn asks_for_time(equations: Seq<EquationV>) -> bool {
    exists|i: int|
        0 <= i < equations.len() && mentions((#[trigger] equations[i]).rhs, "timeInState"@)
}

/// The same, for a model whose machines are found to be in order.
pub open spec fn stepped_through(
    machines: Seq<MachineV>,
    components: Seq<ComponentV>,
    equations: Seq<EquationV>,
    period: Number,
) -> Result<SteppedV, Seq<char>> {
    let varying = varying_of(components);
    match all_steps(machines, varying, machines.len()) {
        Err(why) => Err(why),
        Ok(steps) => {
            let added = whole_book(machines, varying, machines.len());
            let sorted = sorted_out(machines, varying, components + added, equations);
            match with_shared(sorted.kept, sorted.shared, sorted.shared.len()) {
                Err(why) => Err(why),
                Ok(merged) => if exists|i: int|
                    0 <= i < merged.len() && asks_outside(
                        machines,
                        varying,
                        #[trigger] merged[i],
                    ) {
                    Err(
                        "`ticksInState` and `timeInState` are about the machine they are asked inside, and this model has more than one - ask them among a state's own equations"@,
                    )
                } else {
                    Ok(
                        SteppedV {
                            added,
                            equations: Seq::new(
                                merged.len(),
                                |i: int| asked_and_answered(machines, varying, period, merged[i]),
                            ) + step_equations(machines, varying, period, steps),
                            clocked: component_names(added) + sorted.clocked + shared_names(
                                sorted.shared,
                            ),
                        },
                    )
                },
            }
        },
    }
}

/// What building the machines of a model comes to. `clock` is the one clock
/// that is named, where there is exactly one, `clocks` how many there are,
/// and `period` how far apart its ticks are, where they are evenly apart.
pub open spec fn stepped(
    model: ModelV,
    clock: Option<usize>,
    clocks: nat,
    period: Option<Number>,
) -> Result<SteppedV, Seq<char>> {
    let components = model.components;
    let equations = model.equations;
    if clock is None {
        Err(
            "a state machine runs on a clock, and this model declares "@ + digits(clocks)
                + " of them"@,
        )
    } else if period is None && asks_for_time(equations) {
        Err(
            "`timeInState` counts periods, and this machine's clock ticks on an event rather than on a period - `ticksInState` is what it can answer"@,
        )
    } else {
        match partitioned(model.transitions, model.initial_states) {
            Err(why) => Err(why),
            Ok(machines) => match machines_trouble(components, machines, 0) {
                Some(why) => Err(why),
                None => stepped_through(
                    machines,
                    components,
                    equations,
                    match period {
                        Some(period) => period,
                        None => zero(),
                    },
                ),
            },
        }
    }
}


fn find_machines_trouble(components: &Vec<Component>, machines: &Vec<Machine>) -> (r: Option<
    String,
>)
    ensures
        r.deep_view() == machines_trouble(components.deep_view(), machines.deep_view(), 0),
{
    let ghost all = machines.deep_view();
    let ghost held = components.deep_view();
    let mut i: usize = 0;
    while i < machines.len()
        invariant
            i <= machines.len(),
            all == machines.deep_view(),
            held == components.deep_view(),
            machines_trouble(held, all, 0) == machines_trouble(held, all, i as nat),
        decreases machines.len() - i,
    {
        assert(all[i as int] == machines@[i as int].deep_view());
        if let Some(why) = find_machine_trouble(components, &machines[i]) {
            return Some(why);
        }
        i = i + 1;
    }
    None
}

fn any_asks_for_time(equations: &Vec<EquationItem>) -> (r: bool)
    ensures
        r == asks_for_time(equations.deep_view()),
{
    let ghost all = equations.deep_view();
    let mut i: usize = 0;
    while i < equations.len()
        invariant
            i <= equations.len(),
            all == equations.deep_view(),
            forall|k: int| 0 <= k < i ==> !mentions((#[trigger] all[k]).rhs, "timeInState"@),
        decreases equations.len() - i,
    {
        assert(all[i as int] == equations@[i as int].deep_view());
        if mentions_call(&equations[i].rhs, "timeInState") {
            assert(mentions(all[i as int].rhs, "timeInState"@));
            return true;
        }
        i = i + 1;
    }
    false
}

/// Every equation with what it asks answered, or `None` where one asks from
/// outside of several machines.
fn answer_all(
    machines: &Vec<Machine>,
    varying: &Vec<String>,
    named: &Table<(usize, usize)>,
    period: Number,
    equations: &Vec<EquationItem>,
) -> (r: Option<Vec<EquationItem>>)
    requires
        named.deep_view() == states_named(machines.deep_view(), machines@.len(), 0),
    ensures
        match r {
            Some(made) => {
                &&& forall|i: int|
                    0 <= i < equations@.len() ==> !asks_outside(
                        machines.deep_view(),
                        texts(varying@),
                        #[trigger] equations.deep_view()[i],
                    )
                &&& made.deep_view() == Seq::new(
                    equations@.len(),
                    |i: int|
                        asked_and_answered(
                            machines.deep_view(),
                            texts(varying@),
                            period,
                            equations.deep_view()[i],
                        ),
                )
            },
            None => exists|i: int|
                0 <= i < equations@.len() && asks_outside(
                    machines.deep_view(),
                    texts(varying@),
                    #[trigger] equations.deep_view()[i],
                ),
        },
{
    let ghost all = equations.deep_view();
    let ghost held = machines.deep_view();
    let ghost vary = texts(varying@);
    let mut out: Vec<EquationItem> = Vec::new();
    let mut i: usize = 0;
    while i < equations.len()
        invariant
            i <= equations.len(),
            out@.len() == i,
            all == equations.deep_view(),
            held == machines.deep_view(),
            vary == texts(varying@),
            named.deep_view() == states_named(held, machines@.len(), 0),
            forall|k: int| 0 <= k < i ==> !asks_outside(held, vary, #[trigger] all[k]),
            forall|k: int|
                0 <= k < i ==> (#[trigger] out@[k]).deep_view() == asked_and_answered(
                    held,
                    vary,
                    period,
                    all[k],
                ),
        decreases equations.len() - i,
    {
        let one = &equations[i];
        assert(all[i as int] == one.deep_view());
        if machines.len() > 1 && find_asked_in(machines, varying, &one.lhs).is_none() && (
        mentions_call(&one.rhs, "ticksInState") || mentions_call(&one.rhs, "timeInState")) {
            assert(asks_outside(held, vary, all[i as int]));
            return None;
        }
        assert(!asks_outside(held, vary, all[i as int]));
        out.push(answer_equation(machines, varying, named, period, one));
        i = i + 1;
    }
    Some(out)
}

fn add_steps(
    machines: &Vec<Machine>,
    varying: &Vec<String>,
    named: &Table<(usize, usize)>,
    period: Number,
    steps: &Vec<(String, Expr)>,
    equations: &mut Vec<EquationItem>,
)
    requires
        named.deep_view() == states_named(machines.deep_view(), machines@.len(), 0),
    ensures
        final(equations).deep_view() == old(equations).deep_view() + step_equations(
            machines.deep_view(),
            texts(varying@),
            period,
            steps.deep_view(),
        ),
{
    let ghost was = equations.deep_view();
    let ghost all = steps.deep_view();
    let ghost held = machines.deep_view();
    let ghost vary = texts(varying@);
    let ghost made = step_equations(held, vary, period, all);
    let mut i: usize = 0;
    assert(was + made.take(0) =~= was);
    while i < steps.len()
        invariant
            i <= steps.len(),
            all == steps.deep_view(),
            held == machines.deep_view(),
            vary == texts(varying@),
            made == step_equations(held, vary, period, all),
            named.deep_view() == states_named(held, machines@.len(), 0),
            equations.deep_view() == was + made.take(i as int),
        decreases steps.len() - i,
    {
        let ghost before = equations.deep_view();
        let step = &steps[i];
        assert(all[i as int] == step.deep_view());
        let one = EquationItem {
            lhs: make::name(step.0.clone()),
            rhs: step.1.clone(),
            origin: String::new(),
        };
        assert(one.origin@ =~= Seq::empty());
        let done = answer_equation(machines, varying, named, period, &one);
        assert(done.deep_view() == made[i as int]);
        equations.push(done);
        assert(equations.deep_view() =~= before.push(made[i as int]));
        assert(before.push(made[i as int]) =~= was + made.take(i + 1));
        i = i + 1;
    }
    assert(made.take(i as int) =~= made);
}

fn names_of_components(list: &Vec<Component>) -> (r: Vec<String>)
    ensures
        texts(r@) == component_names(list.deep_view()),
{
    let mut out: Vec<String> = Vec::new();
    let mut i: usize = 0;
    while i < list.len()
        invariant
            i <= list.len(),
            out@.len() == i,
            forall|k: int| 0 <= k < i ==> (#[trigger] out@[k])@ == list.deep_view()[k].name,
        decreases list.len() - i,
    {
        assert(list.deep_view()[i as int] == list@[i as int].deep_view());
        out.push(list[i].name.clone());
        i = i + 1;
    }
    assert(texts(out@) =~= component_names(list.deep_view()));
    out
}

fn names_of_shared(list: &Vec<(String, Vec<(usize, usize, Expr)>)>) -> (r: Vec<String>)
    ensures
        texts(r@) == shared_names(list.deep_view()),
{
    let mut out: Vec<String> = Vec::new();
    let mut i: usize = 0;
    while i < list.len()
        invariant
            i <= list.len(),
            out@.len() == i,
            forall|k: int| 0 <= k < i ==> (#[trigger] out@[k])@ == list.deep_view()[k].0,
        decreases list.len() - i,
    {
        assert(list.deep_view()[i as int] == list@[i as int].deep_view());
        out.push(list[i].0.clone());
        i = i + 1;
    }
    assert(texts(out@) =~= shared_names(list.deep_view()));
    out
}

/// What building the machines comes to, as it is held.
struct Stepped {
    added: Vec<Component>,
    equations: Vec<EquationItem>,
    clocked: Vec<String>,
}

impl DeepView for Stepped {
    type V = SteppedV;

    closed spec fn deep_view(&self) -> SteppedV {
        SteppedV {
            added: self.added.deep_view(),
            equations: self.equations.deep_view(),
            clocked: texts(self.clocked@),
        }
    }
}

fn copy_components(list: &Vec<Component>) -> (r: Vec<Component>)
    ensures
        r.deep_view() == list.deep_view(),
{
    let mut out: Vec<Component> = Vec::new();
    let mut i: usize = 0;
    while i < list.len()
        invariant
            i <= list.len(),
            out@.len() == i,
            forall|k: int| 0 <= k < i ==> (#[trigger] out@[k]).deep_view() == list@[k].deep_view(),
        decreases list.len() - i,
    {
        out.push(list[i].clone());
        i = i + 1;
    }
    assert(out.deep_view() =~= list.deep_view());
    out
}

fn step_through(
    machines: &Vec<Machine>,
    components: &Vec<Component>,
    equations: &Vec<EquationItem>,
    period: Number,
) -> (r: Result<Stepped, String>)
    ensures
        match stepped_through(
            machines.deep_view(),
            components.deep_view(),
            equations.deep_view(),
            period,
        ) {
            Err(trouble) => r matches Err(why) && why@ == trouble,
            Ok(made) => r matches Ok(out) && out.deep_view() == made,
        },
{
    let varying = find_varying(components);
    let (steps, added) = match make_all_steps(machines, &varying) {
        Ok(made) => made,
        Err(why) => return Err(why),
    };
    let mut every = copy_components(components);
    let mut more = copy_components(&added);
    every.append(&mut more);
    assert(every.deep_view() =~= components.deep_view() + added.deep_view());
    let sorted = sort_out(machines, &varying, &every, equations);
    let Sorted { kept: mut merged, shared, clocked: mut guarded } = sorted;
    match merge_shared(&mut merged, &shared) {
        Ok(_) => {},
        Err(why) => return Err(why),
    }
    let named = name_states(machines);
    let mut done = match answer_all(machines, &varying, &named, period, &merged) {
        Some(done) => done,
        None => return Err(
            "`ticksInState` and `timeInState` are about the machine they are asked inside, and this model has more than one - ask them among a state's own equations".to_string(),
        ),
    };
    add_steps(machines, &varying, &named, period, &steps, &mut done);
    let mut clocked = names_of_components(&added);
    let ghost first = texts(clocked@);
    let ghost second = texts(guarded@);
    let mut third = names_of_shared(&shared);
    let ghost last = texts(third@);
    clocked.append(&mut guarded);
    clocked.append(&mut third);
    assert(texts(clocked@) =~= first + second + last);
    Ok(Stepped { added, equations: done, clocked })
}

/// A model with its machines built.
pub open spec fn with_steps(model: ModelV, made: SteppedV) -> ModelV {
    ModelV {
        components: model.components + made.added,
        equations: made.equations,
        transitions: Seq::empty(),
        initial_states: Seq::empty(),
        ..model
    }
}

/// Whether a model has any machine in it.
pub open spec fn has_machines(model: ModelV) -> bool {
    model.transitions.len() > 0 || model.initial_states.len() > 0
}

/// Replaces a model's state machines by the clocked equations that run them.
///
/// `clock` is the one clock that is named, where there is exactly one,
/// `clocks` how many there are, and `period` how far apart its ticks are.
pub fn build_state_machines(
    model: &mut Model,
    clock: Option<usize>,
    clocks: usize,
    period: Option<Number>,
    clock_of: &mut Table<usize>,
) -> (r: Result<(), String>)
    ensures
        !has_machines(old(model).deep_view()) ==> r is Ok && final(model).deep_view() == old(
            model,
        ).deep_view() && final(clock_of).deep_view() == old(clock_of).deep_view(),
        has_machines(old(model).deep_view()) ==> match stepped(
            old(model).deep_view(),
            clock,
            clocks as nat,
            period,
        ) {
            Err(trouble) => r matches Err(why) && why@ == trouble && final(model).deep_view()
                == old(model).deep_view() && final(clock_of).deep_view() == old(
                clock_of,
            ).deep_view(),
            Ok(made) => r is Ok && final(model).deep_view() == with_steps(
                old(model).deep_view(),
                made,
            ) && final(clock_of).deep_view() == clocked_by(
                old(clock_of).deep_view(),
                made.clocked,
                clock->0,
            ),
        },
        final(model).functions == old(model).functions,
{
    let ghost was = model.deep_view();
    assert(was.transitions.len() == model.transitions@.len());
    assert(was.initial_states.len() == model.initial_states@.len());
    if model.transitions.len() == 0 && model.initial_states.len() == 0 {
        return Ok(());
    }
    let clock: usize = match clock {
        Some(clock) => clock,
        None => {
            let count = decimal(clocks as u64);
            return Err(
                join3(
                    "a state machine runs on a clock, and this model declares ",
                    count.as_str(),
                    " of them",
                ),
            );
        },
    };
    if period.is_none() && any_asks_for_time(&model.equations) {
        return Err(
            "`timeInState` counts periods, and this machine's clock ticks on an event rather than on a period - `ticksInState` is what it can answer".to_string(),
        );
    }
    let machines = match partition(&model.transitions, &model.initial_states) {
        Ok(machines) => machines,
        Err(why) => return Err(why),
    };
    if let Some(why) = find_machines_trouble(&model.components, &machines) {
        return Err(why);
    }
    let period: Number = match period {
        Some(period) => period,
        None => zero(),
    };
    let made = match step_through(&machines, &model.components, &model.equations, period) {
        Ok(made) => made,
        Err(why) => return Err(why),
    };
    let Stepped { mut added, equations, clocked } = made;
    put_clocks(clock_of, &clocked, clock);
    let ghost before = model.components.deep_view();
    let ghost more = added.deep_view();
    model.components.append(&mut added);
    assert(model.components.deep_view() =~= before + more);
    model.equations = equations;
    model.transitions = Vec::new();
    model.initial_states = Vec::new();
    assert(model.transitions.deep_view() =~= Seq::empty());
    assert(texts(model.initial_states@) =~= Seq::empty());
    Ok(())
}

}
