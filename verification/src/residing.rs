//! What the states of a machine do while they are in force: whose equations are
//! followed, what is held while they are not, and what is answered about them.
use crate::class::{ComponentV, EquationV};
use crate::expr::ExprV;
use crate::machines::{all_under, MachineV};
use crate::meaning::{holds, law_a_count_is_worth_itself, lemma_half, real_of, worth, Moment};
use crate::number::{half, Number};
use crate::running::{is_entered_afresh, is_in_force, lemma_previous, most_states};
use crate::stepping::{
    asked_reset, both, choice, counted, finished, innermost, is_at, is_left, owner_of, previous_of,
    queried, rested, said_value, sorted_one, start_of, state_var, states_named, was_at, with_shared,
    SaidV, SortedV,
};
use crate::text::begins_with;
use vstd::prelude::*;

verus! {

/// Whether a name is that of a part of a state.
pub open spec fn lies_in(name: Seq<char>, state: Seq<char>) -> bool {
    &&& name.len() > state.len()
    &&& name[state.len() as int] == '.'
    &&& forall|i: int| 0 <= i < state.len() ==> #[trigger] name[i] == state[i]
}

/// Whether there is a state of a machine at a place.
pub open spec fn is_place(machines: Seq<MachineV>, tag: int, at: int) -> bool {
    0 <= tag < machines.len() && 0 <= at < machines[tag].states.len()
}

/// Whether every state can be counted.
pub open spec fn is_countable(machines: Seq<MachineV>) -> bool {
    &&& machines.len() <= usize::MAX
    &&& forall|t: int|
        0 <= t < machines.len() ==> (#[trigger] machines[t]).states.len() < most_states()
            && machines[t].states.len() <= usize::MAX
}

/// Whether a name is that of a part of the state at a place, or of the state
/// itself where that is asked for.
pub open spec fn is_held_by(
    machines: Seq<MachineV>,
    name: Seq<char>,
    itself: bool,
    tag: int,
    at: int,
) -> bool {
    is_place(machines, tag, at) && (lies_in(name, machines[tag].states[at]) || (itself && name
        == machines[tag].states[at]))
}

proof fn lemma_lies_in(name: Seq<char>, state: Seq<char>)
    ensures
        begins_with(name, state + "."@) <==> lies_in(name, state),
{
    reveal_strlit(".");
    let head = state + "."@;
    assert(head.len() == state.len() + 1);
    assert(head[state.len() as int] == '.');
    if begins_with(name, head) {
        assert(name.take(head.len() as int)[state.len() as int] == '.');
        assert forall|i: int| 0 <= i < state.len() implies #[trigger] name[i] == state[i] by {
            assert(name.take(head.len() as int)[i] == head[i]);
        }
    }
    if lies_in(name, state) {
        assert(name.take(head.len() as int) =~= head);
    }
}

/// Whether a place comes before another.
pub open spec fn is_before(t: int, a: int, tag: nat, at: nat) -> bool {
    t < tag || (t == tag && a < at)
}

proof fn lemma_innermost(
    machines: Seq<MachineV>,
    name: Seq<char>,
    itself: bool,
    tag: nat,
    at: nat,
)
    requires
        is_countable(machines),
        tag <= machines.len(),
        tag == machines.len() ==> at == 0,
        tag < machines.len() ==> at <= machines[tag as int].states.len(),
    ensures
        match innermost(machines, name, itself, tag, at) {
            Some((t, a)) => is_held_by(machines, name, itself, t as int, a as int) && forall|
                u: int,
                b: int,
            |
                #[trigger] is_held_by(machines, name, itself, u, b) && is_before(u, b, tag, at)
                    ==> machines[u].states[b].len() <= machines[t as int].states[a as int].len(),
            None => forall|u: int, b: int|
                is_before(u, b, tag, at) ==> !#[trigger] is_held_by(machines, name, itself, u, b),
        },
    decreases tag, at,
{
    if at > 0 {
        lemma_innermost(machines, name, itself, tag, (at - 1) as nat);
        let state = machines[tag as int].states[at - 1];
        lemma_lies_in(name, state);
        let best = innermost(machines, name, itself, tag, (at - 1) as nat);
        assert(is_held_by(machines, name, itself, tag as int, at - 1) <==> lies_in(name, state) || (
        itself && name == state));
        assert forall|u: int, b: int| is_before(u, b, tag, at) implies is_before(
            u,
            b,
            tag,
            (at - 1) as nat,
        ) || (u == tag && b == at - 1) by {}
        assert((tag as usize) as int == tag && ((at - 1) as usize) as int == at - 1);
    } else if tag > 0 {
        let states = machines[tag - 1].states;
        lemma_innermost(machines, name, itself, (tag - 1) as nat, states.len());
        assert forall|u: int, b: int|
            is_before(u, b, tag, at) && #[trigger] is_held_by(machines, name, itself, u, b) implies is_before(
            u,
            b,
            (tag - 1) as nat,
            states.len(),
        ) by {
            assert(is_place(machines, u, b));
        }
    }
}

/// A name belongs to the innermost of the states it lies in, and to none only
/// where it lies in none.
pub proof fn law_a_name_belongs_to_the_innermost_state(
    machines: Seq<MachineV>,
    name: Seq<char>,
    itself: bool,
)
    requires
        is_countable(machines),
    ensures
        match innermost(machines, name, itself, machines.len(), 0) {
            Some((t, a)) => is_held_by(machines, name, itself, t as int, a as int) && forall|
                u: int,
                b: int,
            |
                #[trigger] is_held_by(machines, name, itself, u, b) ==> machines[u].states[b].len()
                    <= machines[t as int].states[a as int].len(),
            None => forall|u: int, b: int| !#[trigger] is_held_by(machines, name, itself, u, b),
        },
{
    lemma_innermost(machines, name, itself, machines.len(), 0);
    assert forall|u: int, b: int| #[trigger] is_held_by(machines, name, itself, u, b) implies is_before(
        u,
        b,
        machines.len(),
        0,
    ) by {}
}

proof fn lemma_in_force(tag: nat, at: nat, m: Moment)
    requires
        at < most_states(),
    ensures
        holds(is_at(state_var(tag), at), m) == is_in_force(tag, at, m),
        holds(was_at(state_var(tag), at), m) == ((m.before)(state_var(tag)) == at as real),
{
    law_a_count_is_worth_itself(at);
    lemma_previous(state_var(tag), m);
    assert(worth(counted(at), m) == at as real);
    assert(worth(ExprV::Ref(state_var(tag)), m) == (m.now)(state_var(tag)));
}

/// Whether one component of a list has a name, and has a value to start at.
pub open spec fn starts_at(
    components: Seq<ComponentV>,
    name: Seq<char>,
    k: int,
    value: ExprV,
) -> bool {
    &&& 0 <= k < components.len()
    &&& components[k].name == name
    &&& components[k].start == Some(value)
    &&& forall|j: int|
        0 <= j < components.len() && (#[trigger] components[j]).name == name ==> j == k
}

proof fn lemma_start(components: Seq<ComponentV>, name: Seq<char>, k: int, value: ExprV)
    requires
        starts_at(components, name, k, value),
    ensures
        start_of(components, name) == Some(value),
    decreases components.len(),
{
    let short = components.drop_last();
    if k < components.len() - 1 {
        assert(components[components.len() - 1].name != name);
        assert forall|j: int| 0 <= j < short.len() && (#[trigger] short[j]).name == name implies j
            == k by {
            assert(components[j] == short[j]);
        }
        lemma_start(short, name, k, value);
    }
}

/// A variable of a state follows the state's equation while the state is in force,
/// goes back to where it started when the state is entered afresh, and holds what
/// it had while the state is not in force.
pub proof fn law_a_variable_of_a_state_moves_while_it_is_in_force(
    machines: Seq<MachineV>,
    varying: Seq<Seq<char>>,
    components: Seq<ComponentV>,
    before: SortedV,
    equation: EquationV,
    target: Seq<char>,
    k: int,
    start: ExprV,
    m: Moment,
)
    requires
        equation.lhs == ExprV::Ref(target),
        owner_of(machines, varying, target) is Some,
        (owner_of(machines, varying, target)->0).1 < most_states(),
        starts_at(components, target, k, start),
    ensures
        ({
            let (tag, at) = owner_of(machines, varying, target)->0;
            let after = sorted_one(machines, varying, components, before, equation);
            let made = after.kept.last();
            let alive = is_in_force(tag as nat, at as nat, m);
            let fresh = is_entered_afresh(tag as nat, at as nat, m);
            &&& after.kept.drop_last() == before.kept
            &&& made.lhs == equation.lhs
            &&& fresh ==> worth(made.rhs, m) == worth(start, m)
            &&& alive && !fresh ==> worth(made.rhs, m) == worth(equation.rhs, m)
            &&& !alive ==> worth(made.rhs, m) == (m.before)(target)
            &&& after.clocked.last() == target
        }),
{
    let (tag, at) = owner_of(machines, varying, target)->0;
    let t = tag as nat;
    let a = at as nat;
    lemma_start(components, target, k, start);
    let after = sorted_one(machines, varying, components, before, equation);
    assert(after.kept.drop_last() =~= before.kept);
    lemma_in_force(t, a, m);
    lemma_previous(target, m);
    lemma_half();
    let here = is_at(state_var(t), a);
    let was = was_at(state_var(t), a);
    let came = both(here, ExprV::Not(Box::new(was)));
    let asked = asked_reset(t);
    let fresh = both(came, asked);
    let kept = previous_of(target);
    let inner = choice(here, equation.rhs, kept);
    assert(worth(ExprV::Number(half()), m) == 1 as real / 2 as real);
    assert(worth(ExprV::Ref(crate::stepping::reset_var(t)), m) == (m.now)(
        crate::stepping::reset_var(t),
    ));
    assert(holds(ExprV::Not(Box::new(was)), m) == !holds(was, m));
    assert(holds(came, m) == (holds(here, m) && !holds(was, m)));
    assert(holds(fresh, m) == (holds(came, m) && holds(asked, m)));
    assert(worth(inner, m) == if holds(here, m) {
        worth(equation.rhs, m)
    } else {
        worth(kept, m)
    });
    assert(after.kept.last().rhs == choice(fresh, start, inner));
    assert(worth(choice(fresh, start, inner), m) == if holds(fresh, m) {
        worth(start, m)
    } else {
        worth(inner, m)
    });
}

/// Whether what is said of a variable is said by the state in force.
pub open spec fn is_said(says: SaidV, k: int, m: Moment) -> bool {
    is_in_force(says[k].0 as nat, says[k].1 as nat, m)
}

proof fn lemma_said(target: Seq<char>, says: SaidV, from: nat, k: int, m: Moment)
    requires
        from <= k <= says.len(),
        forall|j: int| 0 <= j < says.len() ==> (#[trigger] says[j]).1 < most_states(),
        forall|j: int| from <= j < k ==> !is_said(says, j, m),
        k < says.len() ==> is_said(says, k, m),
    ensures
        worth(said_value(target, says, from), m) == if k < says.len() {
            worth(says[k].2, m)
        } else {
            (m.before)(target)
        },
    decreases says.len() - from,
{
    lemma_previous(target, m);
    if from < says.len() {
        let one = says[from as int];
        lemma_in_force(one.0 as nat, one.1 as nat, m);
        assert(is_said(says, from as int, m) == is_in_force(one.0 as nat, one.1 as nat, m));
        let later = said_value(target, says, from + 1);
        let c = is_at(state_var(one.0 as nat), one.1 as nat);
        assert(worth(choice(c, one.2, later), m) == if holds(c, m) {
            worth(one.2, m)
        } else {
            worth(later, m)
        });
        if from < k {
            lemma_said(target, says, from + 1, k, m);
        }
    }
}

proof fn lemma_shared(
    equations: Seq<EquationV>,
    shared: Seq<(Seq<char>, SaidV)>,
    n: nat,
    i: int,
)
    requires
        0 <= i < n <= shared.len(),
        with_shared(equations, shared, n) is Ok,
    ensures
        ({
            let out = with_shared(equations, shared, n)->Ok_0;
            &&& out.len() == equations.len() + n
            &&& out[equations.len() + i].lhs == ExprV::Ref(shared[i].0)
            &&& out[equations.len() + i].rhs == said_value(shared[i].0, shared[i].1, 0)
        }),
    decreases n,
{
    let less = (n - 1) as nat;
    if i < less {
        lemma_shared(equations, shared, less, i);
    } else if less > 0 {
        lemma_shared(equations, shared, less, 0);
    }
}

/// A variable outside every state is what the state in force says of it, and holds
/// what it had where none of those that speak of it is in force.
pub proof fn law_the_state_in_force_has_its_say(
    equations: Seq<EquationV>,
    shared: Seq<(Seq<char>, SaidV)>,
    i: int,
    m: Moment,
)
    requires
        0 <= i < shared.len(),
        with_shared(equations, shared, shared.len()) is Ok,
        forall|j: int| 0 <= j < shared[i].1.len() ==> (#[trigger] shared[i].1[j]).1 < most_states(),
    ensures
        ({
            let made = with_shared(equations, shared, shared.len())->Ok_0[equations.len() + i];
            let says = shared[i].1;
            &&& made.lhs == ExprV::Ref(shared[i].0)
            &&& forall|k: int|
                0 <= k < says.len() && #[trigger] is_said(says, k, m) && (forall|j: int|
                    0 <= j < k ==> !is_said(says, j, m)) ==> worth(made.rhs, m) == worth(
                    says[k].2,
                    m,
                )
            &&& (forall|j: int| 0 <= j < says.len() ==> !is_said(says, j, m)) ==> worth(made.rhs, m)
                == (m.before)(shared[i].0)
        }),
{
    lemma_shared(equations, shared, shared.len(), i);
    let says = shared[i].1;
    let target = shared[i].0;
    assert forall|k: int|
        0 <= k < says.len() && #[trigger] is_said(says, k, m) && (forall|j: int|
            0 <= j < k ==> !is_said(says, j, m)) implies worth(said_value(target, says, 0), m)
        == worth(says[k].2, m) by {
        lemma_said(target, says, 0, k, m);
    }
    if forall|j: int| 0 <= j < says.len() ==> !is_said(says, j, m) {
        lemma_said(target, says, 0, says.len() as int, m);
    }
}

/// Whether no arrow leaves a state of a machine.
pub open spec fn is_last(machine: MachineV, at: int) -> bool {
    0 <= at < machine.states.len() && forall|i: int|
        0 <= i < machine.arrows.len() ==> (#[trigger] machine.arrows[i]).from != machine.states[at]
}

/// Whether a machine was, at the tick before, in a state that no arrow leaves.
pub open spec fn has_rested(machine: MachineV, tag: nat, m: Moment) -> bool {
    exists|at: int| #[trigger] is_last(machine, at) && (m.before)(state_var(tag)) == at as real
}

proof fn lemma_rested(machine: MachineV, tag: nat, n: nat, m: Moment)
    requires
        n <= machine.states.len() < most_states(),
    ensures
        match rested(machine, tag, n) {
            Some(e) => (exists|at: int| #[trigger] is_last(machine, at)) && (holds(e, m)
                <==> exists|at: int|
                #[trigger] is_last(machine, at) && at < n && (m.before)(state_var(tag))
                    == at as real),
            None => forall|at: int| 0 <= at < n ==> !#[trigger] is_last(machine, at),
        },
    decreases n,
{
    if n > 0 {
        let less = (n - 1) as nat;
        lemma_rested(machine, tag, less, m);
        lemma_in_force(tag, less, m);
        let state = machine.states[n - 1];
        assert(is_last(machine, less as int) <==> !is_left(machine.arrows, state));
        let here = was_at(state_var(tag), less);
        match rested(machine, tag, less) {
            Some(so_far) => {
                let or = ExprV::Or(Box::new(so_far), Box::new(here));
                assert(holds(or, m) == (holds(so_far, m) || holds(here, m)));
            },
            None => {},
        }
    }
}

/// Whether a machine lies within a state and has a state to rest in.
pub open spec fn is_awaited(machines: Seq<MachineV>, state: Seq<char>, t: int) -> bool {
    &&& 0 <= t < machines.len()
    &&& forall|i: int|
        0 <= i < machines[t].states.len() ==> lies_in(#[trigger] machines[t].states[i], state)
    &&& exists|at: int| #[trigger] is_last(machines[t], at)
}

proof fn lemma_finished(machines: Seq<MachineV>, state: Seq<char>, n: nat, m: Moment)
    requires
        is_countable(machines),
        n <= machines.len(),
    ensures
        match finished(machines, state, n) {
            Some(e) => holds(e, m) <==> forall|t: int|
                #[trigger] is_awaited(machines, state, t) && t < n ==> has_rested(
                    machines[t],
                    t as nat,
                    m,
                ),
            None => forall|t: int| t < n ==> !#[trigger] is_awaited(machines, state, t),
        },
    decreases n,
{
    if n > 0 {
        let less = (n - 1) as nat;
        lemma_finished(machines, state, less, m);
        let machine = machines[n - 1];
        lemma_rested(machine, less, machine.states.len(), m);
        assert forall|at: int| #[trigger] is_last(machine, at) implies at < machine.states.len() by {}
        assert(all_under(machine.states, state) <==> forall|i: int|
            0 <= i < machine.states.len() ==> lies_in(#[trigger] machine.states[i], state)) by {
            assert forall|i: int| 0 <= i < machine.states.len() implies begins_with(
                #[trigger] machine.states[i],
                state + "."@,
            ) == lies_in(machine.states[i], state) by {
                lemma_lies_in(machine.states[i], state);
            }
        }
        let ends = rested(machine, less, machine.states.len());
        assert(is_awaited(machines, state, n - 1) <==> all_under(machine.states, state) && ends is Some);
        if let Some(rest) = ends {
            assert(holds(rest, m) <==> has_rested(machine, less, m));
        }
        assert forall|t: int| #[trigger] is_awaited(machines, state, t) && t < n implies t < less || t
            == less by {}
        match (finished(machines, state, less), ends) {
            (Some(so_far), Some(rest)) => {
                assert(holds(both(so_far, rest), m) == (holds(so_far, m) && holds(rest, m)));
            },
            _ => {},
        }
    }
}

/// What a state waits for is finished where every machine within it that can come
/// to rest has come to rest at the tick before.
pub proof fn law_a_state_is_finished_when_what_is_within_has_rested(
    machines: Seq<MachineV>,
    state: Seq<char>,
    m: Moment,
)
    requires
        is_countable(machines),
    ensures
        match finished(machines, state, machines.len()) {
            Some(e) => holds(e, m) <==> forall|t: int|
                #[trigger] is_awaited(machines, state, t) ==> has_rested(machines[t], t as nat, m),
            None => forall|t: int| !#[trigger] is_awaited(machines, state, t),
        },
{
    lemma_finished(machines, state, machines.len(), m);
}

proof fn lemma_named(machines: Seq<MachineV>, tag: nat, at: nat, t: int, a: int)
    requires
        is_countable(machines),
        tag <= machines.len(),
        tag == machines.len() ==> at == 0,
        tag < machines.len() ==> at <= machines[tag as int].states.len(),
        is_place(machines, t, a),
        is_before(t, a, tag, at),
        is_only(machines, t, a),
    ensures
        states_named(machines, tag, at).contains_key(machines[t].states[a]),
        states_named(machines, tag, at)[machines[t].states[a]] == (t as usize, a as usize),
    decreases tag, at,
{
    if at > 0 {
        if t == tag && a == at - 1 {
        } else {
            lemma_named(machines, tag, (at - 1) as nat, t, a);
            assert(is_place(machines, tag as int, at - 1));
        }
    } else {
        lemma_named(machines, (tag - 1) as nat, machines[tag - 1].states.len(), t, a);
    }
}

/// Whether no other state is named as the one at a place.
pub open spec fn is_only(machines: Seq<MachineV>, t: int, a: int) -> bool {
    forall|u: int, b: int| #[trigger]
        is_place(machines, u, b) && machines[u].states[b] == machines[t].states[a] ==> u == t && b
            == a
}

/// `activeState` is true exactly while the state it is asked of is in force.
pub proof fn law_a_state_is_active_while_it_is_in_force(
    machines: Seq<MachineV>,
    t: int,
    a: int,
    ticks: Seq<char>,
    period: Number,
    m: Moment,
)
    requires
        is_countable(machines),
        is_place(machines, t, a),
        is_only(machines, t, a),
    ensures
        holds(
            queried(
                ExprV::Call("activeState"@, seq![ExprV::Ref(machines[t].states[a])]),
                states_named(machines, machines.len(), 0),
                ticks,
                period,
            ),
            m,
        ) == is_in_force(t as nat, a as nat, m),
{
    lemma_named(machines, machines.len(), 0, t, a);
    lemma_in_force(t as nat, a as nat, m);
    let args = seq![ExprV::Ref(machines[t].states[a])];
    assert(args.len() == 1 && args[0] == ExprV::Ref(machines[t].states[a]));
    assert(crate::expr::kids(ExprV::Call("activeState"@, args)) == args);
}

/// `ticksInState` is how many ticks a machine has been where it is, and
/// `timeInState` that many times the step of its clock.
pub proof fn law_time_in_a_state_is_its_ticks_times_the_period(
    named: Map<Seq<char>, (usize, usize)>,
    ticks: Seq<char>,
    period: Number,
    m: Moment,
)
    ensures
        worth(queried(ExprV::Call("ticksInState"@, Seq::empty()), named, ticks, period), m) == (
        m.now)(ticks),
        worth(queried(ExprV::Call("timeInState"@, Seq::empty()), named, ticks, period), m) == (
        m.now)(ticks) * real_of(period),
{
    reveal_strlit("ticksInState");
    reveal_strlit("timeInState");
    reveal_strlit("activeState");
    assert("ticksInState"@.len() == 12 && "timeInState"@.len() == 11);
    assert("activeState"@[0] == 'a' && "timeInState"@[0] == 't' && "ticksInState"@[0] == 't');
    assert(worth(ExprV::Ref(ticks), m) == (m.now)(ticks));
    assert(worth(ExprV::Number(period), m) == real_of(period));
}

}
