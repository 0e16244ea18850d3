//! What state machines and clocked partitions do while the model runs: which way
//! a machine goes at a tick, and at which instants a partition fires.
use crate::clockwork::{BeatV, ClockworkV};
use crate::expr::{kids, lemma_kids_smaller, BinOp, ExprV, RelOp};
use crate::machines::{MachineV, TransitionV};
use crate::meaning::{
    compared_reals, holds, instant, is_instant, law_a_count_is_worth_itself, lemma_half, lemma_one,
    lemma_zero, looks_back_at, real_of, worth, Moment,
};
use crate::number::{half, one, zero};
use crate::partitions::{partition_made, ClockOf, Given};
use crate::stepping::{
    arrow_order, asked_reset, asks_reset, both, choice, counted, finished, first_guard, first_tick,
    guards_of, is_at, kept_name, leads_to, looked_back, looked_back_kids, machine_steps, next_of,
    no_later, owner_of, place_in, previous_of, put_arrow, ready_of, reset_var, resets_of, restarted,
    state_var, ticks_now, ticks_var, was_at, GuardsV,
};
use crate::sums::SumsV;
use vstd::prelude::*;

verus! {

/// How many states a machine may have for each to be told apart by its number.
pub open spec fn most_states() -> nat {
    0x20_0000_0000_0000
}

/// Whether a state is the `at`-th of a machine, and none before it.
pub open spec fn is_state(machine: MachineV, state: Seq<char>, at: int) -> bool {
    &&& 0 <= at < machine.states.len() < most_states()
    &&& machine.states[at] == state
    &&& forall|i: int| 0 <= i < at ==> (#[trigger] machine.states[i]) != state
}

/// Whether an arrow of a machine is ready at a tick: it leaves the state the
/// machine was in, its condition held on what the machines held at the tick before,
/// and what it waits for is finished.
pub open spec fn is_ready(
    machines: Seq<MachineV>,
    varying: Seq<Seq<char>>,
    tag: nat,
    index: int,
    m: Moment,
) -> bool {
    let machine = machines[tag as int];
    let arrow = machine.arrows[index];
    &&& exists|at: int| #[trigger] is_state(machine, arrow.from, at) && (m.before)(state_var(tag))
        == at as real
    &&& holds(looked_back(arrow.condition, machines, varying), m)
    &&& arrow.synchronize ==> (finished(machines, arrow.from, machines.len()) matches Some(done)
        && holds(done, m))
}

/// Whether an arrow may be taken at a tick: one that is immediate where it is
/// ready, and one that is not where it was found ready a tick ago.
pub open spec fn is_open(
    machines: Seq<MachineV>,
    varying: Seq<Seq<char>>,
    tag: nat,
    index: int,
    m: Moment,
) -> bool {
    if machines[tag as int].arrows[index].immediate {
        is_ready(machines, varying, tag, index, m)
    } else {
        (m.before)(kept_name(tag, index as nat)) != 0 as real
    }
}

/// Whether an arrow may be taken, and every other that may be has a larger
/// priority number.
pub open spec fn is_first_open(
    machines: Seq<MachineV>,
    varying: Seq<Seq<char>>,
    tag: nat,
    index: int,
    m: Moment,
) -> bool {
    let arrows = machines[tag as int].arrows;
    &&& 0 <= index < arrows.len()
    &&& is_open(machines, varying, tag, index, m)
    &&& forall|other: int|
        0 <= other < arrows.len() && other != index && #[trigger] is_open(
            machines,
            varying,
            tag,
            other,
            m,
        ) ==> arrows[index].priority < arrows[other].priority
}

/// Whether every state that an arrow of a machine leaves or leads to is one of the
/// machine's.
pub open spec fn is_closed(machine: MachineV) -> bool {
    &&& machine.states.len() < most_states()
    &&& machine.arrows.len() <= usize::MAX
    &&& forall|i: int|
        0 <= i < machine.arrows.len() ==> machine.states.contains(
            (#[trigger] machine.arrows[i]).from,
        ) && machine.states.contains(machine.arrows[i].to)
}

proof fn lemma_place(machine: MachineV, state: Seq<char>, at: int, i: nat)
    requires
        is_state(machine, state, at),
        i <= at,
    ensures
        place_in(machine.states, state, i) == at,
    decreases at - i,
{
    if i < at {
        lemma_place(machine, state, at, i + 1);
    }
}

proof fn lemma_has_a_place(machine: MachineV, state: Seq<char>, i: nat)
    requires
        machine.states.len() < most_states(),
        exists|k: int| i <= k < machine.states.len() && machine.states[k] == state,
        forall|k: int| 0 <= k < i ==> (#[trigger] machine.states[k]) != state,
    ensures
        is_state(machine, state, place_in(machine.states, state, i) as int),
    decreases machine.states.len() - i,
{
    if machine.states[i as int] != state {
        lemma_has_a_place(machine, state, i + 1);
    }
}

/// A state's number stands for the state.
proof fn lemma_was_at(machine: MachineV, tag: nat, state: Seq<char>, m: Moment)
    requires
        machine.states.len() < most_states(),
        machine.states.contains(state),
    ensures
        holds(was_at(state_var(tag), place_in(machine.states, state, 0)), m) <==> exists|at: int|
            #[trigger] is_state(machine, state, at) && (m.before)(state_var(tag)) == at as real,
{
    let place = place_in(machine.states, state, 0);
    let k = choose|k: int| 0 <= k < machine.states.len() && machine.states[k] == state;
    lemma_has_a_place(machine, state, 0);
    law_a_count_is_worth_itself(place);
    lemma_previous(state_var(tag), m);
    assert(worth(counted(place), m) == place as real);
    assert forall|at: int| #[trigger] is_state(machine, state, at) implies at == place by {
        lemma_place(machine, state, at, 0);
    }
}

pub proof fn lemma_previous(name: Seq<char>, m: Moment)
    ensures
        worth(previous_of(name), m) == (m.before)(name),
        holds(previous_of(name), m) == ((m.before)(name) != 0 as real),
{
    let args = seq![ExprV::Ref(name)];
    assert(args.len() == 1 && args[0] == ExprV::Ref(name));
    assert(looks_back_at("previous"@, args) == Some(name));
}

proof fn lemma_put(arrows: Seq<TransitionV>, order: Seq<usize>, i: usize)
    requires
        forall|a: int, b: int|
            0 <= a < b < order.len() ==> arrows[#[trigger] order[a] as int].priority
                <= arrows[#[trigger] order[b] as int].priority,
    ensures
        ({
            let after = put_arrow(arrows, order, i);
            &&& after.contains(i)
            &&& forall|k: int| 0 <= k < order.len() ==> after.contains(#[trigger] order[k])
            &&& forall|k: int|
                0 <= k < after.len() ==> (#[trigger] after[k]) == i || order.contains(after[k])
            &&& forall|a: int, b: int|
                0 <= a < b < after.len() ==> arrows[#[trigger] after[a] as int].priority
                    <= arrows[#[trigger] after[b] as int].priority
        }),
    decreases order.len(),
{
    let after = put_arrow(arrows, order, i);
    if order.len() == 0 || no_later(arrows[order.last() as int], arrows[i as int]) {
        assert(after == order.push(i));
        assert(after[order.len() as int] == i);
        assert forall|k: int| 0 <= k < order.len() implies after.contains(#[trigger] order[k]) by {
            assert(after[k] == order[k]);
        }
        assert forall|k: int| 0 <= k < after.len() implies (#[trigger] after[k]) == i
            || order.contains(after[k]) by {
            if k < order.len() {
                assert(order[k] == after[k]);
            }
        }
        assert forall|a: int, b: int| 0 <= a < b < after.len() implies arrows[#[trigger] after[a] as int].priority
            <= arrows[#[trigger] after[b] as int].priority by {
            assert(after[a] == order[a]);
            if b < order.len() {
                assert(after[b] == order[b]);
            } else {
                let last = order.len() - 1;
                if a < last {
                    assert(arrows[order[a] as int].priority <= arrows[order[last] as int].priority);
                }
            }
        }
    } else {
        let short = order.drop_last();
        let inner = put_arrow(arrows, short, i);
        lemma_put(arrows, short, i);
        assert(after == inner.push(order.last()));
        let at = choose|k: int| 0 <= k < inner.len() && inner[k] == i;
        assert(after[at] == i);
        assert forall|k: int| 0 <= k < order.len() implies after.contains(#[trigger] order[k]) by {
            if k < short.len() {
                assert(short[k] == order[k]);
                let j = choose|j: int| 0 <= j < inner.len() && inner[j] == short[k];
                assert(after[j] == order[k]);
            } else {
                assert(after[inner.len() as int] == order[k]);
            }
        }
        assert forall|k: int| 0 <= k < after.len() implies (#[trigger] after[k]) == i
            || order.contains(after[k]) by {
            if k < inner.len() {
                assert(inner[k] == after[k]);
                if inner[k] != i {
                    let j = choose|j: int| 0 <= j < short.len() && short[j] == inner[k];
                    assert(order[j] == after[k]);
                }
            } else {
                assert(order[order.len() - 1] == after[k]);
            }
        }
        assert forall|a: int, b: int| 0 <= a < b < after.len() implies arrows[#[trigger] after[a] as int].priority
            <= arrows[#[trigger] after[b] as int].priority by {
            assert(after[a] == inner[a]);
            if b < inner.len() {
                assert(after[b] == inner[b]);
            } else {
                let last = order.len() - 1;
                assert(after[b] == order[last]);
                if inner[a] != i {
                    let j = choose|j: int| 0 <= j < short.len() && short[j] == inner[a];
                    assert(order[j] == inner[a]);
                    assert(arrows[order[j] as int].priority <= arrows[order[last] as int].priority);
                }
            }
        }
    }
}

/// The arrows of a machine are all looked at, those of a smaller priority number
/// before those of a larger.
pub proof fn law_arrows_are_looked_at_by_priority(arrows: Seq<TransitionV>, n: nat)
    requires
        n <= usize::MAX,
    ensures
        ({
            let order = arrow_order(arrows, n);
            &&& forall|i: usize| (i as int) < n ==> #[trigger] order.contains(i)
            &&& forall|k: int| 0 <= k < order.len() ==> (#[trigger] order[k]) < n
            &&& forall|a: int, b: int|
                0 <= a < b < order.len() ==> arrows[#[trigger] order[a] as int].priority
                    <= arrows[#[trigger] order[b] as int].priority
        }),
    decreases n,
{
    if n > 0 {
        let before = arrow_order(arrows, (n - 1) as nat);
        law_arrows_are_looked_at_by_priority(arrows, (n - 1) as nat);
        lemma_put(arrows, before, (n - 1) as usize);
        let order = arrow_order(arrows, n);
        assert forall|i: usize| (i as int) < n implies #[trigger] order.contains(i) by {
            if (i as int) < n - 1 {
                assert(before.contains(i));
                let k = choose|k: int| 0 <= k < before.len() && before[k] == i;
                assert(order.contains(before[k]));
            }
        }
        assert forall|k: int| 0 <= k < order.len() implies (#[trigger] order[k]) < n by {
            if order[k] != (n - 1) as usize {
                let j = choose|j: int| 0 <= j < before.len() && before[j] == order[k];
                assert(before[j] < n - 1);
            }
        }
    }
}

/// Whether what is kept for an arrow is true where the arrow is ready.
pub open spec fn is_armed(
    armed: Seq<(Seq<char>, ExprV)>,
    machines: Seq<MachineV>,
    varying: Seq<Seq<char>>,
    tag: nat,
    index: int,
    m: Moment,
) -> bool {
    exists|j: int|
        0 <= j < armed.len() && (#[trigger] armed[j]).0 == kept_name(tag, index as nat) && holds(
            armed[j].1,
            m,
        ) == is_ready(machines, varying, tag, index, m)
}

proof fn lemma_guards(
    machines: Seq<MachineV>,
    varying: Seq<Seq<char>>,
    tag: nat,
    order: Seq<usize>,
    n: nat,
    m: Moment,
)
    requires
        n <= order.len(),
        tag < machines.len(),
        is_closed(machines[tag as int]),
        forall|k: int| 0 <= k < order.len() ==> (#[trigger] order[k]) < machines[tag as int].arrows.len(),
        guards_of(machines, varying, tag, order, n) is Ok,
    ensures
        ({
            let made = guards_of(machines, varying, tag, order, n)->Ok_0;
            &&& made.guards.len() == n
            &&& forall|k: int|
                0 <= k < n ==> holds(#[trigger] made.guards[k], m) == is_open(
                    machines,
                    varying,
                    tag,
                    order[k] as int,
                    m,
                )
            &&& forall|k: int|
                0 <= k < n && !machines[tag as int].arrows[#[trigger] order[k] as int].immediate
                    ==> is_armed(made.armed, machines, varying, tag, order[k] as int, m)
        }),
    decreases n,
{
    if n > 0 {
        lemma_guards(machines, varying, tag, order, (n - 1) as nat, m);
        let made = guards_of(machines, varying, tag, order, n)->Ok_0;
        let before = guards_of(machines, varying, tag, order, (n - 1) as nat)->Ok_0;
        let index = order[n - 1];
        let machine = machines[tag as int];
        let arrow = machine.arrows[index as int];
        let was = was_at(state_var(tag), place_in(machine.states, arrow.from, 0));
        let back = looked_back(arrow.condition, machines, varying);
        let ready = ready_of(machines, varying, tag, arrow)->Ok_0;
        assert(holds(ready, m) == is_ready(machines, varying, tag, index as int, m)) by {
            assert(machine.states.contains(arrow.from));
            lemma_was_at(machine, tag, arrow.from, m);
            assert(holds(both(was, back), m) == (holds(was, m) && holds(back, m)));
            if arrow.synchronize {
                let done = finished(machines, arrow.from, machines.len())->0;
                assert(holds(both(both(was, back), done), m) == (holds(both(was, back), m)
                    && holds(done, m)));
            }
        }
        assert forall|k: int|
            0 <= k < n && !machine.arrows[#[trigger] order[k] as int].immediate implies is_armed(
            made.armed,
            machines,
            varying,
            tag,
            order[k] as int,
            m,
        ) by {
            if k < n - 1 {
                assert(is_armed(before.armed, machines, varying, tag, order[k] as int, m));
                let j = choose|j: int|
                    0 <= j < before.armed.len() && (#[trigger] before.armed[j]).0 == kept_name(
                        tag,
                        order[k] as nat,
                    ) && holds(before.armed[j].1, m) == is_ready(
                        machines,
                        varying,
                        tag,
                        order[k] as int,
                        m,
                    );
                assert(made.armed[j] == before.armed[j]);
            } else {
                let j = before.armed.len() as int;
                assert(made.armed[j] == (kept_name(tag, index as nat), ready));
            }
        }
        assert forall|k: int| 0 <= k < n implies holds(#[trigger] made.guards[k], m) == is_open(
            machines,
            varying,
            tag,
            order[k] as int,
            m,
        ) by {
            if k < n - 1 {
                assert(made.guards[k] == before.guards[k]);
            } else {
                lemma_previous(kept_name(tag, index as nat), m);
            }
        }
    }
}

proof fn lemma_first_guard(
    guards: Seq<ExprV>,
    says: Seq<ExprV>,
    last: ExprV,
    k: nat,
    at: int,
    m: Moment,
)
    requires
        k <= at < guards.len(),
        holds(guards[at], m),
        forall|i: int|
            k <= i < at && holds(#[trigger] guards[i], m) ==> worth(says[i], m) == worth(says[at], m),
    ensures
        worth(first_guard(guards, says, last, k), m) == worth(says[at], m),
    decreases at - k,
{
    if !holds(guards[k as int], m) {
        lemma_first_guard(guards, says, last, k + 1, at, m);
    } else {
        assert(k < at ==> worth(says[k as int], m) == worth(says[at], m));
    }
}

proof fn lemma_no_guard(guards: Seq<ExprV>, says: Seq<ExprV>, last: ExprV, k: nat, m: Moment)
    requires
        forall|i: int| k <= i < guards.len() ==> !holds(#[trigger] guards[i], m),
    ensures
        worth(first_guard(guards, says, last, k), m) == worth(last, m),
    decreases guards.len() - k,
{
    if k < guards.len() {
        lemma_no_guard(guards, says, last, k + 1, m);
    }
}

proof fn lemma_where_next(
    machines: Seq<MachineV>,
    varying: Seq<Seq<char>>,
    tag: nat,
    made: GuardsV,
    m: Moment,
)
    requires
        tag < machines.len(),
        is_closed(machines[tag as int]),
        ({
            let arrows = machines[tag as int].arrows;
            let order = arrow_order(arrows, arrows.len());
            guards_of(machines, varying, tag, order, order.len()) == Ok::<GuardsV, Seq<char>>(made)
        }),
    ensures
        ({
            let machine = machines[tag as int];
            let next = next_of(machine, tag, made.guards);
            let resets = resets_of(machine, tag, made.guards);
            let was = (m.before)(state_var(tag));
            &&& was < 0 as real ==> worth(next, m) == 0 as real && worth(resets, m) == 1 as real
            &&& was >= 0 as real ==> forall|index: int, at: int|
                #![trigger is_first_open(machines, varying, tag, index, m), is_state(machine, machine.arrows[index].to, at)]
                is_first_open(machines, varying, tag, index, m) && is_state(
                    machine,
                    machine.arrows[index].to,
                    at,
                ) ==> worth(next, m) == at as real && worth(resets, m) == (if machine.arrows[index].reset {
                    1 as real
                } else {
                    0 as real
                })
            &&& was >= 0 as real && (forall|index: int|
                0 <= index < machine.arrows.len() ==> !#[trigger] is_open(
                    machines,
                    varying,
                    tag,
                    index,
                    m,
                )) ==> worth(next, m) == was && worth(resets, m) == 0 as real
        }),
{
    let machine = machines[tag as int];
    let arrows = machine.arrows;
    let order = arrow_order(arrows, arrows.len());
    let guards = made.guards;
    let leads = leads_to(machine, order);
    let asks = asks_reset(machine, order);
    let was = (m.before)(state_var(tag));
    law_arrows_are_looked_at_by_priority(arrows, arrows.len());
    lemma_guards(machines, varying, tag, order, order.len(), m);
    lemma_previous(state_var(tag), m);
    lemma_zero();
    lemma_one();
    let stay = previous_of(state_var(tag));
    let nothing = ExprV::Number(zero());
    assert(worth(nothing, m) == 0 as real);
    assert(worth(ExprV::Number(one()), m) == 1 as real);
    assert(holds(first_tick(tag), m) == compared_reals(RelOp::Lt, worth(stay, m), worth(nothing, m)));
    let to = first_guard(guards, leads, stay, 0);
    let put = first_guard(guards, asks, nothing, 0);
    assert(worth(choice(first_tick(tag), nothing, to), m) == (if was < 0 as real {
        worth(nothing, m)
    } else {
        worth(to, m)
    }));
    assert(worth(choice(first_tick(tag), ExprV::Number(one()), put), m) == (if was < 0 as real {
        worth(ExprV::Number(one()), m)
    } else {
        worth(put, m)
    }));
    if was >= 0 as real {
        assert forall|index: int, at: int|
            #![trigger is_first_open(machines, varying, tag, index, m), is_state(machine, machine.arrows[index].to, at)]
            is_first_open(machines, varying, tag, index, m) && is_state(
                machine,
                machine.arrows[index].to,
                at,
            ) implies worth(next_of(machine, tag, guards), m) == at as real && worth(
            resets_of(machine, tag, guards),
            m,
        ) == (if machine.arrows[index].reset {
            1 as real
        } else {
            0 as real
        }) by {
            assert(order.contains(index as usize));
            let k = choose|k: int| 0 <= k < order.len() && order[k] == index as usize;
            assert(holds(guards[k], m));
            assert forall|i: int| 0 <= i < k && holds(#[trigger] guards[i], m) implies worth(
                leads[i],
                m,
            ) == worth(leads[k], m) && worth(asks[i], m) == worth(asks[k], m) by {
                if order[i] != order[k] {
                    let other = order[i] as int;
                    assert(is_open(machines, varying, tag, other, m));
                    assert(arrows[order[i] as int].priority <= arrows[order[k] as int].priority);
                    assert(arrows[index].priority < arrows[other].priority);
                }
            }
            lemma_first_guard(guards, leads, stay, 0, k, m);
            lemma_first_guard(guards, asks, nothing, 0, k, m);
            lemma_place(machine, arrows[index].to, at, 0);
            law_a_count_is_worth_itself(at as nat);
            assert(leads[k] == counted(at as nat));
            assert(worth(counted(at as nat), m) == at as real);
            assert(asks[k] == (if arrows[index].reset {
                ExprV::Number(one())
            } else {
                nothing
            }));
        }
        if forall|index: int|
            0 <= index < machine.arrows.len() ==> !#[trigger] is_open(
                machines,
                varying,
                tag,
                index,
                m,
            ) {
            assert forall|i: int| 0 <= i < guards.len() implies !holds(#[trigger] guards[i], m) by {
                assert(!is_open(machines, varying, tag, order[i] as int, m));
            }
            lemma_no_guard(guards, leads, stay, 0, m);
            lemma_no_guard(guards, asks, nothing, 0, m);
        }
    }
}

/// At a tick a machine at the top of the model goes where the arrow leads that is
/// open and has the smallest priority number of those that are: its state is then
/// the number of the state the arrow leads to, and what it arrives at is put back
/// where the arrow asks for that.
pub proof fn law_a_machine_goes_where_its_first_open_arrow_leads(
    machines: Seq<MachineV>,
    varying: Seq<Seq<char>>,
    tag: nat,
    index: int,
    at: int,
    m: Moment,
)
    requires
        tag < machines.len(),
        is_closed(machines[tag as int]),
        machines[tag as int].inside is None,
        machine_steps(machines, varying, tag) is Ok,
        (m.before)(state_var(tag)) >= 0 as real,
        is_first_open(machines, varying, tag, index, m),
        is_state(machines[tag as int], machines[tag as int].arrows[index].to, at),
    ensures
        ({
            let steps = machine_steps(machines, varying, tag)->Ok_0;
            let arrow = machines[tag as int].arrows[index];
            &&& steps[0].0 == state_var(tag)
            &&& worth(steps[0].1, m) == at as real
            &&& steps[1].0 == reset_var(tag)
            &&& worth(steps[1].1, m) == (if arrow.reset {
                1 as real
            } else {
                0 as real
            })
        }),
{
    let machine = machines[tag as int];
    let order = arrow_order(machine.arrows, machine.arrows.len());
    let made = guards_of(machines, varying, tag, order, order.len())->Ok_0;
    lemma_where_next(machines, varying, tag, made, m);
    assert(is_state(machine, machine.arrows[index].to, at));
}

/// A machine none of whose arrows is open stays where it was, and puts nothing
/// back.
pub proof fn law_a_machine_with_no_open_arrow_stays(
    machines: Seq<MachineV>,
    varying: Seq<Seq<char>>,
    tag: nat,
    m: Moment,
)
    requires
        tag < machines.len(),
        is_closed(machines[tag as int]),
        machines[tag as int].inside is None,
        machine_steps(machines, varying, tag) is Ok,
        (m.before)(state_var(tag)) >= 0 as real,
        forall|index: int|
            0 <= index < machines[tag as int].arrows.len() ==> !#[trigger] is_open(
                machines,
                varying,
                tag,
                index,
                m,
            ),
    ensures
        ({
            let steps = machine_steps(machines, varying, tag)->Ok_0;
            &&& worth(steps[0].1, m) == (m.before)(state_var(tag))
            &&& worth(steps[1].1, m) == 0 as real
        }),
{
    let machine = machines[tag as int];
    let order = arrow_order(machine.arrows, machine.arrows.len());
    let made = guards_of(machines, varying, tag, order, order.len())->Ok_0;
    lemma_where_next(machines, varying, tag, made, m);
}

/// At its first tick a machine goes to its first state and puts back what it
/// arrives at.
pub proof fn law_a_machine_begins_in_its_first_state(
    machines: Seq<MachineV>,
    varying: Seq<Seq<char>>,
    tag: nat,
    m: Moment,
)
    requires
        tag < machines.len(),
        is_closed(machines[tag as int]),
        machines[tag as int].inside is None,
        machine_steps(machines, varying, tag) is Ok,
        (m.before)(state_var(tag)) < 0 as real,
    ensures
        ({
            let steps = machine_steps(machines, varying, tag)->Ok_0;
            &&& worth(steps[0].1, m) == 0 as real
            &&& worth(steps[1].1, m) == 1 as real
        }),
{
    let machine = machines[tag as int];
    let order = arrow_order(machine.arrows, machine.arrows.len());
    let made = guards_of(machines, varying, tag, order, order.len())->Ok_0;
    lemma_where_next(machines, varying, tag, made, m);
}

proof fn lemma_ticks(tag: nat, m: Moment)
    ensures
        worth(ticks_now(tag), m) == (if (m.now)(state_var(tag)) == (m.before)(state_var(tag)) {
            (m.before)(ticks_var(tag)) + 1 as real
        } else {
            0 as real
        }),
{
    lemma_zero();
    lemma_one();
    lemma_previous(state_var(tag), m);
    lemma_previous(ticks_var(tag), m);
    let here = ExprV::Ref(state_var(tag));
    let was = previous_of(state_var(tag));
    let still = ExprV::Rel(RelOp::Eq, Box::new(here), Box::new(was));
    let unit = ExprV::Number(one());
    let more = ExprV::Bin(BinOp::Add, Box::new(previous_of(ticks_var(tag))), Box::new(unit));
    let none = ExprV::Number(zero());
    assert(worth(here, m) == (m.now)(state_var(tag)));
    assert(holds(still, m) == compared_reals(RelOp::Eq, worth(here, m), worth(was, m)));
    assert(worth(unit, m) == 1 as real);
    assert(worth(none, m) == 0 as real);
    assert(worth(more, m) == worth(previous_of(ticks_var(tag)), m) + worth(unit, m));
}

/// A machine at the top of the model counts the ticks it has been where it is:
/// one more than before where it stayed, and none where it has just arrived.
pub proof fn law_a_machine_counts_the_ticks_it_stays(
    machines: Seq<MachineV>,
    varying: Seq<Seq<char>>,
    tag: nat,
    m: Moment,
)
    requires
        machines[tag as int].inside is None,
        machine_steps(machines, varying, tag) is Ok,
    ensures
        ({
            let steps = machine_steps(machines, varying, tag)->Ok_0;
            &&& steps[2].0 == ticks_var(tag)
            &&& worth(steps[2].1, m) == (if (m.now)(state_var(tag)) == (m.before)(state_var(tag)) {
                (m.before)(ticks_var(tag)) + 1 as real
            } else {
                0 as real
            })
        }),
{
    lemma_ticks(tag, m);
}

/// What is kept for an arrow that is not immediate is true at the ticks where the
/// arrow is ready, and false at the others.
pub proof fn law_a_delayed_arrow_is_kept_for_a_tick(
    machines: Seq<MachineV>,
    varying: Seq<Seq<char>>,
    tag: nat,
    index: int,
    m: Moment,
)
    requires
        tag < machines.len(),
        is_closed(machines[tag as int]),
        machines[tag as int].inside is None,
        machine_steps(machines, varying, tag) is Ok,
        0 <= index < machines[tag as int].arrows.len(),
        !machines[tag as int].arrows[index].immediate,
    ensures
        is_armed(
            machine_steps(machines, varying, tag)->Ok_0,
            machines,
            varying,
            tag,
            index,
            m,
        ),
{
    let machine = machines[tag as int];
    let order = arrow_order(machine.arrows, machine.arrows.len());
    let made = guards_of(machines, varying, tag, order, order.len())->Ok_0;
    let steps = machine_steps(machines, varying, tag)->Ok_0;
    law_arrows_are_looked_at_by_priority(machine.arrows, machine.arrows.len());
    lemma_guards(machines, varying, tag, order, order.len(), m);
    assert(order.contains(index as usize));
    let k = choose|k: int| 0 <= k < order.len() && order[k] == index as usize;
    assert(is_armed(made.armed, machines, varying, tag, order[k] as int, m));
    let j = choose|j: int|
        0 <= j < made.armed.len() && (#[trigger] made.armed[j]).0 == kept_name(tag, index as nat)
            && holds(made.armed[j].1, m) == is_ready(machines, varying, tag, index, m);
    assert(steps[j + 3] == made.armed[j]);
}

/// Whether the state that holds a machine is in force, and whether it has just
/// come into force by an arrow that asks for what it arrives at to be put back.
pub open spec fn is_in_force(outer: nat, at: nat, m: Moment) -> bool {
    (m.now)(state_var(outer)) == at as real
}

pub open spec fn is_entered_afresh(outer: nat, at: nat, m: Moment) -> bool {
    is_in_force(outer, at, m) && (m.before)(state_var(outer)) != at as real && (m.now)(
        reset_var(outer),
    ) > 1 as real / 2 as real
}

/// A machine inside a state holds still while that state is not the one in force,
/// starts over where the state is entered afresh, and otherwise goes where its
/// first open arrow leads.
pub proof fn law_a_machine_inside_a_state_runs_while_it_is_in_force(
    machines: Seq<MachineV>,
    varying: Seq<Seq<char>>,
    tag: nat,
    outer: usize,
    at: usize,
    m: Moment,
)
    requires
        tag < machines.len(),
        is_closed(machines[tag as int]),
        machines[tag as int].inside == Some((outer, at)),
        at < most_states(),
        machine_steps(machines, varying, tag) is Ok,
    ensures
        ({
            let machine = machines[tag as int];
            let steps = machine_steps(machines, varying, tag)->Ok_0;
            let was = (m.before)(state_var(tag));
            let alive = is_in_force(outer as nat, at as nat, m);
            let fresh = is_entered_afresh(outer as nat, at as nat, m);
            &&& steps[0].0 == state_var(tag)
            &&& fresh ==> worth(steps[0].1, m) == 0 as real
            &&& !alive ==> worth(steps[0].1, m) == was && worth(steps[1].1, m) == 0 as real && worth(
                steps[2].1,
                m,
            ) == (m.before)(ticks_var(tag))
            &&& alive && !fresh && was < 0 as real ==> worth(steps[0].1, m) == 0 as real
            &&& alive && !fresh && was >= 0 as real ==> forall|index: int, to: int|
                #![trigger is_first_open(machines, varying, tag, index, m), is_state(machine, machine.arrows[index].to, to)]
                is_first_open(machines, varying, tag, index, m) && is_state(
                    machine,
                    machine.arrows[index].to,
                    to,
                ) ==> worth(steps[0].1, m) == to as real
            &&& alive && !fresh && was >= 0 as real && (forall|index: int|
                0 <= index < machine.arrows.len() ==> !#[trigger] is_open(
                    machines,
                    varying,
                    tag,
                    index,
                    m,
                )) ==> worth(steps[0].1, m) == was
        }),
{
    let machine = machines[tag as int];
    let order = arrow_order(machine.arrows, machine.arrows.len());
    let made = guards_of(machines, varying, tag, order, order.len())->Ok_0;
    let steps = machine_steps(machines, varying, tag)->Ok_0;
    lemma_where_next(machines, varying, tag, made, m);
    lemma_zero();
    lemma_half();
    law_a_count_is_worth_itself(at as nat);
    lemma_previous(state_var(outer as nat), m);
    lemma_previous(state_var(tag), m);
    lemma_previous(ticks_var(tag), m);
    let o = outer as nat;
    let place = counted(at as nat);
    let here = ExprV::Ref(state_var(o));
    let back = previous_of(state_var(o));
    let asked = ExprV::Ref(reset_var(o));
    let mid = ExprV::Number(half());
    let none = ExprV::Number(zero());
    assert(worth(place, m) == at as real);
    assert(worth(here, m) == (m.now)(state_var(o)));
    assert(worth(asked, m) == (m.now)(reset_var(o)));
    assert(worth(mid, m) == 1 as real / 2 as real);
    assert(worth(none, m) == 0 as real);
    let alive = is_at(state_var(o), at as nat);
    assert(holds(alive, m) == compared_reals(RelOp::Eq, worth(here, m), worth(place, m)));
    let was = was_at(state_var(o), at as nat);
    assert(holds(was, m) == compared_reals(RelOp::Eq, worth(back, m), worth(place, m)));
    let not = ExprV::Not(Box::new(was));
    assert(holds(not, m) == !holds(was, m));
    let reset = asked_reset(o);
    assert(holds(reset, m) == compared_reals(RelOp::Gt, worth(asked, m), worth(mid, m)));
    assert(holds(both(not, reset), m) == (holds(not, m) && holds(reset, m)));
    let fresh = restarted(o, at as nat);
    assert(holds(fresh, m) == (holds(alive, m) && holds(both(not, reset), m)));
    let next = next_of(machine, tag, made.guards);
    let stay = previous_of(state_var(tag));
    let going = choice(alive, next, stay);
    assert(worth(going, m) == (if holds(alive, m) {
        worth(next, m)
    } else {
        worth(stay, m)
    }));
    assert(steps[0].1 == choice(fresh, none, going));
    let puts = resets_of(machine, tag, made.guards);
    assert(steps[1].1 == choice(alive, puts, none));
    let kept = previous_of(ticks_var(tag));
    assert(steps[2].1 == choice(alive, ticks_now(tag), kept));
    if is_in_force(o, at as nat, m) && !is_entered_afresh(o, at as nat, m) {
        assert(worth(steps[0].1, m) == worth(next, m));
    }
}

/// Whether an expression is a truth made of comparisons, names and connectives.
pub open spec fn is_truth(e: ExprV) -> bool
    decreases e,
{
    match e {
        ExprV::Bool(_) => true,
        ExprV::Ref(_) => true,
        ExprV::Not(a) => is_truth(*a),
        ExprV::And(a, b) => is_truth(*a) && is_truth(*b),
        ExprV::Or(a, b) => is_truth(*a) && is_truth(*b),
        ExprV::Rel(_, a, b) => is_quantity(*a) && is_quantity(*b),
        ExprV::If(c, a, b) => is_truth(*c) && is_truth(*a) && is_truth(*b),
        _ => false,
    }
}

/// Whether an expression is a number made of numbers, names and arithmetic.
pub open spec fn is_quantity(e: ExprV) -> bool
    decreases e,
{
    match e {
        ExprV::Number(_) => true,
        ExprV::Ref(_) => true,
        ExprV::Neg(a) => is_quantity(*a),
        ExprV::Bin(op, a, b) => op != BinOp::Pow && is_quantity(*a) && is_quantity(*b),
        ExprV::If(c, a, b) => is_truth(*c) && is_quantity(*a) && is_quantity(*b),
        _ => false,
    }
}

/// The moment as the machines saw it a tick ago: what belongs to a state of theirs
/// holds what it held then.
pub open spec fn a_tick_ago(machines: Seq<MachineV>, varying: Seq<Seq<char>>, m: Moment) -> Moment {
    Moment {
        now: |name: Seq<char>|
            if owner_of(machines, varying, name) is Some {
                (m.before)(name)
            } else {
                (m.now)(name)
            },
        ..m
    }
}

/// A condition is judged on the tick before: looking back, it holds now where it
/// held on what the machines' variables were then.
pub proof fn law_a_condition_is_judged_on_the_tick_before(
    e: ExprV,
    machines: Seq<MachineV>,
    varying: Seq<Seq<char>>,
    m: Moment,
)
    ensures
        is_truth(e) ==> holds(looked_back(e, machines, varying), m) == holds(
            e,
            a_tick_ago(machines, varying, m),
        ),
        is_quantity(e) ==> worth(looked_back(e, machines, varying), m) == worth(
            e,
            a_tick_ago(machines, varying, m),
        ),
    decreases e,
{
    lemma_kids_smaller(e);
    let back = looked_back(e, machines, varying);
    let then = a_tick_ago(machines, varying, m);
    let new = looked_back_kids(e, machines, varying);
    match e {
        ExprV::Ref(name) => {
            lemma_previous(name, m);
        },
        ExprV::Not(a) => {
            law_a_condition_is_judged_on_the_tick_before(*a, machines, varying, m);
            assert(new[0] == looked_back(kids(e)[0], machines, varying));
            assert(back == ExprV::Not(Box::new(new[0])));
        },
        ExprV::Neg(a) => {
            law_a_condition_is_judged_on_the_tick_before(*a, machines, varying, m);
            assert(new[0] == looked_back(kids(e)[0], machines, varying));
            assert(back == ExprV::Neg(Box::new(new[0])));
        },
        ExprV::And(a, b) => {
            law_a_condition_is_judged_on_the_tick_before(*a, machines, varying, m);
            law_a_condition_is_judged_on_the_tick_before(*b, machines, varying, m);
            assert(new[0] == looked_back(kids(e)[0], machines, varying));
            assert(new[1] == looked_back(kids(e)[1], machines, varying));
            assert(back == ExprV::And(Box::new(new[0]), Box::new(new[1])));
        },
        ExprV::Or(a, b) => {
            law_a_condition_is_judged_on_the_tick_before(*a, machines, varying, m);
            law_a_condition_is_judged_on_the_tick_before(*b, machines, varying, m);
            assert(new[0] == looked_back(kids(e)[0], machines, varying));
            assert(new[1] == looked_back(kids(e)[1], machines, varying));
            assert(back == ExprV::Or(Box::new(new[0]), Box::new(new[1])));
        },
        ExprV::Rel(op, a, b) => {
            law_a_condition_is_judged_on_the_tick_before(*a, machines, varying, m);
            law_a_condition_is_judged_on_the_tick_before(*b, machines, varying, m);
            assert(new[0] == looked_back(kids(e)[0], machines, varying));
            assert(new[1] == looked_back(kids(e)[1], machines, varying));
            assert(back == ExprV::Rel(op, Box::new(new[0]), Box::new(new[1])));
        },
        ExprV::Bin(op, a, b) => {
            law_a_condition_is_judged_on_the_tick_before(*a, machines, varying, m);
            law_a_condition_is_judged_on_the_tick_before(*b, machines, varying, m);
            assert(new[0] == looked_back(kids(e)[0], machines, varying));
            assert(new[1] == looked_back(kids(e)[1], machines, varying));
            assert(back == ExprV::Bin(op, Box::new(new[0]), Box::new(new[1])));
        },
        ExprV::If(c, a, b) => {
            law_a_condition_is_judged_on_the_tick_before(*c, machines, varying, m);
            law_a_condition_is_judged_on_the_tick_before(*a, machines, varying, m);
            law_a_condition_is_judged_on_the_tick_before(*b, machines, varying, m);
            assert(new[0] == looked_back(kids(e)[0], machines, varying));
            assert(new[1] == looked_back(kids(e)[1], machines, varying));
            assert(new[2] == looked_back(kids(e)[2], machines, varying));
            assert(back == ExprV::If(Box::new(new[0]), Box::new(new[1]), Box::new(new[2])));
        },
        _ => {},
    }
}

/// A partition on a periodic clock fires at the clock's first tick and at every
/// whole number of intervals after it, and at no other time.
pub proof fn law_a_periodic_partition_fires_at_its_instants<C>(
    h: ClockworkV<C>,
    v: SumsV,
    clocks: C,
    clock_of: ClockOf,
    clock: usize,
    actions: Given,
    m: Moment,
)
    ensures
        partition_made(h, v, clocks, clock_of, clock, actions) matches Ok(made) ==> ((h.ticking)(
            clocks,
            clock,
        ).beat matches BeatV::Every(first, interval) ==> {
            &&& made.0.branches.len() == 1
            &&& holds(made.0.branches[0].condition, m) <==> exists|k: nat|
                m.time == #[trigger] instant(real_of(first), real_of(interval), k)
        }),
{
    if let Ok(made) = partition_made(h, v, clocks, clock_of, clock, actions) {
        if let BeatV::Every(first, interval) = (h.ticking)(clocks, clock).beat {
            let args = seq![ExprV::Number(first), ExprV::Number(interval)];
            let condition = made.0.branches[0].condition;
            assert(condition == ExprV::Call("sample"@, args));
            reveal_strlit("sample");
            reveal_strlit("previous");
            reveal_strlit("pre");
            assert("sample"@.len() == 6 && "previous"@.len() == 8 && "pre"@.len() == 3);
            assert(looks_back_at("sample"@, args) is None);
            assert(worth(args[0], m) == real_of(first));
            assert(worth(args[1], m) == real_of(interval));
            assert(holds(condition, m) == is_instant(m.time, real_of(first), real_of(interval)));
        }
    }
}

/// A partition on a clock that ticks on an event fires where the event's condition
/// does.
pub proof fn law_an_event_partition_fires_on_its_event<C>(
    h: ClockworkV<C>,
    v: SumsV,
    clocks: C,
    clock_of: ClockOf,
    clock: usize,
    actions: Given,
    m: Moment,
)
    ensures
        partition_made(h, v, clocks, clock_of, clock, actions) matches Ok(made) ==> ((h.ticking)(
            clocks,
            clock,
        ).beat matches BeatV::When(event) ==> made.0.branches.len() == 1 && holds(
            made.0.branches[0].condition,
            m,
        ) == holds(event, m)),
{
}

}
