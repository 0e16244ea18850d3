//! State machines: the states a model steps between, the arrows joining them,
//! and which machine sits inside a state of which other.
use crate::class::{copied, Transition};
use crate::expr::{told, ExprV};
use crate::text::{
    begins_with, decimal, digits, holds, join2, join3, join5, quoted, quoted_list, starts, texts,
};
use vstd::prelude::*;

verus! {

/// What an arrow is, mathematically.
pub ghost struct TransitionV {
    pub from: Seq<char>,
    pub to: Seq<char>,
    pub condition: ExprV,
    pub reset: bool,
    pub immediate: bool,
    pub synchronize: bool,
    pub priority: i64,
}

impl DeepView for Transition {
    type V = TransitionV;

    open spec fn deep_view(&self) -> TransitionV {
        TransitionV {
            from: self.from@,
            to: self.to@,
            condition: self.condition.deep_view(),
            reset: self.reset,
            immediate: self.immediate,
            synchronize: self.synchronize,
            priority: self.priority,
        }
    }
}

impl Clone for Transition {
    fn clone(&self) -> (r: Self)
        ensures
            r.deep_view() == self.deep_view(),
    {
        Transition {
            from: self.from.clone(),
            to: self.to.clone(),
            condition: self.condition.clone(),
            reset: self.reset,
            immediate: self.immediate,
            synchronize: self.synchronize,
            priority: self.priority,
        }
    }
}

/// One state machine: its states, its arrows, and where it sits.
#[derive(Debug)]
pub struct Machine {
    /// The states, the one it starts in first.
    pub states: Vec<String>,
    /// The arrows joining them.
    pub arrows: Vec<Transition>,
    /// The machine this one is inside, and which of that machine's states
    /// holds it. A machine at the top of the model has none.
    pub inside: Option<(usize, usize)>,
}

pub ghost struct MachineV {
    pub states: Seq<Seq<char>>,
    pub arrows: Seq<TransitionV>,
    pub inside: Option<(usize, usize)>,
}

impl DeepView for Machine {
    type V = MachineV;

    open spec fn deep_view(&self) -> MachineV {
        MachineV {
            states: texts(self.states@),
            arrows: self.arrows.deep_view(),
            inside: self.inside,
        }
    }
}

/// Which group from the `i`-th on holds a state.
pub open spec fn group_with(groups: Seq<Seq<Seq<char>>>, name: Seq<char>, i: nat) -> Option<nat>
    decreases groups.len() - i,
{
    if i >= groups.len() {
        None
    } else if groups[i as int].contains(name) {
        Some(i)
    } else {
        group_with(groups, name, i + 1)
    }
}

/// The groups after one arrow has joined two states.
pub open spec fn joined(groups: Seq<Seq<Seq<char>>>, a: Seq<char>, b: Seq<char>) -> Seq<
    Seq<Seq<char>>,
> {
    match (group_with(groups, a, 0), group_with(groups, b, 0)) {
        (Some(one), Some(other)) => if one < other {
            groups.remove(other as int).update(one as int, groups[one as int] + groups[other as int])
        } else if other < one {
            groups.remove(one as int).update(other as int, groups[other as int] + groups[one as int])
        } else {
            groups
        },
        (Some(one), None) => groups.update(one as int, groups[one as int].push(b)),
        (None, Some(other)) => groups.update(other as int, groups[other as int].push(a)),
        (None, None) => groups.push(seq![a, b]),
    }
}

/// The groups of states that the arrows reach across.
pub open spec fn arrow_groups(transitions: Seq<TransitionV>) -> Seq<Seq<Seq<char>>>
    decreases transitions.len(),
{
    if transitions.len() == 0 {
        Seq::empty()
    } else {
        joined(
            arrow_groups(transitions.drop_last()),
            transitions.last().from,
            transitions.last().to,
        )
    }
}

/// The groups, with one of its own for every state where a machine starts
/// that no arrow names.
pub open spec fn all_groups(groups: Seq<Seq<Seq<char>>>, starting: Seq<Seq<char>>) -> Seq<
    Seq<Seq<char>>,
>
    decreases starting.len(),
{
    if starting.len() == 0 {
        groups
    } else {
        let before = all_groups(groups, starting.drop_last());
        if group_with(before, starting.last(), 0) is Some {
            before
        } else {
            before.push(seq![starting.last()])
        }
    }
}

/// The names of a list that are in a group.
pub open spec fn within(names: Seq<Seq<char>>, group: Seq<Seq<char>>) -> Seq<Seq<char>>
    decreases names.len(),
{
    if names.len() == 0 {
        Seq::empty()
    } else {
        let before = within(names.drop_last(), group);
        if group.contains(names.last()) {
            before.push(names.last())
        } else {
            before
        }
    }
}

/// One end of an arrow added to the states of a machine, where it belongs
/// there and is not there yet.
pub open spec fn with_end(
    states: Seq<Seq<char>>,
    group: Seq<Seq<char>>,
    end: Seq<char>,
) -> Seq<Seq<char>> {
    if group.contains(end) && !states.contains(end) {
        states.push(end)
    } else {
        states
    }
}

/// The states of a machine: the one it starts in, then the rest in the order
/// the arrows name them.
pub open spec fn states_from(
    start: Seq<char>,
    group: Seq<Seq<char>>,
    transitions: Seq<TransitionV>,
) -> Seq<Seq<char>>
    decreases transitions.len(),
{
    if transitions.len() == 0 {
        seq![start]
    } else {
        let before = states_from(start, group, transitions.drop_last());
        with_end(with_end(before, group, transitions.last().from), group, transitions.last().to)
    }
}

/// The arrows that leave a state of a group.
pub open spec fn arrows_from(group: Seq<Seq<char>>, transitions: Seq<TransitionV>) -> Seq<
    TransitionV,
>
    decreases transitions.len(),
{
    if transitions.len() == 0 {
        Seq::empty()
    } else {
        let before = arrows_from(group, transitions.drop_last());
        if group.contains(transitions.last().from) {
            before.push(transitions.last())
        } else {
            before
        }
    }
}

/// The machine that a group of states is, or why it is none.
pub open spec fn machine_of(
    group: Seq<Seq<char>>,
    transitions: Seq<TransitionV>,
    starting: Seq<Seq<char>>,
) -> Result<MachineV, Seq<char>> {
    let starts = within(starting, group);
    if starts.len() == 0 {
        Err(
            "the states "@ + quoted_list(group)
                + " are joined by arrows and none of them is where the machine starts - one `initialState` to a machine"@,
        )
    } else if starts.len() > 1 {
        Err(
            "the states "@ + quoted_list(group) + " are one machine, and "@ + digits(starts.len())
                + " of them are named as where it starts"@,
        )
    } else {
        Ok(
            MachineV {
                states: states_from(starts[0], group, transitions),
                arrows: arrows_from(group, transitions),
                inside: None,
            },
        )
    }
}

/// The machines of a list of groups, or why the first that is none is none.
pub open spec fn machines_of(
    groups: Seq<Seq<Seq<char>>>,
    transitions: Seq<TransitionV>,
    starting: Seq<Seq<char>>,
) -> Result<Seq<MachineV>, Seq<char>>
    decreases groups.len(),
{
    if groups.len() == 0 {
        Ok(Seq::empty())
    } else {
        match machines_of(groups.drop_last(), transitions, starting) {
            Err(why) => Err(why),
            Ok(before) => match machine_of(groups.last(), transitions, starting) {
                Err(why) => Err(why),
                Ok(machine) => Ok(before.push(machine)),
            },
        }
    }
}

/// Whether every state of a list is inside a state.
pub open spec fn all_under(states: Seq<Seq<char>>, state: Seq<char>) -> bool {
    forall|i: int| 0 <= i < states.len() ==> begins_with(#[trigger] states[i], state + "."@)
}

/// The better of two places to be inside: the innermost, the first of two
/// that are as deep.
pub open spec fn deeper(
    machines: Seq<MachineV>,
    best: Option<(usize, usize)>,
    outer: usize,
    at: usize,
) -> Option<(usize, usize)> {
    match best {
        Some((o, a)) => if machines[outer as int].states[at as int].len()
            > machines[o as int].states[a as int].len() {
            Some((outer, at))
        } else {
            best
        },
        None => Some((outer, at)),
    }
}

/// The innermost state that holds all of a list, of the first `outer`
/// machines and the first `at` states of the next.
pub open spec fn holder_of(
    machines: Seq<MachineV>,
    states: Seq<Seq<char>>,
    index: int,
    outer: nat,
    at: nat,
) -> Option<(usize, usize)>
    decreases outer, at,
{
    if at > 0 && outer < machines.len() && at <= machines[outer as int].states.len() {
        let best = holder_of(machines, states, index, outer, (at - 1) as nat);
        if outer != index && all_under(states, machines[outer as int].states[at - 1]) {
            deeper(machines, best, outer as usize, (at - 1) as usize)
        } else {
            best
        }
    } else if outer > 0 && outer <= machines.len() {
        holder_of(
            machines,
            states,
            index,
            (outer - 1) as nat,
            machines[outer - 1].states.len(),
        )
    } else {
        None
    }
}

/// The machines, each with where it sits.
pub open spec fn nested_machines(machines: Seq<MachineV>) -> Seq<MachineV> {
    Seq::new(
        machines.len(),
        |i: int|
            MachineV {
                inside: holder_of(machines, machines[i].states, i, machines.len(), 0),
                ..machines[i]
            },
    )
}

/// The length of the shortest name of a list.
pub open spec fn shortest(states: Seq<Seq<char>>) -> nat
    decreases states.len(),
{
    if states.len() == 0 {
        0
    } else if states.len() == 1 {
        states[0].len()
    } else {
        let before = shortest(states.drop_last());
        if states.last().len() < before {
            states.last().len()
        } else {
            before
        }
    }
}

/// How many machines a machine is inside. The names of the states that hold
/// it grow shorter on the way out.
pub open spec fn depth_of(machines: Seq<MachineV>, i: int) -> nat
    decreases shortest(machines[i].states),
{
    match machines[i].inside {
        Some((outer, _)) => if shortest(machines[outer as int].states) < shortest(
            machines[i].states,
        ) {
            1 + depth_of(machines, outer as int)
        } else {
            0
        },
        None => 0,
    }
}

/// A machine put after those that are no deeper.
pub open spec fn put_by_depth(machines: Seq<MachineV>, order: Seq<usize>, i: usize) -> Seq<usize>
    decreases order.len(),
{
    if order.len() == 0 || depth_of(machines, order.last() as int) <= depth_of(machines, i as int) {
        order.push(i)
    } else {
        put_by_depth(machines, order.drop_last(), i).push(order.last())
    }
}

/// The first `n` machines, the outermost first.
pub open spec fn order_of(machines: Seq<MachineV>, n: nat) -> Seq<usize>
    decreases n,
{
    if n == 0 {
        Seq::empty()
    } else {
        put_by_depth(machines, order_of(machines, (n - 1) as nat), (n - 1) as usize)
    }
}

/// The machines in an order, each with where it sits in that order.
pub open spec fn arranged(machines: Seq<MachineV>, order: Seq<usize>) -> Seq<MachineV> {
    Seq::new(
        order.len(),
        |k: int|
            MachineV {
                inside: match machines[order[k] as int].inside {
                    Some((outer, at)) => Some((order.index_of(outer) as usize, at)),
                    None => None,
                },
                ..machines[order[k] as int]
            },
    )
}

/// What a model's arrows and starting states come to: the machines,
/// outermost first.
pub open spec fn partitioned(
    transitions: Seq<TransitionV>,
    starting: Seq<Seq<char>>,
) -> Result<Seq<MachineV>, Seq<char>> {
    match machines_of(all_groups(arrow_groups(transitions), starting), transitions, starting) {
        Err(why) => Err(why),
        Ok(machines) => {
            let nested = nested_machines(machines);
            Ok(arranged(nested, order_of(nested, nested.len())))
        },
    }
}

pub open spec fn group_views(groups: Seq<Vec<String>>) -> Seq<Seq<Seq<char>>> {
    Seq::new(groups.len(), |i: int| texts(groups[i]@))
}

fn find_group(groups: &Vec<Vec<String>>, name: &str) -> (r: Option<usize>)
    ensures
        match r {
            Some(at) => at < groups.len() && group_with(group_views(groups@), name@, 0) == Some(
                at as nat,
            ),
            None => group_with(group_views(groups@), name@, 0) is None,
        },
{
    let ghost all = group_views(groups@);
    let mut i: usize = 0;
    while i < groups.len()
        invariant
            i <= groups.len(),
            all == group_views(groups@),
            group_with(all, name@, 0) == group_with(all, name@, i as nat),
        decreases groups.len() - i,
    {
        if holds(&groups[i], name) {
            return Some(i);
        }
        i = i + 1;
    }
    None
}

/// Add one name to a group.
fn push_into(groups: &mut Vec<Vec<String>>, at: usize, name: &str)
    requires
        at < old(groups).len(),
    ensures
        group_views(final(groups)@) == group_views(old(groups)@).update(
            at as int,
            group_views(old(groups)@)[at as int].push(name@),
        ),
{
    let ghost was = group_views(groups@);
    let mut group = groups.remove(at);
    let ghost before = texts(group@);
    group.push(name.to_owned());
    assert(texts(group@) =~= before.push(name@));
    groups.insert(at, group);
    assert(group_views(groups@) =~= was.update(at as int, was[at as int].push(name@)));
}

/// Move everything in the group at `high` to the end of the one at `low`.
fn merge_groups(groups: &mut Vec<Vec<String>>, low: usize, high: usize)
    requires
        low < high < old(groups).len(),
    ensures
        group_views(final(groups)@) == group_views(old(groups)@).remove(high as int).update(
            low as int,
            group_views(old(groups)@)[low as int] + group_views(old(groups)@)[high as int],
        ),
{
    let ghost was = group_views(groups@);
    let mut moved = groups.remove(high);
    let mut group = groups.remove(low);
    let ghost a = texts(group@);
    let ghost b = texts(moved@);
    group.append(&mut moved);
    assert(texts(group@) =~= a + b);
    groups.insert(low, group);
    assert(group_views(groups@) =~= was.remove(high as int).update(
        low as int,
        was[low as int] + was[high as int],
    ));
}

fn join_states(groups: &mut Vec<Vec<String>>, a: &str, b: &str)
    ensures
        group_views(final(groups)@) == joined(group_views(old(groups)@), a@, b@),
{
    let ghost was = group_views(groups@);
    match (find_group(groups, a), find_group(groups, b)) {
        (Some(one), Some(other)) => {
            if one < other {
                merge_groups(groups, one, other);
            } else if other < one {
                merge_groups(groups, other, one);
            }
        },
        (Some(one), None) => {
            push_into(groups, one, b);
        },
        (None, Some(other)) => {
            push_into(groups, other, a);
        },
        (None, None) => {
            let mut pair: Vec<String> = Vec::new();
            pair.push(a.to_owned());
            pair.push(b.to_owned());
            assert(texts(pair@) =~= seq![a@, b@]);
            groups.push(pair);
            assert(group_views(groups@) =~= was.push(seq![a@, b@]));
        },
    }
}

fn find_groups(transitions: &Vec<Transition>, starting: &Vec<String>) -> (r: Vec<Vec<String>>)
    ensures
        group_views(r@) == all_groups(
            arrow_groups(transitions.deep_view()),
            texts(starting@),
        ),
{
    let ghost all = transitions.deep_view();
    let ghost begun = texts(starting@);
    let mut groups: Vec<Vec<String>> = Vec::new();
    let mut i: usize = 0;
    assert(group_views(groups@) =~= arrow_groups(all.take(0)));
    while i < transitions.len()
        invariant
            i <= transitions.len(),
            all == transitions.deep_view(),
            group_views(groups@) == arrow_groups(all.take(i as int)),
        decreases transitions.len() - i,
    {
        assert(all.take(i + 1).drop_last() =~= all.take(i as int));
        join_states(&mut groups, transitions[i].from.as_str(), transitions[i].to.as_str());
        i = i + 1;
    }
    assert(all.take(i as int) =~= all);
    let ghost reached = arrow_groups(all);
    let mut i: usize = 0;
    assert(begun.take(0) =~= Seq::empty());
    while i < starting.len()
        invariant
            i <= starting.len(),
            begun == texts(starting@),
            group_views(groups@) == all_groups(reached, begun.take(i as int)),
        decreases starting.len() - i,
    {
        let ghost before = group_views(groups@);
        assert(begun.take(i + 1).drop_last() =~= begun.take(i as int));
        if find_group(&groups, starting[i].as_str()).is_none() {
            let mut one: Vec<String> = Vec::new();
            one.push(starting[i].clone());
            assert(texts(one@) =~= seq![begun[i as int]]);
            groups.push(one);
            assert(group_views(groups@) =~= before.push(seq![begun[i as int]]));
        }
        i = i + 1;
    }
    assert(begun.take(i as int) =~= begun);
    groups
}

fn names_within(names: &Vec<String>, group: &Vec<String>) -> (r: Vec<String>)
    ensures
        texts(r@) == within(texts(names@), texts(group@)),
{
    let ghost all = texts(names@);
    let mut out: Vec<String> = Vec::new();
    let mut i: usize = 0;
    assert(texts(out@) =~= within(all.take(0), texts(group@)));
    while i < names.len()
        invariant
            i <= names.len(),
            all == texts(names@),
            texts(out@) == within(all.take(i as int), texts(group@)),
        decreases names.len() - i,
    {
        let ghost before = texts(out@);
        assert(all.take(i + 1).drop_last() =~= all.take(i as int));
        if holds(group, names[i].as_str()) {
            out.push(names[i].clone());
            assert(texts(out@) =~= before.push(all[i as int]));
        }
        i = i + 1;
    }
    assert(all.take(i as int) =~= all);
    out
}

fn add_end(states: &mut Vec<String>, group: &Vec<String>, end: &String)
    ensures
        texts(final(states)@) == with_end(texts(old(states)@), texts(group@), end@),
{
    let ghost before = texts(states@);
    if holds(group, end.as_str()) && !holds(states, end.as_str()) {
        states.push(end.clone());
        assert(texts(states@) =~= before.push(end@));
    }
}

fn build_machine(group: &Vec<String>, transitions: &Vec<Transition>, starting: &Vec<String>) -> (r:
    Result<Machine, String>)
    ensures
        told(r) == machine_of(texts(group@), transitions.deep_view(), texts(starting@)),
{
    let ghost all = transitions.deep_view();
    let ghost held = texts(group@);
    let starts_here = names_within(starting, group);
    if starts_here.len() == 0 {
        let list = quoted(group);
        return Err(
            join3(
                "the states ",
                list.as_str(),
                " are joined by arrows and none of them is where the machine starts - one `initialState` to a machine",
            ),
        );
    }
    if starts_here.len() > 1 {
        let list = quoted(group);
        let count = decimal(starts_here.len() as u64);
        return Err(
            join5(
                "the states ",
                list.as_str(),
                " are one machine, and ",
                count.as_str(),
                " of them are named as where it starts",
            ),
        );
    }
    let ghost start = texts(starts_here@)[0];
    let mut states: Vec<String> = Vec::new();
    states.push(starts_here[0].clone());
    let mut arrows: Vec<Transition> = Vec::new();
    let mut i: usize = 0;
    assert(all.take(0) =~= Seq::empty());
    assert(texts(states@) =~= seq![start]);
    assert(arrows.deep_view() =~= Seq::empty());
    while i < transitions.len()
        invariant
            i <= transitions.len(),
            all == transitions.deep_view(),
            held == texts(group@),
            texts(states@) == states_from(start, held, all.take(i as int)),
            arrows.deep_view() == arrows_from(held, all.take(i as int)),
        decreases transitions.len() - i,
    {
        let ghost before = arrows.deep_view();
        assert(all.take(i + 1).drop_last() =~= all.take(i as int));
        add_end(&mut states, group, &transitions[i].from);
        add_end(&mut states, group, &transitions[i].to);
        if holds(group, transitions[i].from.as_str()) {
            arrows.push(transitions[i].clone());
            assert(arrows.deep_view() =~= before.push(all[i as int]));
        }
        i = i + 1;
    }
    assert(all.take(i as int) =~= all);
    Ok(Machine { states, arrows, inside: None })
}

proof fn lemma_machines_of_stop(
    groups: Seq<Seq<Seq<char>>>,
    transitions: Seq<TransitionV>,
    starting: Seq<Seq<char>>,
    n: int,
)
    requires
        0 <= n <= groups.len(),
        machines_of(groups.take(n), transitions, starting) is Err,
    ensures
        machines_of(groups, transitions, starting) == machines_of(
            groups.take(n),
            transitions,
            starting,
        ),
    decreases groups.len() - n,
{
    if n < groups.len() {
        assert(groups.take(n + 1).drop_last() =~= groups.take(n));
        lemma_machines_of_stop(groups, transitions, starting, n + 1);
    } else {
        assert(groups.take(n) =~= groups);
    }
}

fn build_machines(
    groups: &Vec<Vec<String>>,
    transitions: &Vec<Transition>,
    starting: &Vec<String>,
) -> (r: Result<Vec<Machine>, String>)
    ensures
        told(r) == machines_of(
            group_views(groups@),
            transitions.deep_view(),
            texts(starting@),
        ),
{
    let ghost all = group_views(groups@);
    let ghost arrows = transitions.deep_view();
    let ghost begun = texts(starting@);
    let mut out: Vec<Machine> = Vec::new();
    let mut i: usize = 0;
    assert(all.take(0) =~= Seq::empty());
    assert(out.deep_view() =~= Seq::empty());
    while i < groups.len()
        invariant
            i <= groups.len(),
            all == group_views(groups@),
            arrows == transitions.deep_view(),
            begun == texts(starting@),
            machines_of(all.take(i as int), arrows, begun) == Ok::<Seq<MachineV>, Seq<char>>(
                out.deep_view(),
            ),
        decreases groups.len() - i,
    {
        let ghost before = out.deep_view();
        assert(all.take(i + 1).drop_last() =~= all.take(i as int));
        match build_machine(&groups[i], transitions, starting) {
            Ok(machine) => {
                out.push(machine);
                assert(out.deep_view() =~= before.push(machine.deep_view()));
            },
            Err(why) => {
                proof {
                    lemma_machines_of_stop(all, arrows, begun, i + 1);
                }
                return Err(why);
            },
        }
        i = i + 1;
    }
    assert(all.take(i as int) =~= all);
    Ok(out)
}

fn is_all_under(states: &Vec<String>, state: &str) -> (r: bool)
    ensures
        r == all_under(texts(states@), state@),
{
    let under = join2(state, ".");
    let mut i: usize = 0;
    while i < states.len()
        invariant
            i <= states.len(),
            under@ == state@ + "."@,
            forall|k: int| 0 <= k < i ==> begins_with(#[trigger] texts(states@)[k], under@),
        decreases states.len() - i,
    {
        if !starts(states[i].as_str(), under.as_str()) {
            assert(!begins_with(texts(states@)[i as int], under@));
            return false;
        }
        i = i + 1;
    }
    true
}

/// Whether a place is a state of some machine.
pub open spec fn is_place(machines: Seq<MachineV>, place: Option<(usize, usize)>) -> bool {
    match place {
        Some((outer, at)) => outer < machines.len() && at < machines[outer as int].states.len(),
        None => true,
    }
}

fn find_holder(machines: &Vec<Machine>, index: usize) -> (r: Option<(usize, usize)>)
    requires
        index < machines.len(),
    ensures
        r == holder_of(
            machines.deep_view(),
            machines.deep_view()[index as int].states,
            index as int,
            machines@.len(),
            0,
        ),
        is_place(machines.deep_view(), r),
{
    let ghost all = machines.deep_view();
    let ghost states = all[index as int].states;
    assert(states == texts(machines@[index as int].states@));
    let mut best: Option<(usize, usize)> = None;
    let mut outer: usize = 0;
    while outer < machines.len()
        invariant
            index < machines.len(),
            outer <= machines.len(),
            all == machines.deep_view(),
            states == texts(machines@[index as int].states@),
            is_place(all, best),
            best == holder_of(all, states, index as int, outer as nat, 0),
        decreases machines.len() - outer,
    {
        let holding = &machines[outer];
        assert(all[outer as int] == holding.deep_view());
        let mut at: usize = 0;
        while at < holding.states.len()
            invariant
                index < machines.len(),
                outer < machines.len(),
                at <= holding.states.len(),
                all == machines.deep_view(),
                all[outer as int] == holding.deep_view(),
                states == texts(machines@[index as int].states@),
                is_place(all, best),
                best == holder_of(all, states, index as int, outer as nat, at as nat),
            decreases holding.states.len() - at,
        {
            let ghost state = all[outer as int].states[at as int];
            assert(state == holding.states@[at as int]@);
            if outer != index && is_all_under(&machines[index].states, holding.states[at].as_str()) {
                let takes = match best {
                    Some((o, a)) => {
                        assert(all[o as int] == machines@[o as int].deep_view());
                        assert(all[o as int].states[a as int] == machines@[o as int].states@[a as int]@);
                        holding.states[at].as_str().unicode_len()
                            > machines[o].states[a].as_str().unicode_len()
                    },
                    None => true,
                };
                if takes {
                    best = Some((outer, at));
                }
            }
            at = at + 1;
        }
        outer = outer + 1;
    }
    best
}

proof fn lemma_holder_is_holder(
    machines: Seq<MachineV>,
    states: Seq<Seq<char>>,
    index: int,
    outer: nat,
    at: nat,
)
    requires
        outer <= machines.len(),
        machines.len() <= usize::MAX,
        forall|k: int| 0 <= k < machines.len() ==> (#[trigger] machines[k]).states.len() <= usize::MAX,
    ensures
        match holder_of(machines, states, index, outer, at) {
            Some((o, a)) => o < machines.len() && a < machines[o as int].states.len() && all_under(
                states,
                machines[o as int].states[a as int],
            ),
            None => true,
        },
    decreases outer, at,
{
    if at > 0 && outer < machines.len() && at <= machines[outer as int].states.len() {
        lemma_holder_is_holder(machines, states, index, outer, (at - 1) as nat);
    } else if outer > 0 {
        lemma_holder_is_holder(
            machines,
            states,
            index,
            (outer - 1) as nat,
            machines[outer - 1].states.len(),
        );
    }
}

proof fn lemma_shortest(states: Seq<Seq<char>>, i: int)
    requires
        0 <= i < states.len(),
    ensures
        shortest(states) <= states[i].len(),
    decreases states.len(),
{
    if i < states.len() - 1 {
        lemma_shortest(states.drop_last(), i);
    }
}

proof fn lemma_all_under_longer(states: Seq<Seq<char>>, state: Seq<char>)
    requires
        all_under(states, state),
        states.len() > 0,
    ensures
        shortest(states) > state.len(),
    decreases states.len(),
{
    reveal_strlit(".");
    assert(begins_with(states[0], state + "."@));
    assert(begins_with(states[states.len() - 1], state + "."@));
    if states.len() > 1 {
        let front = states.drop_last();
        assert forall|i: int| 0 <= i < front.len() implies begins_with(
            #[trigger] front[i],
            state + "."@,
        ) by {
            assert(front[i] == states[i]);
        }
        lemma_all_under_longer(front, state);
    }
}

proof fn lemma_states_from(
    start: Seq<char>,
    group: Seq<Seq<char>>,
    transitions: Seq<TransitionV>,
)
    ensures
        states_from(start, group, transitions).len() > 0,
    decreases transitions.len(),
{
    if transitions.len() > 0 {
        lemma_states_from(start, group, transitions.drop_last());
    }
}

proof fn lemma_machines_have_states(
    groups: Seq<Seq<Seq<char>>>,
    transitions: Seq<TransitionV>,
    starting: Seq<Seq<char>>,
)
    ensures
        machines_of(groups, transitions, starting) matches Ok(machines) ==> forall|i: int|
            0 <= i < machines.len() ==> (#[trigger] machines[i]).states.len() > 0,
    decreases groups.len(),
{
    if groups.len() > 0 {
        lemma_machines_have_states(groups.drop_last(), transitions, starting);
        if let Ok(machine) = machine_of(groups.last(), transitions, starting) {
            lemma_states_from(within(starting, groups.last())[0], groups.last(), transitions);
        }
    }
}

/// A machine that sits inside a state of another has longer names than some
/// state of that other, so no machine is inside itself however far out one
/// goes.
pub proof fn law_nesting_ends(machines: Seq<MachineV>, i: int)
    requires
        0 <= i < machines.len(),
        machines.len() <= usize::MAX,
        forall|k: int|
            0 <= k < machines.len() ==> 0 < (#[trigger] machines[k]).states.len() <= usize::MAX,
    ensures
        nested_machines(machines)[i].inside matches Some((outer, at)) ==> outer < machines.len() && at
            < machines[outer as int].states.len() && shortest(machines[outer as int].states)
            < shortest(machines[i].states),
{
    lemma_holder_is_holder(machines, machines[i].states, i, machines.len(), 0);
    if let Some((outer, at)) = nested_machines(machines)[i].inside {
        lemma_all_under_longer(machines[i].states, machines[outer as int].states[at as int]);
        lemma_shortest(machines[outer as int].states, at as int);
    }
}

/// Whether every machine sits in another with shorter names.
pub open spec fn is_nested(machines: Seq<MachineV>) -> bool {
    forall|i: int|
        0 <= i < machines.len() ==> match (#[trigger] machines[i]).inside {
            Some((outer, at)) => outer < machines.len() && at < machines[outer as int].states.len()
                && shortest(machines[outer as int].states) < shortest(machines[i].states),
            None => true,
        }
}

fn find_depth(machines: &Vec<Machine>, index: usize) -> (r: usize)
    requires
        index < machines.len(),
        is_nested(machines.deep_view()),
    ensures
        r == depth_of(machines.deep_view(), index as int),
        r <= shortest(machines.deep_view()[index as int].states),
    decreases shortest(machines.deep_view()[index as int].states),
{
    let ghost all = machines.deep_view();
    assert(all[index as int] == machines@[index as int].deep_view());
    match machines[index].inside {
        Some((outer, _)) => {
            let out: usize = find_depth(machines, outer);
            let ghost states = all[index as int].states;
            assert(states == texts(machines@[index as int].states@));
            assert(states.len() > 0);
            // Names that are held are no longer than can be counted.
            let room: usize = machines[index].states[0].as_str().unicode_len();
            proof {
                lemma_shortest(states, 0);
                assert(states[0] == machines@[index as int].states@[0]@);
                assert(shortest(states) <= room);
            }
            out + 1
        },
        None => 0,
    }
}


proof fn lemma_put_by_depth(machines: Seq<MachineV>, order: Seq<usize>, i: usize)
    ensures
        put_by_depth(machines, order, i).len() == order.len() + 1,
        forall|x: usize| #[trigger]
            put_by_depth(machines, order, i).contains(x) <==> order.contains(x) || x == i,
        order.no_duplicates() && !order.contains(i) ==> put_by_depth(
            machines,
            order,
            i,
        ).no_duplicates(),
    decreases order.len(),
{
    let after = put_by_depth(machines, order, i);
    if order.len() == 0 || depth_of(machines, order.last() as int) <= depth_of(machines, i as int) {
        lemma_pushed(order, i);
    } else {
        let front = order.drop_last();
        lemma_put_by_depth(machines, front, i);
        let before = put_by_depth(machines, front, i);
        lemma_pushed(before, order.last());
        lemma_pushed(front, order.last());
        assert(front.push(order.last()) =~= order);
        if order.no_duplicates() && !order.contains(i) {
            assert(order.contains(order.last())) by {
                assert(order[order.len() - 1] == order.last());
            }
            assert(!front.contains(order.last())) by {
                if front.contains(order.last()) {
                    let k = choose|k: int| 0 <= k < front.len() && front[k] == order.last();
                    assert(order[k] == order[order.len() - 1]);
                }
            }
            assert(front.no_duplicates()) by {
                assert forall|a: int, b: int| 0 <= a < front.len() && 0 <= b < front.len() && a
                    != b implies front[a] != front[b] by {
                    assert(order[a] != order[b]);
                }
            }
        }
    }
}

proof fn lemma_pushed(list: Seq<usize>, x: usize)
    ensures
        forall|y: usize| #[trigger] list.push(x).contains(y) <==> list.contains(y) || y == x,
        list.no_duplicates() && !list.contains(x) ==> list.push(x).no_duplicates(),
{
    let after = list.push(x);
    assert forall|y: usize| #[trigger] after.contains(y) <==> list.contains(y) || y == x by {
        if after.contains(y) {
            let k = choose|k: int| 0 <= k < after.len() && after[k] == y;
            if k < list.len() {
                assert(list[k] == y);
            }
        }
        if list.contains(y) {
            let k = choose|k: int| 0 <= k < list.len() && list[k] == y;
            assert(after[k] == y);
        }
        if y == x {
            assert(after[list.len() as int] == y);
        }
    }
    if list.no_duplicates() && !list.contains(x) {
        assert forall|a: int, b: int| 0 <= a < after.len() && 0 <= b < after.len() && a
            != b implies after[a] != after[b] by {
            if a < list.len() && b < list.len() {
                assert(list[a] != list[b]);
            } else if a < list.len() {
                assert(list.contains(list[a]));
            } else if b < list.len() {
                assert(list.contains(list[b]));
            }
        }
    }
}

/// The order holds every machine, and each once.
proof fn lemma_order_of(machines: Seq<MachineV>, n: nat)
    requires
        n <= usize::MAX,
    ensures
        order_of(machines, n).len() == n,
        order_of(machines, n).no_duplicates(),
        forall|x: usize| #[trigger] order_of(machines, n).contains(x) <==> x < n,
    decreases n,
{
    if n > 0 {
        lemma_order_of(machines, (n - 1) as nat);
        lemma_put_by_depth(machines, order_of(machines, (n - 1) as nat), (n - 1) as usize);
    }
}

fn put_index(depths: &Vec<usize>, order: &mut Vec<usize>, i: usize, machines: Ghost<Seq<MachineV>>)
    requires
        i < depths.len(),
        forall|k: int|
            0 <= k < depths.len() ==> #[trigger] depths@[k] == depth_of(machines@, k),
        forall|k: int| 0 <= k < old(order).len() ==> (#[trigger] old(order)@[k]) < depths.len(),
    ensures
        final(order)@ == put_by_depth(machines@, old(order)@, i),
{
    let ghost was = order@;
    let mut at: usize = order.len();
    let ghost mut tail: Seq<usize> = Seq::empty();
    assert(was.take(at as int) =~= was);
    assert(put_by_depth(machines@, was, i) =~= put_by_depth(machines@, was.take(at as int), i)
        + tail);
    while at > 0
        invariant
            at <= order.len(),
            was == order@,
            was == old(order)@,
            i < depths.len(),
            forall|k: int|
                0 <= k < depths.len() ==> #[trigger] depths@[k] == depth_of(machines@, k),
            forall|k: int| 0 <= k < was.len() ==> (#[trigger] was[k]) < depths.len(),
            tail == was.skip(at as int),
            put_by_depth(machines@, was, i) == put_by_depth(machines@, was.take(at as int), i)
                + tail,
        decreases at,
    {
        let ghost here = was.take(at as int);
        assert(here.last() == was[at - 1]);
        assert(here.drop_last() =~= was.take(at - 1));
        assert(depths@[was[at - 1] as int] == depth_of(machines@, was[at - 1] as int));
        if depths[order[at - 1]] <= depths[i] {
            order.insert(at, i);
            assert(order@ =~= here.push(i) + tail);
            return;
        }
        proof {
            assert(put_by_depth(machines@, here, i) + tail =~= put_by_depth(
                machines@,
                was.take(at - 1),
                i,
            ) + (seq![was[at - 1]] + tail));
            tail = seq![was[at - 1]] + tail;
            assert(tail =~= was.skip(at - 1));
        }
        at = at - 1;
    }
    order.insert(0, i);
    assert(was.take(0) =~= Seq::empty());
    assert(order@ =~= seq![i] + tail);
}

fn find_order(machines: &Vec<Machine>) -> (r: Vec<usize>)
    requires
        is_nested(machines.deep_view()),
    ensures
        r@ == order_of(machines.deep_view(), machines@.len()),
{
    let ghost all = machines.deep_view();
    let mut depths: Vec<usize> = Vec::new();
    let mut i: usize = 0;
    while i < machines.len()
        invariant
            i <= machines.len(),
            all == machines.deep_view(),
            is_nested(all),
            depths.len() == i,
            forall|k: int| 0 <= k < i ==> #[trigger] depths@[k] == depth_of(all, k),
        decreases machines.len() - i,
    {
        depths.push(find_depth(machines, i));
        i = i + 1;
    }
    let mut order: Vec<usize> = Vec::new();
    let mut i: usize = 0;
    assert(order@ =~= order_of(all, 0));
    while i < machines.len()
        invariant
            i <= machines.len(),
            depths.len() == machines.len(),
            forall|k: int| 0 <= k < depths.len() ==> #[trigger] depths@[k] == depth_of(all, k),
            order@ == order_of(all, i as nat),
        decreases machines.len() - i,
    {
        proof {
            lemma_order_of(all, i as nat);
            assert forall|k: int| 0 <= k < order.len() implies (#[trigger] order@[k])
                < depths.len() by {
                assert(order@.contains(order@[k]));
            }
        }
        put_index(&depths, &mut order, i, Ghost(all));
        i = i + 1;
    }
    order
}

fn find_index(order: &Vec<usize>, wanted: usize) -> (r: usize)
    requires
        order@.no_duplicates(),
        order@.contains(wanted),
    ensures
        r == order@.index_of(wanted),
        r < order.len(),
{
    let mut i: usize = 0;
    while i < order.len()
        invariant
            i <= order.len(),
            order@.no_duplicates(),
            order@.contains(wanted),
            forall|k: int| 0 <= k < i ==> #[trigger] order@[k] != wanted,
        decreases order.len() - i,
    {
        if order[i] == wanted {
            proof {
                let at = order@.index_of(wanted);
                assert(0 <= at < order.len() && order@[at] == wanted);
                assert(order@[i as int] == wanted);
            }
            return i;
        }
        i = i + 1;
    }
    assert(false);
    0
}

fn arrange(machines: &Vec<Machine>, order: &Vec<usize>) -> (r: Vec<Machine>)
    requires
        is_nested(machines.deep_view()),
        order@.no_duplicates(),
        order.len() == machines.len(),
        forall|x: usize| #[trigger] order@.contains(x) <==> x < machines.len(),
    ensures
        r.deep_view() == arranged(machines.deep_view(), order@),
{
    let ghost all = machines.deep_view();
    let mut out: Vec<Machine> = Vec::new();
    let mut k: usize = 0;
    while k < order.len()
        invariant
            k <= order.len(),
            all == machines.deep_view(),
            is_nested(all),
            order@.no_duplicates(),
            forall|x: usize| #[trigger] order@.contains(x) <==> x < machines.len(),
            out.len() == k,
            forall|i: int|
                0 <= i < k ==> (#[trigger] out@[i]).deep_view() == arranged(all, order@)[i],
        decreases order.len() - k,
    {
        assert(order@.contains(order@[k as int]));
        let machine = &machines[order[k]];
        assert(all[order@[k as int] as int] == machine.deep_view());
        let inside: Option<(usize, usize)> = match machine.inside {
            Some((outer, at)) => {
                assert(order@.contains(outer));
                Some((find_index(order, outer), at))
            },
            None => None,
        };
        let states = copied(&machine.states);
        let arrows = copied(&machine.arrows);
        assert(texts(states@) =~= texts(machine.states@)) by {
            assert(texts(states@) =~= states.deep_view());
            assert(texts(machine.states@) =~= machine.states.deep_view());
        }
        out.push(Machine { states, arrows, inside });
        k = k + 1;
    }
    assert(out.deep_view() =~= arranged(all, order@));
    out
}

/// Split what a model declared into machines.
///
/// A machine is a set of states joined by arrows, and nothing joins one
/// machine to another, so the arrows say where one ends and the next begins.
/// A machine whose states all live under one state of another is inside it.
/// The machines come out outermost first.
pub fn partition(transitions: &Vec<Transition>, initial_states: &Vec<String>) -> (r: Result<
    Vec<Machine>,
    String,
>)
    ensures
        told(r) == partitioned(transitions.deep_view(), texts(initial_states@)),
{
    let groups = find_groups(transitions, initial_states);
    let mut machines = match build_machines(&groups, transitions, initial_states) {
        Ok(machines) => machines,
        Err(why) => {
            return Err(why);
        },
    };
    let ghost bare = machines.deep_view();
    proof {
        lemma_machines_have_states(
            group_views(groups@),
            transitions.deep_view(),
            texts(initial_states@),
        );
        assert forall|k: int| 0 <= k < bare.len() implies 0 < (#[trigger] bare[k]).states.len()
            <= usize::MAX by {
            assert(bare[k] == machines@[k].deep_view());
            assert(bare[k].states.len() == machines@[k].states.len());
        }
    }
    let mut places: Vec<Option<(usize, usize)>> = Vec::new();
    let mut i: usize = 0;
    while i < machines.len()
        invariant
            i <= machines.len(),
            bare == machines.deep_view(),
            places.len() == i,
            forall|k: int|
                0 <= k < i ==> #[trigger] places@[k] == nested_machines(bare)[k].inside,
        decreases machines.len() - i,
    {
        places.push(find_holder(&machines, i));
        i = i + 1;
    }
    let mut placed: Vec<Machine> = Vec::new();
    let mut i: usize = 0;
    while i < machines.len()
        invariant
            i <= machines.len(),
            places.len() == machines.len(),
            bare == machines.deep_view(),
            placed.len() == i,
            forall|k: int|
                0 <= k < places.len() ==> #[trigger] places@[k] == nested_machines(bare)[k].inside,
            forall|k: int|
                0 <= k < i ==> (#[trigger] placed@[k]).deep_view() == nested_machines(bare)[k],
        decreases machines.len() - i,
    {
        let machine = &machines[i];
        assert(bare[i as int] == machine.deep_view());
        let states = copied(&machine.states);
        let arrows = copied(&machine.arrows);
        assert(texts(states@) =~= texts(machine.states@)) by {
            assert(texts(states@) =~= states.deep_view());
            assert(texts(machine.states@) =~= machine.states.deep_view());
        }
        placed.push(Machine { states, arrows, inside: places[i] });
        i = i + 1;
    }
    let ghost nested = nested_machines(bare);
    assert(placed.deep_view() =~= nested);
    proof {
        assert forall|i: int| 0 <= i < nested.len() implies match (#[trigger] nested[i]).inside {
            Some((outer, at)) => outer < nested.len() && at < nested[outer as int].states.len()
                && shortest(nested[outer as int].states) < shortest(nested[i].states),
            None => true,
        } by {
            law_nesting_ends(bare, i);
        }
        lemma_order_of(nested, nested.len());
    }
    let order = find_order(&placed);
    Ok(arrange(&placed, &order))
}

/// Whether an arrow joins two states, either way round.
pub open spec fn is_between(t: TransitionV, a: Seq<char>, b: Seq<char>) -> bool {
    (t.from == a && t.to == b) || (t.from == b && t.to == a)
}

pub open spec fn arrow_between(transitions: Seq<TransitionV>, a: Seq<char>, b: Seq<char>) -> bool {
    exists|k: int| 0 <= k < transitions.len() && is_between(#[trigger] transitions[k], a, b)
}

/// Whether an arrow names a state.
pub open spec fn is_named(transitions: Seq<TransitionV>, a: Seq<char>) -> bool {
    exists|k: int|
        0 <= k < transitions.len() && ((#[trigger] transitions[k]).from == a || transitions[k].to
            == a)
}

/// Whether one step of a chain is along an arrow.
pub open spec fn follows(transitions: Seq<TransitionV>, chain: Seq<Seq<char>>, k: int) -> bool {
    arrow_between(transitions, chain[k], chain[k + 1])
}

/// A chain of states, each joined to the next by an arrow.
pub open spec fn is_chain(transitions: Seq<TransitionV>, chain: Seq<Seq<char>>) -> bool {
    &&& chain.len() > 0
    &&& forall|k: int| 0 <= k < chain.len() - 1 ==> #[trigger] follows(transitions, chain, k)
}

/// Whether a chain of arrows joins two states.
pub open spec fn chained(transitions: Seq<TransitionV>, a: Seq<char>, b: Seq<char>) -> bool {
    exists|chain: Seq<Seq<char>>| #[trigger]
        is_chain(transitions, chain) && chain[0] == a && chain.last() == b
}

/// Whether two states are in one group.
pub open spec fn share_a_group(groups: Seq<Seq<Seq<char>>>, a: Seq<char>, b: Seq<char>) -> bool {
    exists|i: int|
        0 <= i < groups.len() && (#[trigger] groups[i]).contains(a) && groups[i].contains(b)
}

/// Whether no state is in two groups.
pub open spec fn are_apart(groups: Seq<Seq<Seq<char>>>) -> bool {
    forall|i: int, j: int, name: Seq<char>|
        0 <= i < groups.len() && 0 <= j < groups.len() && #[trigger] groups[i].contains(name)
            && #[trigger] groups[j].contains(name) ==> i == j
}

proof fn lemma_group_with(groups: Seq<Seq<Seq<char>>>, name: Seq<char>, i: nat)
    ensures
        match group_with(groups, name, i) {
            Some(at) => i <= at < groups.len() && groups[at as int].contains(name),
            None => forall|k: int| i <= k < groups.len() ==> !(#[trigger] groups[k]).contains(name),
        },
    decreases groups.len() - i,
{
    if i < groups.len() && !groups[i as int].contains(name) {
        lemma_group_with(groups, name, i + 1);
    }
}

proof fn lemma_both_contain(x: Seq<Seq<char>>, y: Seq<Seq<char>>, name: Seq<char>)
    ensures
        (x + y).contains(name) <==> x.contains(name) || y.contains(name),
{
    let both = x + y;
    if x.contains(name) {
        let k = x.index_of(name);
        assert(both[k] == name);
    }
    if y.contains(name) {
        let k = y.index_of(name);
        assert(both[x.len() + k] == name);
    }
    if both.contains(name) {
        let k = both.index_of(name);
        if k < x.len() {
            assert(x[k] == name);
        } else {
            assert(y[k - x.len()] == name);
        }
    }
}

/// Two groups put together where the first of them stood.
spec fn merged(groups: Seq<Seq<Seq<char>>>, one: int, other: int) -> Seq<Seq<Seq<char>>> {
    groups.remove(other).update(one, groups[one] + groups[other])
}

/// Where a group of the merged ones stood before.
spec fn stood(other: int, i: int) -> int {
    if i < other {
        i
    } else {
        i + 1
    }
}

proof fn lemma_merged(groups: Seq<Seq<Seq<char>>>, one: int, other: int)
    requires
        are_apart(groups),
        0 <= one < other < groups.len(),
    ensures
        are_apart(merged(groups, one, other)),
        forall|c: Seq<char>, d: Seq<char>|
            share_a_group(groups, c, d) ==> #[trigger] share_a_group(
                merged(groups, one, other),
                c,
                d,
            ),
        forall|c: Seq<char>, d: Seq<char>| #[trigger]
            share_a_group(merged(groups, one, other), c, d) ==> share_a_group(groups, c, d) || ((
            groups[one].contains(c) || groups[other].contains(c)) && (groups[one].contains(d)
                || groups[other].contains(d))),
        merged(groups, one, other)[one] == groups[one] + groups[other],
        one < merged(groups, one, other).len(),
{
    let after = merged(groups, one, other);
    assert forall|i: int| 0 <= i < after.len() && i != one implies #[trigger] after[i]
        == groups[stood(other, i)] by {}
    assert forall|i: int, j: int, name: Seq<char>|
        0 <= i < after.len() && 0 <= j < after.len() && #[trigger] after[i].contains(name)
            && #[trigger] after[j].contains(name) implies i == j by {
        lemma_both_contain(groups[one], groups[other], name);
        if i != one && j != one {
            assert(groups[stood(other, i)].contains(name));
            assert(groups[stood(other, j)].contains(name));
        } else if i == one && j != one {
            assert(groups[stood(other, j)].contains(name));
            assert(groups[one].contains(name) || groups[other].contains(name));
        } else if j == one && i != one {
            assert(groups[stood(other, i)].contains(name));
            assert(groups[one].contains(name) || groups[other].contains(name));
        }
    }
    assert forall|c: Seq<char>, d: Seq<char>| share_a_group(groups, c, d) implies #[trigger]
        share_a_group(after, c, d) by {
        let i = choose|i: int|
            0 <= i < groups.len() && (#[trigger] groups[i]).contains(c) && groups[i].contains(d);
        lemma_both_contain(groups[one], groups[other], c);
        lemma_both_contain(groups[one], groups[other], d);
        if i == one || i == other {
            assert(after[one].contains(c) && after[one].contains(d));
        } else if i < other {
            assert(after[i] == groups[i]);
        } else {
            assert(after[i - 1] == groups[i]);
        }
    }
    assert forall|c: Seq<char>, d: Seq<char>| #[trigger] share_a_group(after, c, d) implies
        share_a_group(groups, c, d) || ((groups[one].contains(c) || groups[other].contains(c)) && (
    groups[one].contains(d) || groups[other].contains(d))) by {
        let i = choose|i: int|
            0 <= i < after.len() && (#[trigger] after[i]).contains(c) && after[i].contains(d);
        lemma_both_contain(groups[one], groups[other], c);
        lemma_both_contain(groups[one], groups[other], d);
        if i != one {
            assert(groups[stood(other, i)].contains(c) && groups[stood(other, i)].contains(d));
        }
    }
}

/// A group grown by a name that is in none.
proof fn lemma_grown(groups: Seq<Seq<Seq<char>>>, at: int, name: Seq<char>)
    requires
        are_apart(groups),
        0 <= at < groups.len(),
        forall|k: int| 0 <= k < groups.len() ==> !(#[trigger] groups[k]).contains(name),
    ensures
        ({
            let after = groups.update(at, groups[at].push(name));
            &&& are_apart(after)
            &&& forall|c: Seq<char>, d: Seq<char>|
                share_a_group(groups, c, d) ==> #[trigger] share_a_group(after, c, d)
            &&& forall|c: Seq<char>, d: Seq<char>| #[trigger]
                share_a_group(after, c, d) ==> share_a_group(groups, c, d) || ((
                groups[at].contains(c) || c == name) && (groups[at].contains(d) || d == name))
            &&& after[at].contains(name)
            &&& forall|c: Seq<char>| groups[at].contains(c) ==> #[trigger] after[at].contains(c)
        }),
{
    let after = groups.update(at, groups[at].push(name));
    let grown = groups[at].push(name);
    assert(grown[groups[at].len() as int] == name);
    assert forall|c: Seq<char>| #[trigger] grown.contains(c) <==> groups[at].contains(c) || c
        == name by {
        assert(grown =~= groups[at] + seq![name]);
        lemma_both_contain(groups[at], seq![name], c);
        if c == name {
            assert(seq![name][0] == c);
        }
    }
    assert forall|i: int, j: int, n: Seq<char>|
        0 <= i < after.len() && 0 <= j < after.len() && #[trigger] after[i].contains(n)
            && #[trigger] after[j].contains(n) implies i == j by {
        if i != at {
            assert(groups[i].contains(n));
        }
        if j != at {
            assert(groups[j].contains(n));
        }
        if i == at {
            assert(grown.contains(n));
        }
        if j == at {
            assert(grown.contains(n));
        }
    }
    assert forall|c: Seq<char>, d: Seq<char>| share_a_group(groups, c, d) implies #[trigger]
        share_a_group(after, c, d) by {
        let i = choose|i: int|
            0 <= i < groups.len() && (#[trigger] groups[i]).contains(c) && groups[i].contains(d);
        assert(after[i].contains(c) && after[i].contains(d));
    }
    assert forall|c: Seq<char>, d: Seq<char>| #[trigger] share_a_group(after, c, d) implies
        share_a_group(groups, c, d) || ((groups[at].contains(c) || c == name) && (
    groups[at].contains(d) || d == name)) by {
        let i = choose|i: int|
            0 <= i < after.len() && (#[trigger] after[i]).contains(c) && after[i].contains(d);
        if i == at {
            assert(grown.contains(c) && grown.contains(d));
        } else {
            assert(groups[i].contains(c) && groups[i].contains(d));
        }
    }
}

/// Whether a state is at an end of an arrow or in a group with one.
spec fn is_touched(groups: Seq<Seq<Seq<char>>>, c: Seq<char>, a: Seq<char>, b: Seq<char>) -> bool {
    c == a || c == b || share_a_group(groups, c, a) || share_a_group(groups, c, b)
}

/// What an arrow puts together, and what it leaves as it was.
proof fn lemma_joined(groups: Seq<Seq<Seq<char>>>, a: Seq<char>, b: Seq<char>)
    requires
        are_apart(groups),
    ensures
        are_apart(joined(groups, a, b)),
        share_a_group(joined(groups, a, b), a, b),
        forall|c: Seq<char>, d: Seq<char>|
            share_a_group(groups, c, d) ==> #[trigger] share_a_group(joined(groups, a, b), c, d),
        forall|c: Seq<char>, d: Seq<char>| #[trigger]
            share_a_group(joined(groups, a, b), c, d) ==> share_a_group(groups, c, d) || (
            is_touched(groups, c, a, b) && is_touched(groups, d, a, b)),
{
    lemma_group_with(groups, a, 0);
    lemma_group_with(groups, b, 0);
    let after = joined(groups, a, b);
    match (group_with(groups, a, 0), group_with(groups, b, 0)) {
        (Some(one), Some(other)) => {
            let (low, high) = if one < other {
                (one as int, other as int)
            } else {
                (other as int, one as int)
            };
            if one != other {
                assert(after == merged(groups, low, high));
                lemma_merged(groups, low, high);
                lemma_both_contain(groups[low], groups[high], a);
                lemma_both_contain(groups[low], groups[high], b);
                assert(after[low].contains(a) && after[low].contains(b));
            } else {
                assert(groups[one as int].contains(a) && groups[one as int].contains(b));
            }
        },
        (Some(one), None) => {
            lemma_grown(groups, one as int, b);
            assert(after[one as int].contains(a) && after[one as int].contains(b));
        },
        (None, Some(other)) => {
            lemma_grown(groups, other as int, a);
            assert(after[other as int].contains(a) && after[other as int].contains(b));
        },
        (None, None) => {
            let ends = seq![a, b];
            assert(ends[0] == a && ends[1] == b);
            assert(after[groups.len() as int] == ends);
            assert(ends.contains(a) && ends.contains(b));
            assert forall|i: int, j: int, n: Seq<char>|
                0 <= i < after.len() && 0 <= j < after.len() && #[trigger] after[i].contains(n)
                    && #[trigger] after[j].contains(n) implies i == j by {
                if i < groups.len() {
                    assert(groups[i].contains(n));
                }
                if j < groups.len() {
                    assert(groups[j].contains(n));
                }
            }
            assert forall|c: Seq<char>, d: Seq<char>| share_a_group(groups, c, d) implies
                #[trigger] share_a_group(after, c, d) by {
                let i = choose|i: int|
                    0 <= i < groups.len() && (#[trigger] groups[i]).contains(c)
                        && groups[i].contains(d);
                assert(after[i].contains(c) && after[i].contains(d));
            }
            assert forall|c: Seq<char>, d: Seq<char>| #[trigger] share_a_group(after, c, d) implies
                share_a_group(groups, c, d) || (is_touched(groups, c, a, b) && is_touched(
                groups,
                d,
                a,
                b,
            )) by {
                let i = choose|i: int|
                    0 <= i < after.len() && (#[trigger] after[i]).contains(c) && after[i].contains(
                        d,
                    );
                if i < groups.len() {
                    assert(groups[i].contains(c) && groups[i].contains(d));
                }
            }
        },
    }
    assert forall|c: Seq<char>, d: Seq<char>| #[trigger] share_a_group(after, c, d) implies
        share_a_group(groups, c, d) || (is_touched(groups, c, a, b) && is_touched(groups, d, a, b)) by {
        if let Some(one) = group_with(groups, a, 0) {
            if groups[one as int].contains(c) {
                assert(share_a_group(groups, c, a));
            }
            if groups[one as int].contains(d) {
                assert(share_a_group(groups, d, a));
            }
        }
        if let Some(other) = group_with(groups, b, 0) {
            if groups[other as int].contains(c) {
                assert(share_a_group(groups, c, b));
            }
            if groups[other as int].contains(d) {
                assert(share_a_group(groups, d, b));
            }
        }
    }
}

/// Every state is chained to itself, chains lead both ways, and a chain to a
/// chain is a chain.
pub proof fn law_chained(
    transitions: Seq<TransitionV>,
    a: Seq<char>,
    b: Seq<char>,
    c: Seq<char>,
)
    ensures
        chained(transitions, a, a),
        chained(transitions, a, b) ==> chained(transitions, b, a),
        chained(transitions, a, b) && chained(transitions, b, c) ==> chained(transitions, a, c),
{
    let alone = seq![a];
    assert(is_chain(transitions, alone));
    if chained(transitions, a, b) {
        let chain = choose|chain: Seq<Seq<char>>| #[trigger]
            is_chain(transitions, chain) && chain[0] == a && chain.last() == b;
        let back = chain.reverse();
        assert forall|k: int| 0 <= k < back.len() - 1 implies #[trigger] follows(
            transitions,
            back,
            k,
        ) by {
            let at = chain.len() - 2 - k;
            assert(follows(transitions, chain, at));
            let e = choose|e: int|
                0 <= e < transitions.len() && is_between(
                    #[trigger] transitions[e],
                    chain[at],
                    chain[at + 1],
                );
            assert(is_between(transitions[e], back[k], back[k + 1]));
        }
        assert(is_chain(transitions, back));
        if chained(transitions, b, c) {
            let more = choose|more: Seq<Seq<char>>| #[trigger]
                is_chain(transitions, more) && more[0] == b && more.last() == c;
            let whole = chain + more.drop_first();
            assert forall|k: int| 0 <= k < whole.len() - 1 implies #[trigger] follows(
                transitions,
                whole,
                k,
            ) by {
                if k < chain.len() - 1 {
                    assert(follows(transitions, chain, k));
                } else {
                    let at = k - (chain.len() - 1);
                    assert(follows(transitions, more, at));
                    assert(whole[k] == more[at]);
                    assert(whole[k + 1] == more[at + 1]);
                }
            }
            assert(is_chain(transitions, whole));
            assert(whole.last() == c);
        }
    }
}

proof fn lemma_more_arrows(transitions: Seq<TransitionV>, a: Seq<char>, b: Seq<char>)
    requires
        transitions.len() > 0,
        chained(transitions.drop_last(), a, b),
    ensures
        chained(transitions, a, b),
{
    let before = transitions.drop_last();
    let chain = choose|chain: Seq<Seq<char>>| #[trigger]
        is_chain(before, chain) && chain[0] == a && chain.last() == b;
    assert forall|k: int| 0 <= k < chain.len() - 1 implies #[trigger] follows(
        transitions,
        chain,
        k,
    ) by {
        assert(follows(before, chain, k));
        let e = choose|e: int|
            0 <= e < before.len() && is_between(#[trigger] before[e], chain[k], chain[k + 1]);
        assert(transitions[e] == before[e]);
    }
    assert(is_chain(transitions, chain));
}

/// What is in one group is named by arrows and chained by them.
proof fn lemma_sharing_is_chained(transitions: Seq<TransitionV>, c: Seq<char>, d: Seq<char>)
    requires
        share_a_group(arrow_groups(transitions), c, d),
    ensures
        are_apart(arrow_groups(transitions)),
        is_named(transitions, c),
        is_named(transitions, d),
        chained(transitions, c, d),
    decreases transitions.len(), 1int,
{
    lemma_apart(transitions);
    if transitions.len() > 0 {
        let before = transitions.drop_last();
        let groups = arrow_groups(before);
        let a = transitions.last().from;
        let b = transitions.last().to;
        lemma_apart(before);
        lemma_joined(groups, a, b);
        let last = transitions.len() - 1;
        assert(transitions[last] == transitions.last());
        if share_a_group(groups, c, d) {
            lemma_sharing_is_chained(before, c, d);
            lemma_more_arrows(transitions, c, d);
            lemma_named_still(transitions, c);
            lemma_named_still(transitions, d);
        } else {
            lemma_touched_is_chained(transitions, c);
            lemma_touched_is_chained(transitions, d);
            law_chained(transitions, d, a, a);
            law_chained(transitions, c, a, d);
        }
    }
}

proof fn lemma_named_still(transitions: Seq<TransitionV>, c: Seq<char>)
    requires
        transitions.len() > 0,
        is_named(transitions.drop_last(), c),
    ensures
        is_named(transitions, c),
{
    let before = transitions.drop_last();
    let k = choose|k: int|
        0 <= k < before.len() && ((#[trigger] before[k]).from == c || before[k].to == c);
    assert(transitions[k] == before[k]);
}

/// What the last arrow touches is chained to where it starts.
proof fn lemma_touched_is_chained(transitions: Seq<TransitionV>, c: Seq<char>)
    requires
        transitions.len() > 0,
        is_touched(
            arrow_groups(transitions.drop_last()),
            c,
            transitions.last().from,
            transitions.last().to,
        ),
    ensures
        is_named(transitions, c),
        chained(transitions, c, transitions.last().from),
    decreases transitions.len(), 0int,
{
    let before = transitions.drop_last();
    let groups = arrow_groups(before);
    let a = transitions.last().from;
    let b = transitions.last().to;
    let last = transitions.len() - 1;
    assert(transitions[last] == transitions.last());
    law_chained(transitions, a, a, a);
    assert(chained(transitions, b, a)) by {
        let two = seq![b, a];
        assert(is_between(transitions[last], two[0], two[1]));
        assert(follows(transitions, two, 0));
        assert(is_chain(transitions, two));
        assert(two.last() == a);
    }
    if c != a && c != b {
        if share_a_group(groups, c, a) {
            lemma_sharing_is_chained(before, c, a);
            lemma_more_arrows(transitions, c, a);
        } else {
            lemma_sharing_is_chained(before, c, b);
            lemma_more_arrows(transitions, c, b);
            law_chained(transitions, c, b, a);
        }
        lemma_named_still(transitions, c);
    }
}

proof fn lemma_apart(transitions: Seq<TransitionV>)
    ensures
        are_apart(arrow_groups(transitions)),
    decreases transitions.len(),
{
    if transitions.len() > 0 {
        lemma_apart(transitions.drop_last());
        lemma_joined(
            arrow_groups(transitions.drop_last()),
            transitions.last().from,
            transitions.last().to,
        );
    }
}

proof fn lemma_ends_share(transitions: Seq<TransitionV>, k: int)
    requires
        0 <= k < transitions.len(),
    ensures
        share_a_group(arrow_groups(transitions), transitions[k].from, transitions[k].to),
    decreases transitions.len(),
{
    let before = transitions.drop_last();
    lemma_apart(before);
    lemma_joined(arrow_groups(before), transitions.last().from, transitions.last().to);
    if k < before.len() {
        lemma_ends_share(before, k);
        assert(before[k] == transitions[k]);
    }
}

proof fn lemma_chained_share(transitions: Seq<TransitionV>, chain: Seq<Seq<char>>)
    requires
        is_chain(transitions, chain),
        is_named(transitions, chain[0]),
    ensures
        share_a_group(arrow_groups(transitions), chain[0], chain.last()),
    decreases chain.len(),
{
    let groups = arrow_groups(transitions);
    lemma_apart(transitions);
    let a = chain[0];
    if chain.len() == 1 {
        let k = choose|k: int|
            0 <= k < transitions.len() && ((#[trigger] transitions[k]).from == a
                || transitions[k].to == a);
        lemma_ends_share(transitions, k);
        let i = choose|i: int|
            0 <= i < groups.len() && (#[trigger] groups[i]).contains(transitions[k].from)
                && groups[i].contains(transitions[k].to);
        assert(groups[i].contains(a));
    } else {
        let front = chain.drop_last();
        assert forall|k: int| 0 <= k < front.len() - 1 implies #[trigger] follows(
            transitions,
            front,
            k,
        ) by {
            assert(follows(transitions, chain, k));
        }
        lemma_chained_share(transitions, front);
        let at = chain.len() - 2;
        assert(follows(transitions, chain, at));
        let x = chain[at];
        let d = chain[at + 1];
        let k = choose|k: int|
            0 <= k < transitions.len() && is_between(#[trigger] transitions[k], x, d);
        lemma_ends_share(transitions, k);
        let i = choose|i: int|
            0 <= i < groups.len() && (#[trigger] groups[i]).contains(a) && groups[i].contains(x);
        let j = choose|j: int|
            0 <= j < groups.len() && (#[trigger] groups[j]).contains(transitions[k].from)
                && groups[j].contains(transitions[k].to);
        assert(groups[j].contains(x) && groups[j].contains(d));
        assert(i == j);
    }
}

/// Two states that arrows name are states of one machine exactly where a chain
/// of arrows joins them, and no state is in two machines.
pub proof fn law_a_machine_is_what_arrows_chain(
    transitions: Seq<TransitionV>,
    a: Seq<char>,
    b: Seq<char>,
)
    ensures
        are_apart(arrow_groups(transitions)),
        share_a_group(arrow_groups(transitions), a, b) <==> is_named(transitions, a) && is_named(
            transitions,
            b,
        ) && chained(transitions, a, b),
{
    lemma_apart(transitions);
    if share_a_group(arrow_groups(transitions), a, b) {
        lemma_sharing_is_chained(transitions, a, b);
    }
    if is_named(transitions, a) && chained(transitions, a, b) {
        let chain = choose|chain: Seq<Seq<char>>| #[trigger]
            is_chain(transitions, chain) && chain[0] == a && chain.last() == b;
        lemma_chained_share(transitions, chain);
    }
}

proof fn lemma_within(names: Seq<Seq<char>>, group: Seq<Seq<char>>, k: int)
    requires
        0 <= k < within(names, group).len(),
    ensures
        group.contains(within(names, group)[k]),
    decreases names.len(),
{
    let before = within(names.drop_last(), group);
    if k < before.len() {
        lemma_within(names.drop_last(), group, k);
    }
}

proof fn lemma_with_end(
    states: Seq<Seq<char>>,
    group: Seq<Seq<char>>,
    end: Seq<char>,
    s: Seq<char>,
)
    ensures
        with_end(states, group, end).contains(s) <==> states.contains(s) || (s == end
            && group.contains(end)),
{
    let more = states.push(end);
    assert(more[states.len() as int] == end);
    if states.contains(s) {
        let k = states.index_of(s);
        assert(more[k] == s);
    }
    if more.contains(s) && s != end {
        let k = more.index_of(s);
        assert(states[k] == s);
    }
}

proof fn lemma_states_are(
    start: Seq<char>,
    group: Seq<Seq<char>>,
    transitions: Seq<TransitionV>,
    s: Seq<char>,
)
    ensures
        states_from(start, group, transitions).contains(s) <==> s == start || (group.contains(s)
            && is_named(transitions, s)),
    decreases transitions.len(),
{
    if transitions.len() == 0 {
        assert(seq![start][0] == start);
    } else {
        let before = transitions.drop_last();
        let t = transitions.last();
        lemma_states_are(start, group, before, s);
        let states = states_from(start, group, before);
        lemma_with_end(states, group, t.from, s);
        lemma_with_end(with_end(states, group, t.from), group, t.to, s);
        assert(transitions[transitions.len() - 1] == t);
        if is_named(before, s) {
            lemma_named_still(transitions, s);
        }
        if is_named(transitions, s) && s != t.from && s != t.to {
            let k = choose|k: int|
                0 <= k < transitions.len() && ((#[trigger] transitions[k]).from == s
                    || transitions[k].to == s);
            assert(before[k] == transitions[k]);
        }
    }
}

proof fn lemma_all_groups(groups: Seq<Seq<Seq<char>>>, starting: Seq<Seq<char>>)
    ensures
        groups.len() <= all_groups(groups, starting).len(),
        forall|i: int|
            0 <= i < groups.len() ==> #[trigger] all_groups(groups, starting)[i] == groups[i],
        forall|i: int|
            groups.len() <= i < all_groups(groups, starting).len() ==> (
            #[trigger] all_groups(groups, starting)[i]).len() == 1,
    decreases starting.len(),
{
    if starting.len() > 0 {
        lemma_all_groups(groups, starting.drop_last());
    }
}

proof fn lemma_machines_of(
    groups: Seq<Seq<Seq<char>>>,
    transitions: Seq<TransitionV>,
    starting: Seq<Seq<char>>,
    i: int,
)
    requires
        machines_of(groups, transitions, starting) is Ok,
        0 <= i < groups.len(),
    ensures
        machines_of(groups, transitions, starting)->Ok_0.len() == groups.len(),
        machine_of(groups[i], transitions, starting) == Ok::<MachineV, Seq<char>>(
            machines_of(groups, transitions, starting)->Ok_0[i],
        ),
    decreases groups.len(),
{
    let before = groups.drop_last();
    if before.len() > 0 {
        lemma_machines_of(before, transitions, starting, if i < before.len() {
            i
        } else {
            0
        });
    } else {
        assert(machines_of(before, transitions, starting)->Ok_0.len() == 0);
    }
    if i < before.len() {
        assert(before[i] == groups[i]);
    }
}

/// Whether two states are states of one machine.
pub open spec fn share_a_machine(machines: Seq<MachineV>, a: Seq<char>, b: Seq<char>) -> bool {
    exists|i: int|
        0 <= i < machines.len() && (#[trigger] machines[i]).states.contains(a)
            && machines[i].states.contains(b)
}

/// Where the arrows of a model make machines, two states that arrows name are
/// states of one machine exactly where a chain of arrows joins them.
pub proof fn law_states_share_a_machine_where_arrows_chain_them(
    transitions: Seq<TransitionV>,
    starting: Seq<Seq<char>>,
    a: Seq<char>,
    b: Seq<char>,
)
    requires
        partitioned(transitions, starting) is Ok,
        all_groups(arrow_groups(transitions), starting).len() <= usize::MAX,
        is_named(transitions, a),
        is_named(transitions, b),
    ensures
        share_a_machine(partitioned(transitions, starting)->Ok_0, a, b) <==> chained(
            transitions,
            a,
            b,
        ),
{
    let reached = arrow_groups(transitions);
    let groups = all_groups(reached, starting);
    let made = machines_of(groups, transitions, starting)->Ok_0;
    let machines = partitioned(transitions, starting)->Ok_0;
    lemma_all_groups(reached, starting);
    law_a_machine_is_what_arrows_chain(transitions, a, b);
    law_chained(transitions, a, a, a);
    let nested = nested_machines(made);
    let order = order_of(nested, nested.len());
    if groups.len() > 0 {
        lemma_machines_of(groups, transitions, starting, 0);
    }
    assert(made.len() == groups.len());
    lemma_order_of(nested, nested.len());
    assert forall|i: int, s: Seq<char>| 0 <= i < groups.len() && is_named(transitions, s) implies (
    #[trigger] made[i].states.contains(s) <==> groups[i].contains(s)) by {
        lemma_machines_of(groups, transitions, starting, i);
        let starts = within(starting, groups[i]);
        lemma_within(starting, groups[i], 0);
        lemma_states_are(starts[0], groups[i], transitions, s);
    }
    if share_a_machine(machines, a, b) {
        let k = choose|k: int|
            0 <= k < machines.len() && (#[trigger] machines[k]).states.contains(a)
                && machines[k].states.contains(b);
        let i = order[k] as int;
        assert(order.contains(order[k]));
        assert(machines[k].states == made[i].states);
        assert(made[i].states.contains(a) && made[i].states.contains(b));
        assert(groups[i].contains(a) && groups[i].contains(b));
        if i < reached.len() {
            assert(reached[i].contains(a) && reached[i].contains(b));
        } else {
            assert(groups[i].len() == 1);
            assert(a == groups[i][0] && b == groups[i][0]);
        }
    }
    if chained(transitions, a, b) {
        let i = choose|i: int|
            0 <= i < reached.len() && (#[trigger] reached[i]).contains(a) && reached[i].contains(b);
        assert(groups[i] == reached[i]);
        assert(made[i].states.contains(a) && made[i].states.contains(b));
        assert(order.contains(i as usize));
        let k = order.index_of(i as usize);
        assert(machines[k].states == made[i].states);
    }
}

}
