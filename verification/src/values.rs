//! Every value a class writes: both sides of its equations, what its
//! connections join, the targets and values of its statements, the conditions
//! everything hangs on, and the values of its declarations.
use crate::class::{
    ClassDef, Component, EquationItem, ForBody, ForEquation, IfBranch, IfEquation, Statement,
    StatementBranch, WhenAction, WhenBranch, WhenClause,
};
use crate::expr::{Expr, ExprV};
use crate::make;
use vstd::prelude::*;

verus! {

proof fn lemma_joined(a: Seq<ExprV>, b: Seq<ExprV>, c: Seq<ExprV>)
    ensures
        a + b + c == a + (b + c),
{
    assert(a + b + c =~= a + (b + c));
}

fn push_value(value: &Expr, out: &mut Vec<Expr>)
    ensures
        final(out).deep_view() == old(out).deep_view().push(value.deep_view()),
{
    let ghost was = out.deep_view();
    out.push(value.clone());
    assert(out.deep_view() =~= was.push(value.deep_view()));
}

pub open spec fn one_value(value: Expr) -> Seq<ExprV> {
    seq![value.deep_view()]
}

fn push_one(value: &Expr, out: &mut Vec<Expr>)
    ensures
        final(out).deep_view() == old(out).deep_view() + one_value(*value),
{
    push_value(value, out);
    assert(out.deep_view() =~= old(out).deep_view() + one_value(*value));
}

fn push_target(name: &String, out: &mut Vec<Expr>)
    ensures
        final(out).deep_view() == old(out).deep_view() + seq![ExprV::Ref(name@)],
{
    let ghost was = out.deep_view();
    out.push(make::name(name.clone()));
    assert(out.deep_view() =~= was + seq![ExprV::Ref(name@)]);
}

pub open spec fn any_value(value: Option<Expr>) -> Seq<ExprV> {
    match value {
        Some(value) => seq![value.deep_view()],
        None => Seq::empty(),
    }
}

fn push_any(value: &Option<Expr>, out: &mut Vec<Expr>)
    ensures
        final(out).deep_view() == old(out).deep_view() + any_value(*value),
{
    match value {
        Some(value) => {
            push_value(value, out);
        },
        None => {},
    }
    assert(out.deep_view() =~= old(out).deep_view() + any_value(*value));
}

pub open spec fn equation_values(equation: EquationItem) -> Seq<ExprV> {
    seq![equation.lhs.deep_view(), equation.rhs.deep_view()]
}

fn push_equation(equation: &EquationItem, out: &mut Vec<Expr>)
    ensures
        final(out).deep_view() == old(out).deep_view() + equation_values(*equation),
{
    push_value(&equation.lhs, out);
    push_value(&equation.rhs, out);
    assert(out.deep_view() =~= old(out).deep_view() + equation_values(*equation));
}

pub open spec fn pair_values(pair: (Expr, Expr)) -> Seq<ExprV> {
    seq![pair.0.deep_view(), pair.1.deep_view()]
}

fn push_pair(pair: &(Expr, Expr), out: &mut Vec<Expr>)
    ensures
        final(out).deep_view() == old(out).deep_view() + pair_values(*pair),
{
    push_value(&pair.0, out);
    push_value(&pair.1, out);
    assert(out.deep_view() =~= old(out).deep_view() + pair_values(*pair));
}

pub open spec fn check_values(check: (Expr, String)) -> Seq<ExprV> {
    seq![check.0.deep_view()]
}

fn push_check(check: &(Expr, String), out: &mut Vec<Expr>)
    ensures
        final(out).deep_view() == old(out).deep_view() + check_values(*check),
{
    push_value(&check.0, out);
    assert(out.deep_view() =~= old(out).deep_view() + check_values(*check));
}

pub open spec fn modifier_values(modifier: (String, Expr)) -> Seq<ExprV> {
    seq![modifier.1.deep_view()]
}

fn push_modifier(modifier: &(String, Expr), out: &mut Vec<Expr>)
    ensures
        final(out).deep_view() == old(out).deep_view() + modifier_values(*modifier),
{
    push_value(&modifier.1, out);
    assert(out.deep_view() =~= old(out).deep_view() + modifier_values(*modifier));
}

pub open spec fn name_value(name: Option<String>) -> Seq<ExprV> {
    match name {
        Some(name) => seq![ExprV::Ref(name@)],
        None => Seq::empty(),
    }
}

fn push_name(name: &Option<String>, out: &mut Vec<Expr>)
    ensures
        final(out).deep_view() == old(out).deep_view() + name_value(*name),
{
    match name {
        Some(name) => push_target(name, out),
        None => {},
    }
    assert(out.deep_view() =~= old(out).deep_view() + name_value(*name));
}

/// The values of the first `n` of a list.
pub open spec fn listed_values(items: Seq<Expr>, n: nat) -> Seq<ExprV>
    decreases items, n,
{
    if n == 0 || n > items.len() {
        Seq::empty()
    } else {
        listed_values(items, (n - 1) as nat) + one_value(items[n - 1])
    }
}

fn push_list(items: &Vec<Expr>, out: &mut Vec<Expr>)
    ensures
        final(out).deep_view() == old(out).deep_view() + listed_values(items@, items@.len()),
    decreases items@, items@.len() + 1,
{
    let ghost was = out.deep_view();
    let mut i: usize = 0;
    assert(out.deep_view() =~= was + listed_values(items@, 0));
    while i < items.len()
        invariant
            i <= items.len(),
            out.deep_view() == was + listed_values(items@, i as nat),
        decreases items.len() - i,
    {
        push_one(&items[i], out);
        assert(out.deep_view() =~= was + listed_values(items@, (i + 1) as nat));
        i = i + 1;
    }
}

/// Both sides of the first `n` equations.
pub open spec fn equations_values(items: Seq<EquationItem>, n: nat) -> Seq<ExprV>
    decreases items, n,
{
    if n == 0 || n > items.len() {
        Seq::empty()
    } else {
        equations_values(items, (n - 1) as nat) + equation_values(items[n - 1])
    }
}

fn push_equations(items: &Vec<EquationItem>, out: &mut Vec<Expr>)
    ensures
        final(out).deep_view() == old(out).deep_view() + equations_values(items@, items@.len()),
    decreases items@, items@.len() + 1,
{
    let ghost was = out.deep_view();
    let mut i: usize = 0;
    assert(out.deep_view() =~= was + equations_values(items@, 0));
    while i < items.len()
        invariant
            i <= items.len(),
            out.deep_view() == was + equations_values(items@, i as nat),
        decreases items.len() - i,
    {
        push_equation(&items[i], out);
        assert(out.deep_view() =~= was + equations_values(items@, (i + 1) as nat));
        i = i + 1;
    }
}

/// Both sides of the first `n` connections.
pub open spec fn pairs_values(items: Seq<(Expr, Expr)>, n: nat) -> Seq<ExprV>
    decreases items, n,
{
    if n == 0 || n > items.len() {
        Seq::empty()
    } else {
        pairs_values(items, (n - 1) as nat) + pair_values(items[n - 1])
    }
}

fn push_pairs(items: &Vec<(Expr, Expr)>, out: &mut Vec<Expr>)
    ensures
        final(out).deep_view() == old(out).deep_view() + pairs_values(items@, items@.len()),
    decreases items@, items@.len() + 1,
{
    let ghost was = out.deep_view();
    let mut i: usize = 0;
    assert(out.deep_view() =~= was + pairs_values(items@, 0));
    while i < items.len()
        invariant
            i <= items.len(),
            out.deep_view() == was + pairs_values(items@, i as nat),
        decreases items.len() - i,
    {
        push_pair(&items[i], out);
        assert(out.deep_view() =~= was + pairs_values(items@, (i + 1) as nat));
        i = i + 1;
    }
}

/// The conditions of the first `n` checks.
pub open spec fn checks_values(items: Seq<(Expr, String)>, n: nat) -> Seq<ExprV>
    decreases items, n,
{
    if n == 0 || n > items.len() {
        Seq::empty()
    } else {
        checks_values(items, (n - 1) as nat) + check_values(items[n - 1])
    }
}

fn push_checks(items: &Vec<(Expr, String)>, out: &mut Vec<Expr>)
    ensures
        final(out).deep_view() == old(out).deep_view() + checks_values(items@, items@.len()),
    decreases items@, items@.len() + 1,
{
    let ghost was = out.deep_view();
    let mut i: usize = 0;
    assert(out.deep_view() =~= was + checks_values(items@, 0));
    while i < items.len()
        invariant
            i <= items.len(),
            out.deep_view() == was + checks_values(items@, i as nat),
        decreases items.len() - i,
    {
        push_check(&items[i], out);
        assert(out.deep_view() =~= was + checks_values(items@, (i + 1) as nat));
        i = i + 1;
    }
}

/// The values of the first `n` modifiers.
pub open spec fn modifiers_values(items: Seq<(String, Expr)>, n: nat) -> Seq<ExprV>
    decreases items, n,
{
    if n == 0 || n > items.len() {
        Seq::empty()
    } else {
        modifiers_values(items, (n - 1) as nat) + modifier_values(items[n - 1])
    }
}

fn push_modifiers(items: &Vec<(String, Expr)>, out: &mut Vec<Expr>)
    ensures
        final(out).deep_view() == old(out).deep_view() + modifiers_values(items@, items@.len()),
    decreases items@, items@.len() + 1,
{
    let ghost was = out.deep_view();
    let mut i: usize = 0;
    assert(out.deep_view() =~= was + modifiers_values(items@, 0));
    while i < items.len()
        invariant
            i <= items.len(),
            out.deep_view() == was + modifiers_values(items@, i as nat),
        decreases items.len() - i,
    {
        push_modifier(&items[i], out);
        assert(out.deep_view() =~= was + modifiers_values(items@, (i + 1) as nat));
        i = i + 1;
    }
}

/// The first `n` targets of a tuple.
pub open spec fn names_values(items: Seq<Option<String>>, n: nat) -> Seq<ExprV>
    decreases items, n,
{
    if n == 0 || n > items.len() {
        Seq::empty()
    } else {
        names_values(items, (n - 1) as nat) + name_value(items[n - 1])
    }
}

fn push_names(items: &Vec<Option<String>>, out: &mut Vec<Expr>)
    ensures
        final(out).deep_view() == old(out).deep_view() + names_values(items@, items@.len()),
    decreases items@, items@.len() + 1,
{
    let ghost was = out.deep_view();
    let mut i: usize = 0;
    assert(out.deep_view() =~= was + names_values(items@, 0));
    while i < items.len()
        invariant
            i <= items.len(),
            out.deep_view() == was + names_values(items@, i as nat),
        decreases items.len() - i,
    {
        push_name(&items[i], out);
        assert(out.deep_view() =~= was + names_values(items@, (i + 1) as nat));
        i = i + 1;
    }
}

/// The values of a `for` equation: its range and everything in its body.
pub open spec fn loop_values(item: ForEquation) -> Seq<ExprV>
    decreases item, 0nat,
{
    any_value(item.range) + bodies_values(item.body@, item.body@.len())
}

/// The values of one thing in the body of a `for` equation.
pub open spec fn body_values(item: ForBody) -> Seq<ExprV>
    decreases item, 0nat,
{
    match item {
        ForBody::Equation(equation) => equation_values(equation),
        ForBody::Connect(left, right) => seq![left.deep_view(), right.deep_view()],
        ForBody::Assert(condition, _) => seq![condition.deep_view()],
        ForBody::Nested(inside) => loop_values(inside),
        ForBody::Branch(taken) => branches_values(taken.branches@, taken.branches@.len()),
    }
}

/// The values of one branch of an `if` equation.
pub open spec fn branch_values(item: IfBranch) -> Seq<ExprV>
    decreases item, 0nat,
{
    any_value(item.condition) + equations_values(item.equations@, item.equations@.len())
        + pairs_values(item.connects@, item.connects@.len()) + checks_values(
        item.asserts@,
        item.asserts@.len(),
    ) + listed_values(item.calls@, item.calls@.len()) + loops_values(
        item.loops@,
        item.loops@.len(),
    ) + whens_values(item.whens@, item.whens@.len())
}

/// The values of a `when` clause: what it fires on and what it does.
pub open spec fn when_values(item: WhenClause) -> Seq<ExprV>
    decreases item, 0nat,
{
    firings_values(item.branches@, item.branches@.len())
}

pub open spec fn firing_values(item: WhenBranch) -> Seq<ExprV>
    decreases item, 0nat,
{
    seq![item.condition.deep_view()] + actions_values(item.actions@, item.actions@.len())
}

/// The values of one action: what it sets and what it sets it to.
pub open spec fn action_values(item: WhenAction) -> Seq<ExprV>
    decreases item, 0nat,
{
    match item {
        WhenAction::Assign(name, value) => seq![ExprV::Ref(name@), value.deep_view()],
        WhenAction::Reinit(name, value) => seq![ExprV::Ref(name@), value.deep_view()],
        WhenAction::TupleAssign(targets, value) => names_values(targets@, targets@.len()).push(
            value.deep_view(),
        ),
        WhenAction::Loop(inside) => loop_values(inside),
        WhenAction::Choice(taken) => branches_values(taken.branches@, taken.branches@.len()),
        WhenAction::Terminate(_) => Seq::empty(),
        WhenAction::Assert(condition, _) => seq![condition.deep_view()],
        WhenAction::Call(_, args) => listed_values(args@, args@.len()),
    }
}

/// The values of the first `n` things in a body.
pub open spec fn bodies_values(items: Seq<ForBody>, n: nat) -> Seq<ExprV>
    decreases items, n,
{
    if n == 0 || n > items.len() {
        Seq::empty()
    } else {
        bodies_values(items, (n - 1) as nat) + body_values(items[n - 1])
    }
}

fn push_bodies(items: &Vec<ForBody>, out: &mut Vec<Expr>)
    ensures
        final(out).deep_view() == old(out).deep_view() + bodies_values(items@, items@.len()),
    decreases items@, items@.len() + 1,
{
    let ghost was = out.deep_view();
    let mut i: usize = 0;
    assert(out.deep_view() =~= was + bodies_values(items@, 0));
    while i < items.len()
        invariant
            i <= items.len(),
            out.deep_view() == was + bodies_values(items@, i as nat),
        decreases items.len() - i,
    {
        push_body(&items[i], out);
        assert(out.deep_view() =~= was + bodies_values(items@, (i + 1) as nat));
        i = i + 1;
    }
}

/// The values of the first `n` loops.
pub open spec fn loops_values(items: Seq<ForEquation>, n: nat) -> Seq<ExprV>
    decreases items, n,
{
    if n == 0 || n > items.len() {
        Seq::empty()
    } else {
        loops_values(items, (n - 1) as nat) + loop_values(items[n - 1])
    }
}

fn push_loops(items: &Vec<ForEquation>, out: &mut Vec<Expr>)
    ensures
        final(out).deep_view() == old(out).deep_view() + loops_values(items@, items@.len()),
    decreases items@, items@.len() + 1,
{
    let ghost was = out.deep_view();
    let mut i: usize = 0;
    assert(out.deep_view() =~= was + loops_values(items@, 0));
    while i < items.len()
        invariant
            i <= items.len(),
            out.deep_view() == was + loops_values(items@, i as nat),
        decreases items.len() - i,
    {
        push_loop(&items[i], out);
        assert(out.deep_view() =~= was + loops_values(items@, (i + 1) as nat));
        i = i + 1;
    }
}

/// The values of the first `n` branches.
pub open spec fn branches_values(items: Seq<IfBranch>, n: nat) -> Seq<ExprV>
    decreases items, n,
{
    if n == 0 || n > items.len() {
        Seq::empty()
    } else {
        branches_values(items, (n - 1) as nat) + branch_values(items[n - 1])
    }
}

fn push_branches(items: &Vec<IfBranch>, out: &mut Vec<Expr>)
    ensures
        final(out).deep_view() == old(out).deep_view() + branches_values(items@, items@.len()),
    decreases items@, items@.len() + 1,
{
    let ghost was = out.deep_view();
    let mut i: usize = 0;
    assert(out.deep_view() =~= was + branches_values(items@, 0));
    while i < items.len()
        invariant
            i <= items.len(),
            out.deep_view() == was + branches_values(items@, i as nat),
        decreases items.len() - i,
    {
        push_branch(&items[i], out);
        assert(out.deep_view() =~= was + branches_values(items@, (i + 1) as nat));
        i = i + 1;
    }
}

/// The values of the first `n` `when` clauses.
pub open spec fn whens_values(items: Seq<WhenClause>, n: nat) -> Seq<ExprV>
    decreases items, n,
{
    if n == 0 || n > items.len() {
        Seq::empty()
    } else {
        whens_values(items, (n - 1) as nat) + when_values(items[n - 1])
    }
}

fn push_whens(items: &Vec<WhenClause>, out: &mut Vec<Expr>)
    ensures
        final(out).deep_view() == old(out).deep_view() + whens_values(items@, items@.len()),
    decreases items@, items@.len() + 1,
{
    let ghost was = out.deep_view();
    let mut i: usize = 0;
    assert(out.deep_view() =~= was + whens_values(items@, 0));
    while i < items.len()
        invariant
            i <= items.len(),
            out.deep_view() == was + whens_values(items@, i as nat),
        decreases items.len() - i,
    {
        push_when(&items[i], out);
        assert(out.deep_view() =~= was + whens_values(items@, (i + 1) as nat));
        i = i + 1;
    }
}

/// The values of the first `n` branches of a `when` clause.
pub open spec fn firings_values(items: Seq<WhenBranch>, n: nat) -> Seq<ExprV>
    decreases items, n,
{
    if n == 0 || n > items.len() {
        Seq::empty()
    } else {
        firings_values(items, (n - 1) as nat) + firing_values(items[n - 1])
    }
}

fn push_firings(items: &Vec<WhenBranch>, out: &mut Vec<Expr>)
    ensures
        final(out).deep_view() == old(out).deep_view() + firings_values(items@, items@.len()),
    decreases items@, items@.len() + 1,
{
    let ghost was = out.deep_view();
    let mut i: usize = 0;
    assert(out.deep_view() =~= was + firings_values(items@, 0));
    while i < items.len()
        invariant
            i <= items.len(),
            out.deep_view() == was + firings_values(items@, i as nat),
        decreases items.len() - i,
    {
        push_firing(&items[i], out);
        assert(out.deep_view() =~= was + firings_values(items@, (i + 1) as nat));
        i = i + 1;
    }
}

/// The values of the first `n` actions.
pub open spec fn actions_values(items: Seq<WhenAction>, n: nat) -> Seq<ExprV>
    decreases items, n,
{
    if n == 0 || n > items.len() {
        Seq::empty()
    } else {
        actions_values(items, (n - 1) as nat) + action_values(items[n - 1])
    }
}

fn push_actions(items: &Vec<WhenAction>, out: &mut Vec<Expr>)
    ensures
        final(out).deep_view() == old(out).deep_view() + actions_values(items@, items@.len()),
    decreases items@, items@.len() + 1,
{
    let ghost was = out.deep_view();
    let mut i: usize = 0;
    assert(out.deep_view() =~= was + actions_values(items@, 0));
    while i < items.len()
        invariant
            i <= items.len(),
            out.deep_view() == was + actions_values(items@, i as nat),
        decreases items.len() - i,
    {
        push_action(&items[i], out);
        assert(out.deep_view() =~= was + actions_values(items@, (i + 1) as nat));
        i = i + 1;
    }
}

fn push_loop(item: &ForEquation, out: &mut Vec<Expr>)
    ensures
        final(out).deep_view() == old(out).deep_view() + loop_values(*item),
    decreases *item, 0nat,
{
    push_any(&item.range, out);
    push_bodies(&item.body, out);
    assert(out.deep_view() =~= old(out).deep_view() + loop_values(*item));
}

fn push_body(item: &ForBody, out: &mut Vec<Expr>)
    ensures
        final(out).deep_view() == old(out).deep_view() + body_values(*item),
    decreases *item, 0nat,
{
    match item {
        ForBody::Equation(equation) => push_equation(equation, out),
        ForBody::Connect(left, right) => {
            push_value(left, out);
            push_value(right, out);
        },
        ForBody::Assert(condition, _) => push_value(condition, out),
        ForBody::Nested(inside) => push_loop(inside, out),
        ForBody::Branch(taken) => push_branches(&taken.branches, out),
    }
    assert(out.deep_view() =~= old(out).deep_view() + body_values(*item));
}

fn push_branch(item: &IfBranch, out: &mut Vec<Expr>)
    ensures
        final(out).deep_view() == old(out).deep_view() + branch_values(*item),
    decreases *item, 0nat,
{
    let ghost was = out.deep_view();
    let ghost a = any_value(item.condition);
    let ghost b = a + equations_values(item.equations@, item.equations@.len());
    let ghost c = b + pairs_values(item.connects@, item.connects@.len());
    let ghost d = c + checks_values(item.asserts@, item.asserts@.len());
    let ghost e = d + listed_values(item.calls@, item.calls@.len());
    let ghost f = e + loops_values(item.loops@, item.loops@.len());
    push_any(&item.condition, out);
    push_equations(&item.equations, out);
    proof {
        lemma_joined(was, a, equations_values(item.equations@, item.equations@.len()));
    }
    push_pairs(&item.connects, out);
    proof {
        lemma_joined(was, b, pairs_values(item.connects@, item.connects@.len()));
    }
    push_checks(&item.asserts, out);
    proof {
        lemma_joined(was, c, checks_values(item.asserts@, item.asserts@.len()));
    }
    push_list(&item.calls, out);
    proof {
        lemma_joined(was, d, listed_values(item.calls@, item.calls@.len()));
    }
    push_loops(&item.loops, out);
    proof {
        lemma_joined(was, e, loops_values(item.loops@, item.loops@.len()));
    }
    push_whens(&item.whens, out);
    proof {
        lemma_joined(was, f, whens_values(item.whens@, item.whens@.len()));
    }
}

fn push_when(item: &WhenClause, out: &mut Vec<Expr>)
    ensures
        final(out).deep_view() == old(out).deep_view() + when_values(*item),
    decreases *item, 0nat,
{
    push_firings(&item.branches, out);
}

fn push_firing(item: &WhenBranch, out: &mut Vec<Expr>)
    ensures
        final(out).deep_view() == old(out).deep_view() + firing_values(*item),
    decreases *item, 0nat,
{
    push_value(&item.condition, out);
    push_actions(&item.actions, out);
    assert(out.deep_view() =~= old(out).deep_view() + firing_values(*item));
}

fn push_action(item: &WhenAction, out: &mut Vec<Expr>)
    ensures
        final(out).deep_view() == old(out).deep_view() + action_values(*item),
    decreases *item, 0nat,
{
    match item {
        WhenAction::Assign(name, value) => {
            push_target(name, out);
            push_value(value, out);
        },
        WhenAction::Reinit(name, value) => {
            push_target(name, out);
            push_value(value, out);
        },
        WhenAction::TupleAssign(targets, value) => {
            push_names(targets, out);
            push_value(value, out);
        },
        WhenAction::Loop(inside) => push_loop(inside, out),
        WhenAction::Choice(taken) => push_branches(&taken.branches, out),
        WhenAction::Terminate(_) => {},
        WhenAction::Assert(condition, _) => push_value(condition, out),
        WhenAction::Call(_, args) => push_list(args, out),
    }
    assert(out.deep_view() =~= old(out).deep_view() + action_values(*item));
}

/// The values of a target: its name and its subscripts.
pub open spec fn target_values(target: Option<(String, Vec<Expr>)>) -> Seq<ExprV> {
    match target {
        Some((name, subscripts)) => seq![ExprV::Ref(name@)] + listed_values(
            subscripts@,
            subscripts@.len(),
        ),
        None => Seq::empty(),
    }
}

fn push_subscripted(target: &Option<(String, Vec<Expr>)>, out: &mut Vec<Expr>)
    ensures
        final(out).deep_view() == old(out).deep_view() + target_values(*target),
{
    match target {
        Some((name, subscripts)) => {
            push_target(name, out);
            push_list(subscripts, out);
        },
        None => {},
    }
    assert(out.deep_view() =~= old(out).deep_view() + target_values(*target));
}

/// The values of the first `n` targets.
pub open spec fn targets_values(items: Seq<Option<(String, Vec<Expr>)>>, n: nat) -> Seq<ExprV>
    decreases items, n,
{
    if n == 0 || n > items.len() {
        Seq::empty()
    } else {
        targets_values(items, (n - 1) as nat) + target_values(items[n - 1])
    }
}

fn push_targets(items: &Vec<Option<(String, Vec<Expr>)>>, out: &mut Vec<Expr>)
    ensures
        final(out).deep_view() == old(out).deep_view() + targets_values(items@, items@.len()),
    decreases items@, items@.len() + 1,
{
    let ghost was = out.deep_view();
    let mut i: usize = 0;
    assert(out.deep_view() =~= was + targets_values(items@, 0));
    while i < items.len()
        invariant
            i <= items.len(),
            out.deep_view() == was + targets_values(items@, i as nat),
        decreases items.len() - i,
    {
        push_subscripted(&items[i], out);
        assert(out.deep_view() =~= was + targets_values(items@, (i + 1) as nat));
        i = i + 1;
    }
}

/// The values of a statement: what it assigns, what it assigns it, and the
/// conditions it hangs on.
pub open spec fn statement_values(item: Statement) -> Seq<ExprV>
    decreases item, 0nat,
{
    match item {
        Statement::Assign(name, subscripts, value) => (seq![ExprV::Ref(name@)] + listed_values(
            subscripts@,
            subscripts@.len(),
        )).push(value.deep_view()),
        Statement::TupleAssign(targets, value) => targets_values(targets@, targets@.len()).push(
            value.deep_view(),
        ),
        Statement::If(taken) => choices_values(taken@, taken@.len()),
        Statement::When(taken) => choices_values(taken@, taken@.len()),
        Statement::For(_, range, body) => any_value(range) + statements_values(body@, body@.len()),
        Statement::While(condition, body) => seq![condition.deep_view()] + statements_values(
            body@,
            body@.len(),
        ),
        Statement::Assert(condition, _) => seq![condition.deep_view()],
        Statement::Call(_, args) => listed_values(args@, args@.len()),
        Statement::Break => Seq::empty(),
        Statement::Return => Seq::empty(),
    }
}

/// The values of one branch of a statement.
pub open spec fn choice_values(item: StatementBranch) -> Seq<ExprV>
    decreases item, 0nat,
{
    any_value(item.condition) + statements_values(item.body@, item.body@.len())
}

fn push_statement(item: &Statement, out: &mut Vec<Expr>)
    ensures
        final(out).deep_view() == old(out).deep_view() + statement_values(*item),
    decreases *item, 0nat,
{
    match item {
        Statement::Assign(name, subscripts, value) => {
            push_target(name, out);
            push_list(subscripts, out);
            push_value(value, out);
        },
        Statement::TupleAssign(targets, value) => {
            push_targets(targets, out);
            push_value(value, out);
        },
        Statement::If(taken) => push_choices(taken, out),
        Statement::When(taken) => push_choices(taken, out),
        Statement::For(_, range, body) => {
            push_any(range, out);
            push_statements(body, out);
        },
        Statement::While(condition, body) => {
            push_value(condition, out);
            push_statements(body, out);
        },
        Statement::Assert(condition, _) => push_value(condition, out),
        Statement::Call(_, args) => push_list(args, out),
        Statement::Break => {},
        Statement::Return => {},
    }
    assert(out.deep_view() =~= old(out).deep_view() + statement_values(*item));
}

fn push_choice(item: &StatementBranch, out: &mut Vec<Expr>)
    ensures
        final(out).deep_view() == old(out).deep_view() + choice_values(*item),
    decreases *item, 0nat,
{
    push_any(&item.condition, out);
    push_statements(&item.body, out);
    assert(out.deep_view() =~= old(out).deep_view() + choice_values(*item));
}

/// The values of the first `n` statements.
pub open spec fn statements_values(items: Seq<Statement>, n: nat) -> Seq<ExprV>
    decreases items, n,
{
    if n == 0 || n > items.len() {
        Seq::empty()
    } else {
        statements_values(items, (n - 1) as nat) + statement_values(items[n - 1])
    }
}

fn push_statements(items: &Vec<Statement>, out: &mut Vec<Expr>)
    ensures
        final(out).deep_view() == old(out).deep_view() + statements_values(items@, items@.len()),
    decreases items@, items@.len() + 1,
{
    let ghost was = out.deep_view();
    let mut i: usize = 0;
    assert(out.deep_view() =~= was + statements_values(items@, 0));
    while i < items.len()
        invariant
            i <= items.len(),
            out.deep_view() == was + statements_values(items@, i as nat),
        decreases items.len() - i,
    {
        push_statement(&items[i], out);
        assert(out.deep_view() =~= was + statements_values(items@, (i + 1) as nat));
        i = i + 1;
    }
}

/// The values of the first `n` branches of a statement.
pub open spec fn choices_values(items: Seq<StatementBranch>, n: nat) -> Seq<ExprV>
    decreases items, n,
{
    if n == 0 || n > items.len() {
        Seq::empty()
    } else {
        choices_values(items, (n - 1) as nat) + choice_values(items[n - 1])
    }
}

fn push_choices(items: &Vec<StatementBranch>, out: &mut Vec<Expr>)
    ensures
        final(out).deep_view() == old(out).deep_view() + choices_values(items@, items@.len()),
    decreases items@, items@.len() + 1,
{
    let ghost was = out.deep_view();
    let mut i: usize = 0;
    assert(out.deep_view() =~= was + choices_values(items@, 0));
    while i < items.len()
        invariant
            i <= items.len(),
            out.deep_view() == was + choices_values(items@, i as nat),
        decreases items.len() - i,
    {
        push_choice(&items[i], out);
        assert(out.deep_view() =~= was + choices_values(items@, (i + 1) as nat));
        i = i + 1;
    }
}

/// The values of an `if` equation.
pub open spec fn taken_values(item: IfEquation) -> Seq<ExprV> {
    branches_values(item.branches@, item.branches@.len())
}

fn push_taken(item: &IfEquation, out: &mut Vec<Expr>)
    ensures
        final(out).deep_view() == old(out).deep_view() + taken_values(*item),
{
    push_branches(&item.branches, out);
}

/// The values of a declaration.
pub open spec fn component_values(item: Component) -> Seq<ExprV> {
    any_value(item.binding) + any_value(item.condition) + any_value(item.start) + any_value(
        item.min,
    ) + any_value(item.max) + listed_values(item.dimensions@, item.dimensions@.len())
        + modifiers_values(item.modifiers@, item.modifiers@.len())
}

fn push_component(item: &Component, out: &mut Vec<Expr>)
    ensures
        final(out).deep_view() == old(out).deep_view() + component_values(*item),
{
    push_any(&item.binding, out);
    push_any(&item.condition, out);
    push_any(&item.start, out);
    push_any(&item.min, out);
    push_any(&item.max, out);
    push_list(&item.dimensions, out);
    push_modifiers(&item.modifiers, out);
    assert(out.deep_view() =~= old(out).deep_view() + component_values(*item));
}

/// The values of the first `n` `if` equations.
pub open spec fn choices_taken_values(items: Seq<IfEquation>, n: nat) -> Seq<ExprV>
    decreases items, n,
{
    if n == 0 || n > items.len() {
        Seq::empty()
    } else {
        choices_taken_values(items, (n - 1) as nat) + taken_values(items[n - 1])
    }
}

fn push_all_taken(items: &Vec<IfEquation>, out: &mut Vec<Expr>)
    ensures
        final(out).deep_view() == old(out).deep_view() + choices_taken_values(items@, items@.len()),
    decreases items@, items@.len() + 1,
{
    let ghost was = out.deep_view();
    let mut i: usize = 0;
    assert(out.deep_view() =~= was + choices_taken_values(items@, 0));
    while i < items.len()
        invariant
            i <= items.len(),
            out.deep_view() == was + choices_taken_values(items@, i as nat),
        decreases items.len() - i,
    {
        push_taken(&items[i], out);
        assert(out.deep_view() =~= was + choices_taken_values(items@, (i + 1) as nat));
        i = i + 1;
    }
}

/// The values of the first `n` declarations.
pub open spec fn components_values(items: Seq<Component>, n: nat) -> Seq<ExprV>
    decreases items, n,
{
    if n == 0 || n > items.len() {
        Seq::empty()
    } else {
        components_values(items, (n - 1) as nat) + component_values(items[n - 1])
    }
}

fn push_components(items: &Vec<Component>, out: &mut Vec<Expr>)
    ensures
        final(out).deep_view() == old(out).deep_view() + components_values(items@, items@.len()),
    decreases items@, items@.len() + 1,
{
    let ghost was = out.deep_view();
    let mut i: usize = 0;
    assert(out.deep_view() =~= was + components_values(items@, 0));
    while i < items.len()
        invariant
            i <= items.len(),
            out.deep_view() == was + components_values(items@, i as nat),
        decreases items.len() - i,
    {
        push_component(&items[i], out);
        assert(out.deep_view() =~= was + components_values(items@, (i + 1) as nat));
        i = i + 1;
    }
}

/// Every value a class writes, in the order it is looked at.
pub open spec fn values_written(class: ClassDef) -> Seq<ExprV> {
    equations_values(class.equations@, class.equations@.len()) + equations_values(
        class.initial_equations@,
        class.initial_equations@.len(),
    ) + pairs_values(class.connects@, class.connects@.len()) + checks_values(
        class.asserts@,
        class.asserts@.len(),
    ) + listed_values(class.calls@, class.calls@.len()) + loops_values(
        class.for_equations@,
        class.for_equations@.len(),
    ) + choices_taken_values(class.if_equations@, class.if_equations@.len()) + whens_values(
        class.when_clauses@,
        class.when_clauses@.len(),
    ) + statements_values(class.algorithm@, class.algorithm@.len()) + statements_values(
        class.initial_algorithm@,
        class.initial_algorithm@.len(),
    ) + components_values(class.components@, class.components@.len())
}

/// Every value a class writes.
pub fn every_value(class: &ClassDef) -> (r: Vec<Expr>)
    ensures
        r.deep_view() == values_written(*class),
{
    let mut out: Vec<Expr> = Vec::new();
    assert(out.deep_view() =~= Seq::empty());
    push_equations(&class.equations, &mut out);
    push_equations(&class.initial_equations, &mut out);
    push_pairs(&class.connects, &mut out);
    push_checks(&class.asserts, &mut out);
    push_list(&class.calls, &mut out);
    push_loops(&class.for_equations, &mut out);
    push_all_taken(&class.if_equations, &mut out);
    push_whens(&class.when_clauses, &mut out);
    push_statements(&class.algorithm, &mut out);
    push_statements(&class.initial_algorithm, &mut out);
    push_components(&class.components, &mut out);
    assert(out.deep_view() =~= values_written(*class));
    out
}

}
