//! Nothing that was checked is lost on the way: whatever a class states, what was
//! gathered and set aside before is there after it, and what the bodies it calls
//! check ends up among the checks of the model.
use crate::buses::connected;
use crate::class::{
    ClassDef, Deselect, EquationItem, ForBody, ForEquation, IfBranch, IfEquation, Statement,
    StatementBranch, Transition, WhenAction, WhenBranch, WhenClause,
};
use crate::equations::{
    action_read, actions_read, branch_lifted, branches_lifted, choice_read, class_stated,
    class_verdicts, clauses_of, event_outputs, if_read, ifs_read, plain_round, stated_first,
    stated_then, steps_among, target_assigned, targets_assigned, targets_named, tuple_actions,
    values_given, when_branch_read, when_branches_read, with_algorithm, with_arrows, with_assigned,
    with_branch_line, with_branch_lines, with_call, with_calls, with_class_checks, with_clauses,
    with_connects, with_event, with_events, with_filled, with_initial_algorithm, with_initial_lines,
    with_initials, with_joins, with_line, with_lines, with_loops, with_made_checks, with_outputs,
    with_records, with_section, with_taken, with_whens, written_actions, DeskV, IfsV,
};
use crate::expr::{Expr, ExprV};
use crate::flat::{begins_with_all, keeps_checks, set_aside, Checks, FlatV};
use crate::folding::Worths;
use crate::instantiate::{
    about_to_state, course_keeps, instantiated, is_made, law_what_is_set_aside_for_a_class_is_made,
    law_what_the_course_held_is_there, nothing_is_dropped, BuiltV, CourseV, EnvV, FloorV,
};
use crate::names::{flat_of, prefixed_whole, substituted};
use crate::number::Number;
use crate::outside::FootingV;
use crate::reading::{arguments_given, function_called, side_here, with_connect, HereV, ReadingV};
use crate::rounds::{
    branch_done, branches_read, guard_of, lemma_branches_keep, line_done, lines_done, loops_done,
    put_in, round_with, rounds_done, runs_over, taken_from, unrolled, verdicts_in, verdicts_leave,
    with_branch_checks, with_conditional, with_equation, with_equations, with_guarded, with_link,
    with_links, RoundV,
};
use crate::shapes::Lengths;
use crate::sums::SumsV;
use crate::table::{all_prefixed, overlaid};
use crate::tree::{desk_told, found_so_far, gathered_on, ground_told, state_told};
use crate::web::WebV;
use vstd::prelude::*;

verus! {

proof fn lemma_connected(
    acc: FlatV,
    prefix: Seq<char>,
    left: Seq<Seq<char>>,
    right: Seq<Seq<char>>,
    n: nat,
)
    ensures
        keeps_checks(acc, connected(acc, prefix, left, right, n)),
    decreases n,
{
    if n > 0 {
        lemma_connected(acc, prefix, left, right, (n - 1) as nat);
    }
}

proof fn lemma_connect(
    h: ReadingV,
    p: HereV,
    acc: FlatV,
    a: ExprV,
    b: ExprV,
    vars: Worths,
    consts: Worths,
    records: Map<Seq<char>, Seq<char>>,
)
    ensures
        with_connect(h, p, acc, a, b, vars, consts, records) matches Ok(made) ==> keeps_checks(acc, made),
{
    if let Ok((left, mid)) = side_here(h, p, acc, a, vars, consts, records) {
        if let Ok((right, after)) = side_here(h, p, mid, b, vars, consts, records) {
            lemma_connected(after, p.naming.prefix, left, right, left.len());
        }
    }
}

proof fn lemma_arguments(
    h: ReadingV,
    p: HereV,
    acc: FlatV,
    args: Seq<ExprV>,
    n: nat,
)
    ensures
        arguments_given(h, p, acc, args, n) matches Ok(made) ==> keeps_checks(acc, made.1),
    decreases n,
{
    if n > 0 && n <= args.len() {
        lemma_arguments(h, p, acc, args, (n - 1) as nat);
    }
}

proof fn lemma_guarded(
    h: ReadingV,
    p: HereV,
    t: RoundV,
    acc: FlatV,
    guard: Option<ExprV>,
    list: Seq<(Expr, String)>,
    n: nat,
)
    ensures
        with_guarded(h, p, t, acc, guard, list, n) matches Ok(made) ==> keeps_checks(acc, made),
    decreases n,
{
    if n > 0 && n <= list.len() {
        lemma_guarded(h, p, t, acc, guard, list, (n - 1) as nat);
    }
}

proof fn lemma_branch_checks(
    h: ReadingV,
    p: HereV,
    t: RoundV,
    acc: FlatV,
    conditions: Seq<ExprV>,
    list: Seq<IfBranch>,
    n: nat,
)
    ensures
        with_branch_checks(h, p, t, acc, conditions, list, n) matches Ok(made) ==> keeps_checks(acc, made),
    decreases n,
{
    if n > 0 && n <= list.len() {
        lemma_branch_checks(h, p, t, acc, conditions, list, (n - 1) as nat);
        if let Ok(before) = with_branch_checks(h, p, t, acc, conditions, list, (n - 1) as nat) {
            lemma_guarded(
                h,
                p,
                t,
                before,
                guard_of(conditions, (n - 1) as nat),
                list[n - 1].asserts@,
                list[n - 1].asserts@.len(),
            );
        }
    }
}

proof fn lemma_conditional(
    h: ReadingV,
    p: HereV,
    t: RoundV,
    acc: FlatV,
    held: IfEquation,
    class: Seq<char>,
)
    ensures
        with_conditional(h, p, t, acc, held, class) matches Ok(made) ==> keeps_checks(acc, made),
{
    let list = held.branches@;
    lemma_branches_keep(h, p, t, acc, class, acc.origin, list, list.len());
    if let Ok((made, mid)) = branches_read(h, p, t, acc, class, acc.origin, list, list.len()) {
        lemma_branch_checks(h, p, t, mid, made.conditions, list, list.len());
    }
}

proof fn lemma_equation(
    h: ReadingV,
    p: HereV,
    t: RoundV,
    acc: FlatV,
    lhs: ExprV,
    rhs: ExprV,
)
    ensures
        with_equation(h, p, t, acc, lhs, rhs) matches Ok(made) ==> keeps_checks(acc, made),
{
}

proof fn lemma_equations(
    h: ReadingV,
    p: HereV,
    t: RoundV,
    acc: FlatV,
    list: Seq<EquationItem>,
    n: nat,
)
    ensures
        with_equations(h, p, t, acc, list, n) matches Ok(made) ==> keeps_checks(acc, made),
    decreases n,
{
    if n > 0 && n <= list.len() {
        lemma_equations(h, p, t, acc, list, (n - 1) as nat);
        if let Ok(before) = with_equations(h, p, t, acc, list, (n - 1) as nat) {
            lemma_equation(
                h,
                p,
                t,
                before,
                list[n - 1].lhs.deep_view(),
                list[n - 1].rhs.deep_view(),
            );
        }
    }
}

proof fn lemma_link(
    h: ReadingV,
    p: HereV,
    t: RoundV,
    acc: FlatV,
    a: ExprV,
    b: ExprV,
)
    ensures
        with_link(h, p, t, acc, a, b) matches Ok(made) ==> keeps_checks(acc, made),
{
    lemma_connect(
        h,
        p,
        acc,
        substituted(a, t.folded),
        substituted(b, t.folded),
        t.vars,
        t.consts,
        p.records,
    );
}

proof fn lemma_links(
    h: ReadingV,
    p: HereV,
    t: RoundV,
    acc: FlatV,
    list: Seq<(Expr, Expr)>,
    n: nat,
)
    ensures
        with_links(h, p, t, acc, list, n) matches Ok(made) ==> keeps_checks(acc, made),
    decreases n,
{
    if n > 0 && n <= list.len() {
        lemma_links(h, p, t, acc, list, (n - 1) as nat);
        if let Ok(before) = with_links(h, p, t, acc, list, (n - 1) as nat) {
            lemma_link(
                h,
                p,
                t,
                before,
                list[n - 1].0.deep_view(),
                list[n - 1].1.deep_view(),
            );
        }
    }
}

proof fn lemma_unrolled(
    h: ReadingV,
    v: SumsV,
    p: HereV,
    acc: FlatV,
    l: ForEquation,
    vars: Worths,
    consts: Worths,
)
    ensures
        unrolled(h, v, p, acc, l, vars, consts) matches Ok(made) ==> keeps_checks(acc, made),
    decreases l, 3int, 0nat,
{
    let known = overlaid(consts, all_prefixed(consts, p.naming.prefix));
    if let Ok((values, mid)) = runs_over(h, v, p, acc, l, vars, known) {
        lemma_rounds(h, v, p, mid, l, vars, known, values, values.len());
    }
}

proof fn lemma_rounds(
    h: ReadingV,
    v: SumsV,
    p: HereV,
    acc: FlatV,
    l: ForEquation,
    vars: Worths,
    consts: Worths,
    values: Seq<Number>,
    n: nat,
)
    ensures
        rounds_done(h, v, p, acc, l, vars, consts, values, n) matches Ok(made) ==> keeps_checks(acc, made),
    decreases l, 2int, n,
{
    if n > 0 && n <= values.len() {
        lemma_rounds(h, v, p, acc, l, vars, consts, values, (n - 1) as nat);
        if let Ok(before) = rounds_done(h, v, p, acc, l, vars, consts, values, (n - 1) as nat) {
            let t = round_with(vars.insert(l.variable@, values[n - 1]), consts);
            lemma_round_lines(h, v, p, before, l, t, l.body@.len());
        }
    }
}

proof fn lemma_round_lines(
    h: ReadingV,
    v: SumsV,
    p: HereV,
    acc: FlatV,
    l: ForEquation,
    t: RoundV,
    n: nat,
)
    ensures
        lines_done(h, v, p, acc, l, t, n) matches Ok(made) ==> keeps_checks(acc, made),
    decreases l, 1int, n,
{
    if n > 0 && n <= l.body@.len() {
        lemma_round_lines(h, v, p, acc, l, t, (n - 1) as nat);
        if let Ok(before) = lines_done(h, v, p, acc, l, t, (n - 1) as nat) {
            lemma_round_line(h, v, p, before, l.body@[n - 1], t);
        }
    }
}

proof fn lemma_round_line(
    h: ReadingV,
    v: SumsV,
    p: HereV,
    acc: FlatV,
    item: ForBody,
    t: RoundV,
)
    ensures
        line_done(h, v, p, acc, item, t) matches Ok(made) ==> keeps_checks(acc, made),
    decreases item, 1int, 0nat,
{
    match item {
        ForBody::Equation(equation) => {
            lemma_equation(h, p, t, acc, equation.lhs.deep_view(), equation.rhs.deep_view());
        },
        ForBody::Connect(a, b) => {
            lemma_link(h, p, t, acc, a.deep_view(), b.deep_view());
        },
        ForBody::Nested(inner) => {
            lemma_unrolled(h, v, p, acc, inner, t.vars, t.consts);
        },
        ForBody::Branch(held) => {
            lemma_branch(h, v, p, acc, held, t);
        },
        ForBody::Assert(_, _) => {},
    }
}

proof fn lemma_branch(
    h: ReadingV,
    v: SumsV,
    p: HereV,
    acc: FlatV,
    held: IfEquation,
    t: RoundV,
)
    ensures
        branch_done(h, v, p, acc, held, t) matches Ok(made) ==> keeps_checks(acc, made),
    decreases held, 1int, 0nat,
{
    let list = verdicts_in(h, v, p, t, acc, held);
    let mid = set_aside(acc, verdicts_leave(h, v, p, t, acc, held, held.branches@.len()));
    lemma_conditional(h, p, t, mid, held, p.scope);
    if let Some(at) = taken_from(list, 0) {
        if at < held.branches@.len() {
            let branch = held.branches@[at as int];
            lemma_links(h, p, t, mid, branch.connects@, branch.connects@.len());
            if let Ok(b) = with_links(h, p, t, mid, branch.connects@, branch.connects@.len()) {
                lemma_loops_within(h, v, p, b, branch, t, branch.loops@.len());
                if let Ok(c) = loops_done(h, v, p, b, branch, t, branch.loops@.len()) {
                    let lines = branch.equations@;
                    lemma_equations(h, p, t, c, lines, lines.len());
                    if let Ok(d) = with_equations(h, p, t, c, lines, lines.len()) {
                        lemma_guarded(h, p, t, d, None, branch.asserts@, branch.asserts@.len());
                    }
                }
            }
        }
    }
}

proof fn lemma_loops_within(
    h: ReadingV,
    v: SumsV,
    p: HereV,
    acc: FlatV,
    branch: IfBranch,
    t: RoundV,
    n: nat,
)
    ensures
        loops_done(h, v, p, acc, branch, t, n) matches Ok(made) ==> keeps_checks(acc, made),
    decreases branch, 0int, n,
{
    if n > 0 && n <= branch.loops@.len() {
        lemma_loops_within(h, v, p, acc, branch, t, (n - 1) as nat);
        if let Ok(before) = loops_done(h, v, p, acc, branch, t, (n - 1) as nat) {
            lemma_unrolled(h, v, p, before, branch.loops@[n - 1], t.vars, t.consts);
        }
    }
}

proof fn lemma_targets(
    k: DeskV,
    acc: FlatV,
    targets: Seq<Option<ExprV>>,
    n: nat,
)
    ensures
        targets_named(k, acc, targets, n) matches Ok(made) ==> keeps_checks(acc, made.1),
    decreases n,
{
    if n > 0 && n <= targets.len() {
        lemma_targets(k, acc, targets, (n - 1) as nat);
    }
}

proof fn lemma_outputs(
    k: DeskV,
    acc: FlatV,
    targets: Seq<Option<ExprV>>,
    outputs: Seq<(Seq<char>, ExprV)>,
    n: nat,
)
    ensures
        with_outputs(k, acc, targets, outputs, n) matches Ok(made) ==> keeps_checks(acc, made),
    decreases n,
{
    if n > 0 && n <= targets.len() {
        lemma_outputs(k, acc, targets, outputs, (n - 1) as nat);
    }
}

proof fn lemma_filled(
    k: DeskV,
    acc: FlatV,
    targets: Seq<Option<ExprV>>,
    name: Seq<char>,
    args: Seq<ExprV>,
)
    ensures
        with_filled(k, acc, targets, name, args) matches Ok(made) ==> keeps_checks(acc, made),
{
    lemma_arguments(k.h, k.p, acc, args, args.len());
    if let Ok((given, mid)) = arguments_given(k.h, k.p, acc, args, args.len()) {
        lemma_targets(k, mid, targets, targets.len());
        if let Some(function) = function_called(k.classes, k.p, name) {
            if let Ok((outputs, more)) = (k.h.outputs)(function, given.args, given.shapes) {
                lemma_outputs(k, set_aside(mid, more), targets, outputs, targets.len());
            }
        }
    }
}

proof fn lemma_line(
    k: DeskV,
    acc: FlatV,
    lhs: ExprV,
    rhs: ExprV,
)
    ensures
        with_line(k, acc, lhs, rhs) matches Ok(made) ==> keeps_checks(acc, made),
{
    lemma_equation(k.h, k.p, plain_round(k.p), acc, lhs, rhs);
    if let ExprV::Tuple(targets) = lhs {
        if let ExprV::Call(name, args) = prefixed_whole((k.h.put)(rhs, true), k.p.naming) {
            lemma_filled(k, acc, targets, name, args);
        }
    }
}

proof fn lemma_call(
    k: DeskV,
    acc: FlatV,
    call: ExprV,
)
    ensures
        with_call(k, acc, call) matches Ok(made) ==> keeps_checks(acc, made),
{
    if let ExprV::Call(_, args) = prefixed_whole((k.h.put)(call, true), k.p.naming) {
        lemma_arguments(k.h, k.p, acc, args, args.len());
    }
}

proof fn lemma_calls(
    k: DeskV,
    acc: FlatV,
    list: Seq<Expr>,
    n: nat,
)
    ensures
        with_calls(k, acc, list, n) matches Ok(made) ==> keeps_checks(acc, made),
    decreases n,
{
    if n > 0 && n <= list.len() {
        lemma_calls(k, acc, list, (n - 1) as nat);
        if let Ok(before) = with_calls(k, acc, list, (n - 1) as nat) {
            lemma_call(k, before, list[n - 1].deep_view());
        }
    }
}

proof fn lemma_made_checks(
    k: DeskV,
    acc: FlatV,
    list: Checks,
    n: nat,
)
    ensures
        with_made_checks(k, acc, list, n) matches Ok(made) ==> keeps_checks(acc, made),
    decreases n,
{
    if n > 0 && n <= list.len() {
        lemma_made_checks(k, acc, list, (n - 1) as nat);
    }
}

proof fn lemma_written(
    k: DeskV,
    acc: FlatV,
    written: Map<Seq<char>, ExprV>,
    order: Seq<Seq<char>>,
    n: nat,
)
    ensures
        written_actions(k, acc, written, order, n) matches Ok(made) ==> keeps_checks(acc, made.1),
    decreases n,
{
    if n > 0 && n <= order.len() {
        lemma_written(k, acc, written, order, (n - 1) as nat);
    }
}

proof fn lemma_lifted(
    k: DeskV,
    acc: FlatV,
    branch: StatementBranch,
)
    ensures
        branch_lifted(k, acc, branch) matches Ok(made) ==> keeps_checks(acc, made.0),
{
    if let Ok(ran) = (k.h.run)(branch.body@) {
        let mid = set_aside(acc, ran.aside);
        lemma_made_checks(k, mid, ran.checks, ran.checks.len());
        if let Ok(after) = with_made_checks(k, mid, ran.checks, ran.checks.len()) {
            lemma_written(k, after, ran.written, ran.order, ran.order.len());
        }
    }
}

proof fn lemma_all_lifted(
    k: DeskV,
    acc: FlatV,
    list: Seq<StatementBranch>,
    n: nat,
)
    ensures
        branches_lifted(k, acc, list, n) matches Ok(made) ==> keeps_checks(acc, made.0),
    decreases n,
{
    if n > 0 && n <= list.len() {
        lemma_all_lifted(k, acc, list, (n - 1) as nat);
        if let Ok(before) = branches_lifted(k, acc, list, (n - 1) as nat) {
            lemma_lifted(k, before.0, list[n - 1]);
        }
    }
}

proof fn lemma_event(
    k: DeskV,
    acc: FlatV,
    statement: Statement,
)
    ensures
        with_event(k, acc, statement) matches Ok(made) ==> keeps_checks(acc, made),
{
    if let Statement::When(branches) = statement {
        lemma_all_lifted(k, acc, branches@, branches@.len());
    }
}

proof fn lemma_events(
    k: DeskV,
    acc: FlatV,
    list: Seq<Statement>,
    n: nat,
)
    ensures
        with_events(k, acc, list, n) matches Ok(made) ==> keeps_checks(acc, made),
    decreases n,
{
    if n > 0 && n <= list.len() {
        lemma_events(k, acc, list, (n - 1) as nat);
        if let Ok(before) = with_events(k, acc, list, (n - 1) as nat) {
            lemma_event(k, before, list[n - 1]);
        }
    }
}

proof fn lemma_assigned(
    k: DeskV,
    acc: FlatV,
    written: Map<Seq<char>, ExprV>,
    order: Seq<Seq<char>>,
    which: Seq<char>,
    n: nat,
)
    ensures
        with_assigned(k, acc, written, order, which, n) matches Ok(made) ==> keeps_checks(acc, made),
    decreases n,
{
    if n > 0 && n <= order.len() {
        lemma_assigned(k, acc, written, order, which, (n - 1) as nat);
    }
}

proof fn lemma_section(
    k: DeskV,
    acc: FlatV,
    list: Seq<Statement>,
    which: Seq<char>,
)
    ensures
        with_section(k, acc, list, which) matches Ok(made) ==> keeps_checks(acc, made),
{
    if let Ok(ran) = (k.h.run)(list) {
        let mid = set_aside(acc, ran.aside);
        lemma_made_checks(k, mid, ran.checks, ran.checks.len());
        if let Ok(after) = with_made_checks(k, mid, ran.checks, ran.checks.len()) {
            lemma_assigned(k, after, ran.written, ran.order, which, ran.order.len());
        }
    }
}

proof fn lemma_loops(
    k: DeskV,
    acc: FlatV,
    list: Seq<ForEquation>,
    n: nat,
)
    ensures
        with_loops(k, acc, list, n) matches Ok(made) ==> keeps_checks(acc, made),
    decreases n,
{
    if n > 0 && n <= list.len() {
        lemma_loops(k, acc, list, (n - 1) as nat);
        if let Ok(before) = with_loops(k, acc, list, (n - 1) as nat) {
            lemma_unrolled(k.h, k.v, k.p, before, list[n - 1], Map::empty(), k.p.consts);
        }
    }
}

proof fn lemma_branch_line(
    k: DeskV,
    acc: FlatV,
    equation: EquationItem,
    initial: bool,
)
    ensures
        with_branch_line(k, acc, equation, initial) matches Ok(made) ==> keeps_checks(acc, made),
{
    lemma_line(k, acc, equation.lhs.deep_view(), equation.rhs.deep_view());
}

proof fn lemma_branch_lines(
    k: DeskV,
    acc: FlatV,
    list: Seq<EquationItem>,
    n: nat,
)
    ensures
        with_branch_lines(k, acc, list, n) matches Ok(made) ==> keeps_checks(acc, made),
    decreases n,
{
    if n > 0 && n <= list.len() {
        lemma_branch_lines(k, acc, list, (n - 1) as nat);
        if let Ok(before) = with_branch_lines(k, acc, list, (n - 1) as nat) {
            lemma_branch_line(k, before, list[n - 1], false);
        }
    }
}

proof fn lemma_initial_lines(
    k: DeskV,
    acc: FlatV,
    list: Seq<EquationItem>,
    n: nat,
)
    ensures
        with_initial_lines(k, acc, list, n) matches Ok(made) ==> keeps_checks(acc, made),
    decreases n,
{
    if n > 0 && n <= list.len() {
        lemma_initial_lines(k, acc, list, (n - 1) as nat);
        if let Ok(before) = with_initial_lines(k, acc, list, (n - 1) as nat) {
            lemma_branch_line(k, before, list[n - 1], true);
        }
    }
}

proof fn lemma_joins(
    k: DeskV,
    acc: FlatV,
    list: Seq<(Expr, Expr)>,
    n: nat,
)
    ensures
        with_joins(k, acc, list, n) matches Ok(made) ==> keeps_checks(acc, made),
    decreases n,
{
    if n > 0 && n <= list.len() {
        lemma_joins(k, acc, list, (n - 1) as nat);
        if let Ok(before) = with_joins(k, acc, list, (n - 1) as nat) {
            lemma_connect(
                k.h,
                k.p,
                before,
                list[n - 1].0.deep_view(),
                list[n - 1].1.deep_view(),
                Map::empty(),
                k.p.consts,
                k.p.records,
            );
        }
    }
}

proof fn lemma_taken(
    k: DeskV,
    acc: FlatV,
    branch: IfBranch,
    initial: bool,
)
    ensures
        with_taken(k, acc, branch, initial) matches Ok(made) ==> keeps_checks(acc, made),
{
    let t = plain_round(k.p);
    lemma_guarded(k.h, k.p, t, acc, None, branch.asserts@, branch.asserts@.len());
    if let Ok(a) = with_guarded(
        k.h,
        k.p,
        t,
        acc,
        None,
        branch.asserts@,
        branch.asserts@.len(),
    ) {
        lemma_calls(k, a, branch.calls@, branch.calls@.len());
        if let Ok(b) = with_calls(k, a, branch.calls@, branch.calls@.len()) {
            lemma_loops(k, b, branch.loops@, branch.loops@.len());
            if let Ok(c) = with_loops(k, b, branch.loops@, branch.loops@.len()) {
                let lines = branch.equations@;
                lemma_branch_lines(k, c, lines, lines.len());
                lemma_initial_lines(k, c, lines, lines.len());
                if let Ok(d) = with_branch_lines(k, c, lines, lines.len()) {
                    lemma_joins(k, d, branch.connects@, branch.connects@.len());
                }
                if let Ok(d) = with_initial_lines(k, c, lines, lines.len()) {
                    lemma_joins(k, d, branch.connects@, branch.connects@.len());
                }
            }
        }
    }
}

proof fn lemma_if(k: DeskV, start: IfsV, held: IfEquation)
    ensures
        if_read(k, start, held) matches Ok(made) ==> keeps_checks(start.acc, made.acc),
{
    lemma_conditional(k.h, k.p, plain_round(k.p), start.acc, held, k.p.scope);
    let list = class_verdicts(k, start.acc, held);
    if let Some(at) = taken_from(list, 0) {
        lemma_taken(k, start.acc, held.branches@[at as int], held.initial);
    }
}

proof fn lemma_ifs(k: DeskV, start: IfsV, list: Seq<IfEquation>, n: nat)
    ensures
        ifs_read(k, start, list, n) matches Ok(made) ==> keeps_checks(start.acc, made.acc),
    decreases n,
{
    if n > 0 && n <= list.len() {
        lemma_ifs(k, start, list, (n - 1) as nat);
        if let Ok(before) = ifs_read(k, start, list, (n - 1) as nat) {
            lemma_if(k, before, list[n - 1]);
        }
    }
}

proof fn lemma_values_given(
    k: DeskV,
    acc: FlatV,
    targets: Seq<Seq<char>>,
    list: Seq<EquationItem>,
    n: nat,
)
    ensures
        values_given(k, acc, targets, list, n) matches Ok(made) ==> keeps_checks(acc, made.2),
    decreases n,
{
    if n > 0 && n <= list.len() {
        lemma_values_given(k, acc, targets, list, (n - 1) as nat);
    }
}

proof fn lemma_choice(
    k: DeskV,
    acc: FlatV,
    list: Seq<IfBranch>,
    n: nat,
)
    ensures
        choice_read(k, acc, list, n) matches Ok(made) ==> keeps_checks(acc, made.1),
    decreases n,
{
    if n > 0 && n <= list.len() {
        lemma_choice(k, acc, list, (n - 1) as nat);
        if let Ok(before) = choice_read(k, acc, list, (n - 1) as nat) {
            lemma_values_given(
                k,
                before.1,
                before.0.targets,
                list[n - 1].equations@,
                list[n - 1].equations@.len(),
            );
        }
    }
}

proof fn lemma_target(
    k: DeskV,
    acc: FlatV,
    target: Seq<char>,
    worth: ExprV,
)
    ensures
        target_assigned(k, acc, target, worth) matches Ok(made) ==> keeps_checks(acc, made.0),
{
}

proof fn lemma_all_targets(
    k: DeskV,
    acc: FlatV,
    targets: Seq<Option<Seq<char>>>,
    outputs: Seq<(Seq<char>, ExprV)>,
    n: nat,
)
    ensures
        targets_assigned(k, acc, targets, outputs, n) matches Ok(made) ==> keeps_checks(acc, made.0),
    decreases n,
{
    if n > 0 && n <= targets.len() {
        lemma_all_targets(k, acc, targets, outputs, (n - 1) as nat);
        if let Ok(before) = targets_assigned(k, acc, targets, outputs, (n - 1) as nat) {
            if let Some(target) = targets[n - 1] {
                lemma_target(k, before.0, flat_of(target, k.p.naming), outputs[n - 1].1);
            }
        }
    }
}

proof fn lemma_tuple(
    k: DeskV,
    acc: FlatV,
    targets: Seq<Option<Seq<char>>>,
    value: ExprV,
)
    ensures
        tuple_actions(k, acc, targets, value) matches Ok(made) ==> keeps_checks(acc, made.0),
{
    if let ExprV::Call(name, args) = prefixed_whole((k.h.put)(value, true), k.p.naming) {
        if let Some(function) = function_called(k.classes, k.p, name) {
            lemma_arguments(k.h, k.p, acc, args, args.len());
            if let Ok((given, mid)) = arguments_given(k.h, k.p, acc, args, args.len()) {
                if let Ok((outputs, aside)) = event_outputs(k, function, name, given) {
                    lemma_all_targets(
                        k,
                        set_aside(mid, aside),
                        targets,
                        outputs,
                        targets.len(),
                    );
                }
            }
        }
    }
}

proof fn lemma_action(
    k: DeskV,
    acc: FlatV,
    action: WhenAction,
)
    ensures
        action_read(k, acc, action) matches Ok(made) ==> keeps_checks(acc, made.0),
{
    match action {
        WhenAction::Call(name, args) => {
            lemma_call(k, acc, ExprV::Call(name@, args.deep_view()));
        },
        WhenAction::Choice(held) => {
            lemma_choice(k, acc, held.branches@, held.branches@.len());
        },
        WhenAction::Loop(l) => {
            lemma_unrolled(k.h, k.v, k.p, acc, l, Map::empty(), k.p.consts);
        },
        WhenAction::TupleAssign(targets, value) => {
            lemma_tuple(k, acc, targets.deep_view(), value.deep_view());
        },
        _ => {},
    }
}

proof fn lemma_actions(
    k: DeskV,
    acc: FlatV,
    list: Seq<WhenAction>,
    n: nat,
)
    ensures
        actions_read(k, acc, list, n) matches Ok(made) ==> keeps_checks(acc, made.0),
    decreases n,
{
    if n > 0 && n <= list.len() {
        lemma_actions(k, acc, list, (n - 1) as nat);
        if let Ok(before) = actions_read(k, acc, list, (n - 1) as nat) {
            lemma_action(k, before.0, list[n - 1]);
        }
    }
}

proof fn lemma_when_branch(
    k: DeskV,
    acc: FlatV,
    branch: WhenBranch,
)
    ensures
        when_branch_read(k, acc, branch) matches Ok(made) ==> keeps_checks(acc, made.0),
{
    lemma_actions(k, acc, branch.actions@, branch.actions@.len());
}

proof fn lemma_when_branches(
    k: DeskV,
    acc: FlatV,
    list: Seq<WhenBranch>,
    n: nat,
)
    ensures
        when_branches_read(k, acc, list, n) matches Ok(made) ==> keeps_checks(acc, made.0),
    decreases n,
{
    if n > 0 && n <= list.len() {
        lemma_when_branches(k, acc, list, (n - 1) as nat);
        if let Ok(before) = when_branches_read(k, acc, list, (n - 1) as nat) {
            lemma_when_branch(k, before.0, list[n - 1]);
        }
    }
}

proof fn lemma_whens(
    k: DeskV,
    acc: FlatV,
    list: Seq<WhenClause>,
    n: nat,
)
    ensures
        with_whens(k, acc, list, n) matches Ok(made) ==> keeps_checks(acc, made),
    decreases n,
{
    if n > 0 && n <= list.len() {
        lemma_whens(k, acc, list, (n - 1) as nat);
        if let Ok(before) = with_whens(k, acc, list, (n - 1) as nat) {
            lemma_when_branches(k, before, list[n - 1].branches@, list[n - 1].branches@.len());
        }
    }
}

proof fn lemma_records(
    k: DeskV,
    acc: FlatV,
    wide: Map<Seq<char>, Seq<char>>,
    list: Seq<(Seq<char>, ExprV, bool)>,
    n: nat,
)
    ensures
        with_records(k, acc, wide, list, n) matches Ok(made) ==> keeps_checks(acc, made),
    decreases n,
{
    if n > 0 && n <= list.len() {
        lemma_records(k, acc, wide, list, (n - 1) as nat);
    }
}

proof fn lemma_lines(
    k: DeskV,
    acc: FlatV,
    list: Seq<EquationItem>,
    n: nat,
)
    ensures
        with_lines(k, acc, list, n) matches Ok(made) ==> keeps_checks(acc, made),
    decreases n,
{
    if n > 0 && n <= list.len() {
        lemma_lines(k, acc, list, (n - 1) as nat);
        if let Ok(before) = with_lines(k, acc, list, (n - 1) as nat) {
            lemma_line(k, before, list[n - 1].lhs.deep_view(), list[n - 1].rhs.deep_view());
        }
    }
}

proof fn lemma_class_checks(
    k: DeskV,
    acc: FlatV,
    list: Seq<(Expr, String)>,
    n: nat,
)
    ensures
        with_class_checks(k, acc, list, n) matches Ok(made) ==> keeps_checks(acc, made),
    decreases n,
{
    if n > 0 && n <= list.len() {
        lemma_class_checks(k, acc, list, (n - 1) as nat);
    }
}

proof fn lemma_arrows(
    k: DeskV,
    acc: FlatV,
    list: Seq<Transition>,
    n: nat,
)
    ensures
        with_arrows(k, acc, list, n) matches Ok(made) ==> keeps_checks(acc, made),
    decreases n,
{
    if n > 0 && n <= list.len() {
        lemma_arrows(k, acc, list, (n - 1) as nat);
    }
}

proof fn lemma_initials(
    k: DeskV,
    acc: FlatV,
    list: Seq<EquationItem>,
    n: nat,
)
    ensures
        with_initials(k, acc, list, n) matches Ok(made) ==> keeps_checks(acc, made),
    decreases n,
{
    if n > 0 && n <= list.len() {
        lemma_initials(k, acc, list, (n - 1) as nat);
    }
}

proof fn lemma_connects(
    k: DeskV,
    acc: FlatV,
    broken: Seq<Deselect>,
    found: Seq<bool>,
    list: Seq<(Expr, Expr)>,
    n: nat,
)
    ensures
        with_connects(k, acc, broken, found, list, n) matches Ok(made) ==> keeps_checks(acc, made.0),
    decreases n,
{
    if n > 0 && n <= list.len() {
        lemma_connects(k, acc, broken, found, list, (n - 1) as nat);
        if let Ok(before) = with_connects(k, acc, broken, found, list, (n - 1) as nat) {
            lemma_connect(
                k.h,
                k.p,
                before.0,
                list[n - 1].0.deep_view(),
                list[n - 1].1.deep_view(),
                Map::empty(),
                k.p.consts,
                Map::empty(),
            );
        }
    }
}

proof fn lemma_first(
    k: DeskV,
    acc: FlatV,
    class: ClassDef,
    record_values: Seq<(Seq<char>, ExprV, bool)>,
)
    ensures
        stated_first(k, acc, class, record_values) matches Ok(made) ==> keeps_checks(acc, made),
{
    let wide = overlaid(acc.records, k.p.records);
    lemma_records(k, acc, wide, record_values, record_values.len());
    if let Ok(a) = with_records(k, acc, wide, record_values, record_values.len()) {
        lemma_lines(k, a, class.equations@, class.equations@.len());
        if let Ok(b) = with_lines(k, a, class.equations@, class.equations@.len()) {
            lemma_after_lines(k, b, class);
        }
    }
}

/// What a class states after the equations it wrote outright and before its
/// calls.
pub open spec fn stated_after_lines(k: DeskV, acc: FlatV, class: ClassDef) -> Result<
    FlatV,
    Seq<char>,
> {
    match with_class_checks(k, acc, class.asserts@, class.asserts@.len()) {
        Err(why) => Err(why),
        Ok(acc) => match with_arrows(k, acc, class.transitions@, class.transitions@.len()) {
            Err(why) => Err(why),
            Ok(acc) => {
                let acc = match class.initial_state {
                    Some(state) => FlatV {
                        initial_states: acc.initial_states.push(flat_of(state@, k.p.naming)),
                        ..acc
                    },
                    None => acc,
                };
                match with_initials(
                    k,
                    acc,
                    class.initial_equations@,
                    class.initial_equations@.len(),
                ) {
                    Err(why) => Err(why),
                    Ok(acc) => match with_algorithm(k, acc, class) {
                        Err(why) => Err(why),
                        Ok(acc) => with_initial_algorithm(k, acc, class),
                    },
                }
            },
        },
    }
}

proof fn lemma_after_lines(
    k: DeskV,
    acc: FlatV,
    class: ClassDef,
)
    ensures
        stated_after_lines(k, acc, class) matches Ok(made) ==> keeps_checks(acc, made),
{
    lemma_class_checks(k, acc, class.asserts@, class.asserts@.len());
    if let Ok(a) = with_class_checks(k, acc, class.asserts@, class.asserts@.len()) {
        lemma_arrows(k, a, class.transitions@, class.transitions@.len());
        if let Ok(b) = with_arrows(k, a, class.transitions@, class.transitions@.len()) {
            let c = match class.initial_state {
                Some(state) => FlatV {
                    initial_states: b.initial_states.push(flat_of(state@, k.p.naming)),
                    ..b
                },
                None => b,
            };
            let list = class.initial_equations@;
            lemma_initials(k, c, list, list.len());
            if let Ok(d) = with_initials(k, c, list, list.len()) {
                let steps = class.algorithm@;
                lemma_events(k, d, steps, steps.len());
                if let Ok(e) = with_events(k, d, steps, steps.len()) {
                    lemma_section(k, e, steps_among(steps), "algorithm"@);
                }
                if let Ok(e) = with_algorithm(k, d, class) {
                    lemma_section(k, e, class.initial_algorithm@, "initial algorithm"@);
                }
            }
        }
    }
}

proof fn lemma_then(
    k: DeskV,
    acc: FlatV,
    class: ClassDef,
    broken: Seq<Deselect>,
    found: Seq<bool>,
)
    ensures
        stated_then(k, acc, class, broken, found) matches Ok(made) ==> keeps_checks(acc, made.0),
{
    lemma_calls(k, acc, class.calls@, class.calls@.len());
    if let Ok(a) = with_calls(k, acc, class.calls@, class.calls@.len()) {
        lemma_loops(k, a, class.for_equations@, class.for_equations@.len());
        if let Ok(b) = with_loops(k, a, class.for_equations@, class.for_equations@.len()) {
            let start = IfsV { acc: b, whens: Seq::empty(), graph: Seq::empty() };
            lemma_ifs(k, start, class.if_equations@, class.if_equations@.len());
            if let Ok(made) = ifs_read(
                k,
                start,
                class.if_equations@,
                class.if_equations@.len(),
            ) {
                let c = with_clauses(k, made.acc, clauses_of(class.connection_graph@));
                let d = with_clauses(k, c, made.graph);
                lemma_whens(k, d, class.when_clauses@, class.when_clauses@.len());
                if let Ok(e) = with_whens(k, d, class.when_clauses@, class.when_clauses@.len()) {
                    lemma_whens(k, e, made.whens, made.whens.len());
                    if let Ok(f) = with_whens(k, e, made.whens, made.whens.len()) {
                        lemma_connects(
                            k,
                            f,
                            broken,
                            found,
                            class.connects@,
                            class.connects@.len(),
                        );
                    }
                }
            }
        }
    }
}

/// Stating a class loses no check: those gathered before and those set aside
/// before are there after it, in the order they had.
pub proof fn law_stating_a_class_loses_no_check(
    k: DeskV,
    acc: FlatV,
    class: ClassDef,
    record_values: Seq<(Seq<char>, ExprV, bool)>,
    broken: Seq<Deselect>,
    found: Seq<bool>,
)
    ensures
        class_stated(k, acc, class, record_values, broken, found) matches Ok(made) ==> keeps_checks(acc, made.0),
{
    lemma_first(k, acc, class, record_values);
    if let Ok(mid) = stated_first(k, acc, class, record_values) {
        lemma_then(k, mid, class, broken, found);
    }
}

/// Whether a check is in a list, at the `from`-th place or later.
pub open spec fn stands_from(list: Checks, from: nat, check: (ExprV, Seq<char>)) -> bool {
    exists|j: int| from <= j < list.len() && #[trigger] list[j] == check
}

/// Whether every one of `checks` is.
pub open spec fn all_stand_from(list: Checks, from: nat, checks: Checks) -> bool {
    forall|i: int| 0 <= i < checks.len() ==> stands_from(list, from, #[trigger] checks[i])
}

/// What the bodies run for an expression that is named in full check.
pub open spec fn reading_leaves(
    h: ReadingV,
    e: ExprV,
    vars: Worths,
    consts: Worths,
    records: Map<Seq<char>, Seq<char>>,
) -> Checks {
    match (h.spread)(e, vars, consts, records) {
        Err(_) => Seq::empty(),
        Ok((value, first)) => match (h.unfold)(value, vars, consts, records) {
            Err(_) => first,
            Ok((_, then)) => first + then,
        },
    }
}

/// What the bodies run for the first `n` arguments of a call check.
pub open spec fn arguments_leave(h: ReadingV, p: HereV, args: Seq<ExprV>, n: nat) -> Checks
    decreases n,
{
    if n == 0 || n > args.len() {
        Seq::empty()
    } else {
        arguments_leave(h, p, args, (n - 1) as nat) + (match (h.spread)(
            args[n - 1],
            Map::empty(),
            p.consts,
            p.records,
        ) {
            Ok((_, more)) => more,
            Err(_) => Seq::empty(),
        })
    }
}

proof fn lemma_arguments_leave(
    h: ReadingV,
    p: HereV,
    acc: FlatV,
    args: Seq<ExprV>,
    n: nat,
)
    ensures
        arguments_given(h, p, acc, args, n) matches Ok(made) ==> made.1.rest.aside
            == acc.rest.aside + arguments_leave(h, p, args, n),
    decreases n,
{
    if n > 0 && n <= args.len() {
        lemma_arguments_leave(h, p, acc, args, (n - 1) as nat);
    }
    if let Ok(made) = arguments_given(h, p, acc, args, n) {
        assert(made.1.rest.aside =~= acc.rest.aside + arguments_leave(h, p, args, n));
    }
}

/// What the body that an equation fills a tuple with checks, as the equation is
/// read where `acc` was gathered.
pub open spec fn filling_checks(k: DeskV, acc: FlatV, name: Seq<char>, args: Seq<ExprV>) -> Checks {
    match (
        function_called(k.classes, k.p, name),
        arguments_given(k.h, k.p, acc, args, args.len()),
    ) {
        (Some(function), Ok((given, _))) => if name == "spatialDistribution"@ {
            Seq::empty()
        } else {
            match (k.h.outputs)(function, given.args, given.shapes) {
                Ok((_, more)) => more,
                Err(_) => Seq::empty(),
            }
        },
        _ => Seq::empty(),
    }
}

/// What the bodies that such an equation calls check: those run for the arguments
/// it hands over, and the one that fills the tuple.
pub open spec fn tuple_checks(k: DeskV, acc: FlatV, rhs: ExprV) -> Checks {
    match prefixed_whole((k.h.put)(rhs, true), k.p.naming) {
        ExprV::Call(name, args) => arguments_leave(k.h, k.p, args, args.len()) + filling_checks(
            k,
            acc,
            name,
            args,
        ),
        _ => Seq::empty(),
    }
}

/// What the bodies called by an equation of a class check: those run for its two
/// sides, or the one that fills a tuple.
pub open spec fn line_checks(k: DeskV, acc: FlatV, lhs: ExprV, rhs: ExprV) -> Checks {
    let t = plain_round(k.p);
    if lhs is Tuple {
        tuple_checks(k, acc, rhs)
    } else {
        reading_leaves(
            k.h,
            prefixed_whole(put_in(k.h, t, lhs), k.p.naming),
            t.vars,
            t.consts,
            k.p.records,
        ) + reading_leaves(
            k.h,
            prefixed_whole(put_in(k.h, t, rhs), k.p.naming),
            t.vars,
            t.consts,
            k.p.records,
        )
    }
}

proof fn lemma_tuple_set_aside(k: DeskV, acc: FlatV, lhs: ExprV, rhs: ExprV)
    requires
        lhs is Tuple,
    ensures
        with_line(k, acc, lhs, rhs) matches Ok(made) ==> all_stand_from(
            made.rest.aside,
            acc.rest.aside.len(),
            tuple_checks(k, acc, rhs),
        ),
{
    if let Ok(made) = with_line(k, acc, lhs, rhs) {
        let checks = tuple_checks(k, acc, rhs);
        let targets = lhs->Tuple_0;
        let call = prefixed_whole((k.h.put)(rhs, true), k.p.naming);
        let name = call->Call_0;
        let args = call->Call_1;
        let (given, mid) = arguments_given(k.h, k.p, acc, args, args.len())->Ok_0;
        lemma_arguments_leave(k.h, k.p, acc, args, args.len());
        let then = filling_checks(k, acc, name, args);
        let kept = set_aside(mid, then);
        assert(kept.rest.aside =~= acc.rest.aside + checks);
        if name == "spatialDistribution"@ {
            lemma_targets(k, mid, targets, targets.len());
        } else {
            let function = function_called(k.classes, k.p, name)->0;
            let (outputs, more) = (k.h.outputs)(function, given.args, given.shapes)->Ok_0;
            lemma_outputs(k, kept, targets, outputs, targets.len());
        }
        assert(begins_with_all(made.rest.aside, kept.rest.aside));
        assert forall|i: int| 0 <= i < checks.len() implies stands_from(
            made.rest.aside,
            acc.rest.aside.len(),
            #[trigger] checks[i],
        ) by {
            let at = acc.rest.aside.len() + i;
            assert(kept.rest.aside[at] == checks[i]);
            assert(made.rest.aside[at] == kept.rest.aside[at]);
        }
    }
}

/// Reading an equation sets aside all that the bodies it calls check.
pub proof fn law_an_equation_sets_its_checks_aside(k: DeskV, acc: FlatV, lhs: ExprV, rhs: ExprV)
    ensures
        with_line(k, acc, lhs, rhs) matches Ok(made) ==> all_stand_from(
            made.rest.aside,
            acc.rest.aside.len(),
            line_checks(k, acc, lhs, rhs),
        ),
{
    if lhs is Tuple {
        lemma_tuple_set_aside(k, acc, lhs, rhs);
    } else if let Ok(made) = with_line(k, acc, lhs, rhs) {
        let checks = line_checks(k, acc, lhs, rhs);
        assert(made.rest.aside =~= acc.rest.aside + checks);
        assert forall|i: int| 0 <= i < checks.len() implies stands_from(
            made.rest.aside,
            acc.rest.aside.len(),
            #[trigger] checks[i],
        ) by {
            assert(made.rest.aside[acc.rest.aside.len() + i] == checks[i]);
        }
    }
}

proof fn lemma_lines_from(k: DeskV, acc: FlatV, list: Seq<EquationItem>, m: nat, n: nat)
    requires
        m <= n <= list.len(),
        with_lines(k, acc, list, n) is Ok,
    ensures
        with_lines(k, acc, list, m) is Ok,
        keeps_checks(with_lines(k, acc, list, m)->Ok_0, with_lines(k, acc, list, n)->Ok_0),
    decreases n,
{
    if m < n {
        lemma_lines_from(k, acc, list, m, (n - 1) as nat);
        let before = with_lines(k, acc, list, (n - 1) as nat)->Ok_0;
        lemma_line(k, before, list[n - 1].lhs.deep_view(), list[n - 1].rhs.deep_view());
    }
}

/// What was gathered before the equation at a place of a class is read.
pub open spec fn before_line(
    k: DeskV,
    acc: FlatV,
    class: ClassDef,
    record_values: Seq<(Seq<char>, ExprV, bool)>,
    at: nat,
) -> Result<FlatV, Seq<char>> {
    let wide = overlaid(acc.records, k.p.records);
    match with_records(k, acc, wide, record_values, record_values.len()) {
        Err(why) => Err(why),
        Ok(acc) => with_lines(k, acc, class.equations@, at),
    }
}

/// Once a class is stated, all that the bodies called by one of its equations
/// check is set aside.
pub proof fn law_a_stated_class_holds_what_its_equations_call(
    k: DeskV,
    acc: FlatV,
    class: ClassDef,
    record_values: Seq<(Seq<char>, ExprV, bool)>,
    broken: Seq<Deselect>,
    found: Seq<bool>,
    at: nat,
)
    requires
        at < class.equations@.len(),
    ensures
        class_stated(k, acc, class, record_values, broken, found) matches Ok(made) ==> (
        before_line(k, acc, class, record_values, at) matches Ok(before) && all_stand_from(
            made.0.rest.aside,
            acc.rest.aside.len(),
            line_checks(
                k,
                before,
                class.equations@[at as int].lhs.deep_view(),
                class.equations@[at as int].rhs.deep_view(),
            ),
        )),
{
    if let Ok(made) = class_stated(k, acc, class, record_values, broken, found) {
        let wide = overlaid(acc.records, k.p.records);
        let start = with_records(k, acc, wide, record_values, record_values.len())->Ok_0;
        let list = class.equations@;
        let lhs = list[at as int].lhs.deep_view();
        let rhs = list[at as int].rhs.deep_view();
        lemma_records(k, acc, wide, record_values, record_values.len());
        lemma_lines_from(k, start, list, at + 1, list.len());
        lemma_lines_from(k, start, list, at, at + 1);
        lemma_lines_from(k, start, list, 0, at);
        let before = with_lines(k, start, list, at)->Ok_0;
        let next = with_lines(k, start, list, at + 1)->Ok_0;
        let all = with_lines(k, start, list, list.len())->Ok_0;
        assert(with_line(k, before, lhs, rhs) == Ok::<FlatV, Seq<char>>(next));
        law_an_equation_sets_its_checks_aside(k, before, lhs, rhs);
        lemma_after_lines(k, all, class);
        let mid = stated_first(k, acc, class, record_values)->Ok_0;
        assert(stated_after_lines(k, all, class) == Ok::<FlatV, Seq<char>>(mid));
        lemma_then(k, mid, class, broken, found);
        let checks = line_checks(k, before, lhs, rhs);
        assert forall|i: int| 0 <= i < checks.len() implies stands_from(
            made.0.rest.aside,
            acc.rest.aside.len(),
            #[trigger] checks[i],
        ) by {
            let held = before.rest.aside.len();
            assert(stands_from(next.rest.aside, held, checks[i]));
            let j = choose|j: int|
                held <= j < next.rest.aside.len() && #[trigger] next.rest.aside[j] == checks[i];
            assert(all.rest.aside[j] == next.rest.aside[j]);
            assert(mid.rest.aside[j] == all.rest.aside[j]);
            assert(made.0.rest.aside[j] == mid.rest.aside[j]);
        }
    }
}

/// Stating a class of the tree loses none of the checks the course set aside,
/// and adds all that the bodies called by its equations check.
pub proof fn law_a_course_takes_up_what_bodies_check<C>(
    w: WebV<C>,
    class: ClassDef,
    env: EnvV,
    here: HereV,
    sizes: Lengths,
    built: BuiltV,
    course: CourseV,
    at: nat,
)
    requires
        at < class.equations@.len(),
    ensures
        state_told(w, class, env, here, sizes, built, course) matches Ok(made) ==> {
            let k = desk_told(w, class, env, here, sizes);
            let start = gathered_on(course);
            &&& begins_with_all(made.0.aside, course.aside)
            &&& before_line(k, start, class, built.record_values, at) matches Ok(before)
                && all_stand_from(
                made.0.aside,
                course.aside.len(),
                line_checks(
                    k,
                    before,
                    class.equations@[at as int].lhs.deep_view(),
                    class.equations@[at as int].rhs.deep_view(),
                ),
            )
        },
{
    let k = desk_told(w, class, env, here, sizes);
    let start = gathered_on(course);
    let found = found_so_far(env.broken.len(), built.broke);
    law_stating_a_class_loses_no_check(
        k,
        start,
        class,
        built.record_values,
        env.broken,
        found,
    );
    law_a_stated_class_holds_what_its_equations_call(
        k,
        start,
        class,
        built.record_values,
        env.broken,
        found,
        at,
    );
}

/// Whether building components drops no check.
pub open spec fn builds_keep<C>(w: WebV<C>) -> bool {
    forall|class: ClassDef, env: EnvV, floor: FloorV, course: CourseV, built: BuiltV|
        (#[trigger] (w.out.works.build)(class, env, floor, course, built)) matches Ok(made)
            ==> course_keeps(course, made.0)
}

/// Where building components drops no check, nothing of the tree does.
pub proof fn law_the_tree_drops_no_check<C>(w: WebV<C>, on: FootingV)
    requires
        builds_keep(w),
    ensures
        nothing_is_dropped(ground_told(w, on)),
{
    let g = ground_told(w, on);
    assert forall|
        class: ClassDef,
        env: EnvV,
        here: HereV,
        sizes: Lengths,
        built: BuiltV,
        course: CourseV,
    |
        (#[trigger] (g.h.state)(class, env, here, sizes, built, course)) is Ok implies course_keeps(
        course,
        (g.h.state)(class, env, here, sizes, built, course)->Ok_0.0,
    ) by {
        let k = desk_told(w, class, env, here, sizes);
        let found = found_so_far(env.broken.len(), built.broke);
        law_stating_a_class_loses_no_check(
            k,
            gathered_on(course),
            class,
            built.record_values,
            env.broken,
            found,
        );
    }
}

/// What the bodies called by an equation of a class check, the model checks: once
/// the class is instantiated, each such check is, worked out, among the checks
/// that were gathered.
pub proof fn law_what_called_bodies_check_the_model_checks<C>(
    w: WebV<C>,
    on: FootingV,
    class: ClassDef,
    prefix: Seq<char>,
    env: EnvV,
    course: CourseV,
    depth: nat,
    at: nat,
    i: int,
)
    requires
        builds_keep(w),
        at < class.equations@.len(),
        instantiated(ground_told(w, on), class, prefix, env, course, depth) is Ok,
    ensures
        ({
            let g = ground_told(w, on);
            let after = instantiated(g, class, prefix, env, course, depth)->Ok_0;
            let (here, built, now) = about_to_state(g, class, prefix, env, course, depth)->Ok_0;
            let k = desk_told(w, class, env, here, built.sizes);
            let before = before_line(k, gathered_on(now), class, built.record_values, at)->Ok_0;
            let checks = line_checks(
                k,
                before,
                class.equations@[at as int].lhs.deep_view(),
                class.equations@[at as int].rhs.deep_view(),
            );
            0 <= i < checks.len() ==> is_made(g, here, after.flat.asserts, checks[i])
        }),
{
    let g = ground_told(w, on);
    law_the_tree_drops_no_check(w, on);
    law_what_is_set_aside_for_a_class_is_made(g, class, prefix, env, course, depth, 0);
    let (here, built, now) = about_to_state(g, class, prefix, env, course, depth)->Ok_0;
    law_a_course_takes_up_what_bodies_check(
        w,
        class,
        env,
        here,
        built.sizes,
        built,
        now,
        at,
    );
    let k = desk_told(w, class, env, here, built.sizes);
    let stated = state_told(w, class, env, here, built.sizes, built, now)->Ok_0;
    let before = before_line(k, gathered_on(now), class, built.record_values, at)->Ok_0;
    let checks = line_checks(
        k,
        before,
        class.equations@[at as int].lhs.deep_view(),
        class.equations@[at as int].rhs.deep_view(),
    );
    if 0 <= i < checks.len() {
        law_what_the_course_held_is_there(g, class, prefix, env, course, depth);
        assert(stands_from(stated.0.aside, now.aside.len(), checks[i]));
        let j = choose|j: int|
            now.aside.len() <= j < stated.0.aside.len() && #[trigger] stated.0.aside[j]
                == checks[i];
        law_what_is_set_aside_for_a_class_is_made(g, class, prefix, env, course, depth, j);
    }
}

}
