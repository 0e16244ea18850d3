//! The bodies a flat model still calls: which they are, and how each is carried
//! along for the run to walk.
use crate::inlining::Inlined;
use crate::class::{
    ClassDef, ClassKind, Component, ComponentV, EquationItem, EquationV, Statement,
    StatementBranch, WhenAction, WhenBranch, WhenClause,
};
use crate::expr::{copy_all, kids, lemma_kids_smaller, with_kids, Expr, ExprV};
use crate::flat::{Model, ModelV, WhenActionV, WhenBranchV, WhenClauseV};
use crate::functions::{gathered_over, with_inherited_components};
use crate::inlining::{
    answers_at_all, does_answer, inlining_true, unfolding_of, walk_trouble, walkable, Inlining,
    Unfolding, UnfoldingV,
};
use crate::bodies::Answer;
use crate::instantiate::ROUNDS;
use crate::joins::{ordered, put_name};
use crate::lookup::{class_named, find_class, lookup, meaning, Pairs, Registry};
use crate::make;
use crate::names::{is_primitive, is_primitive_name, substitute_refs, substituted};
use crate::number::{from_count, nearest, Number};
use crate::records::{fields_written, record_fields};
use crate::sums::{is_steady, Arith, Sums};
use crate::table::Table;
use crate::text::{decimal, digits, join3, join4, same, texts};
use vstd::prelude::*;

verus! {

/// Where a name is read: the classes at hand, the copies made of functions that
/// were handed other functions, and the class it is written in.
#[derive(Debug)]
pub struct Standpoint<'q, 'a> {
    pub registry: &'q Registry<'a>,
    pub copies: &'q Registry<'a>,
    pub scope: &'q str,
    pub imports: &'q Vec<(String, String)>,
}

pub ghost struct StandpointV<'a> {
    pub classes: Seq<&'a ClassDef>,
    pub copies: Seq<&'a ClassDef>,
    pub scope: Seq<char>,
    pub imports: Pairs,
}

impl<'q, 'a> DeepView for Standpoint<'q, 'a> {
    type V = StandpointV<'a>;

    open spec fn deep_view(&self) -> StandpointV<'a> {
        StandpointV {
            classes: self.registry@,
            copies: self.copies@,
            scope: self.scope@,
            imports: self.imports.deep_view(),
        }
    }
}

/// The function an expression calls itself, under the name it is known by.
pub open spec fn called_at(p: StandpointV, e: ExprV) -> Seq<Seq<char>> {
    match e {
        ExprV::Call(name, _) => match meaning(p.classes, name, p.scope, p.imports) {
            Some(class) => if class.kind == ClassKind::Function {
                seq![class.name@]
            } else {
                Seq::empty()
            },
            None => if class_named(p.copies, name) is Some {
                seq![name]
            } else {
                Seq::empty()
            },
        },
        _ => Seq::empty(),
    }
}

/// How many of an expression's children a call may stand in: a subscript holds
/// none, and the call it is taken of does.
pub open spec fn searched(e: ExprV) -> nat {
    match e {
        ExprV::Index(_, _) => 1,
        ExprV::Call(_, _) => kids(e).len(),
        ExprV::WithDerivative(_, _, _) => kids(e).len(),
        ExprV::Neg(_) => kids(e).len(),
        ExprV::Not(_) => kids(e).len(),
        ExprV::Bin(_, _, _) => kids(e).len(),
        ExprV::Rel(_, _, _) => kids(e).len(),
        ExprV::And(_, _) => kids(e).len(),
        ExprV::Or(_, _) => kids(e).len(),
        ExprV::Elementwise(_, _, _) => kids(e).len(),
        ExprV::If(_, _, _) => kids(e).len(),
        _ => 0,
    }
}

/// Every function an expression calls, the expression itself before what
/// stands in it.
pub open spec fn calls_in(p: StandpointV, e: ExprV) -> Seq<Seq<char>>
    decreases e, kids(e).len() + 1,
{
    called_at(p, e) + calls_below(p, e, if searched(e) <= kids(e).len() {
        searched(e)
    } else {
        0
    })
}

/// Every function the first `n` children of an expression call.
pub open spec fn calls_below(p: StandpointV, e: ExprV, n: nat) -> Seq<Seq<char>>
    decreases e, n,
{
    proof {
        lemma_kids_smaller(e);
    }
    if n == 0 || n > kids(e).len() {
        Seq::empty()
    } else {
        calls_below(p, e, (n - 1) as nat) + calls_in(p, kids(e)[n - 1])
    }
}

fn is_searched(expr: &Expr) -> (r: bool)
    ensures
        r ==> searched(expr.deep_view()) == kids(expr.deep_view()).len(),
        !r ==> searched(expr.deep_view()) == (if expr.deep_view() is Index {
            1nat
        } else {
            0nat
        }),
{
    match expr {
        Expr::Call(_, _) => true,
        Expr::WithDerivative(_, _, _) => true,
        Expr::Neg(_) => true,
        Expr::Not(_) => true,
        Expr::Bin(_, _, _) => true,
        Expr::Rel(_, _, _) => true,
        Expr::And(_, _) => true,
        Expr::Or(_, _) => true,
        Expr::Elementwise(_, _, _) => true,
        Expr::If(_, _, _) => true,
        _ => false,
    }
}

/// Every user function an expression calls, put behind those already gathered.
pub fn gather_calls(p: &Standpoint, expr: &Expr, out: &mut Vec<String>)
    ensures
        texts(final(out)@) == texts(old(out)@) + calls_in(p.deep_view(), expr.deep_view()),
    decreases expr.deep_view(),
{
    let ghost shape = expr.deep_view();
    let ghost pv = p.deep_view();
    let ghost was = texts(out@);
    if let Expr::Call(name, _) = expr {
        match lookup(p.registry, name.as_str(), p.scope, p.imports) {
            Some(class) => {
                if class.kind == ClassKind::Function {
                    out.push(class.name.clone());
                    assert(texts(out@) =~= was + seq![class.name@]);
                }
            },
            None => {
                if find_class(p.copies, name.as_str()).is_some() {
                    out.push(name.clone());
                    assert(texts(out@) =~= was + seq![name@]);
                }
            },
        }
    }
    assert(texts(out@) =~= was + called_at(pv, shape));
    let ghost before = texts(out@);
    let parts = expr.children();
    assert(parts.deep_view().len() == parts@.len());
    let many: usize = if is_searched(expr) {
        parts.len()
    } else if matches!(expr, Expr::Index(_, _)) {
        if parts.len() >= 1 {
            1
        } else {
            0
        }
    } else {
        0
    };
    let mut i: usize = 0;
    proof {
        lemma_kids_smaller(shape);
    }
    assert(texts(out@) =~= before + calls_below(pv, shape, 0));
    while i < many
        invariant
            i <= many <= parts.len(),
            shape == expr.deep_view(),
            pv == p.deep_view(),
            parts.deep_view() == kids(shape),
            parts.deep_view().len() == parts@.len(),
            forall|k: int|
                0 <= k < kids(shape).len() ==> (#[trigger] decreases_to!(shape => kids(shape)[k])),
            texts(out@) == before + calls_below(pv, shape, i as nat),
        decreases many - i,
    {
        assert(parts.deep_view()[i as int] == parts@[i as int].deep_view());
        assert(decreases_to!(shape => kids(shape)[i as int]));
        let part: &Expr = parts[i];
        gather_calls(p, part, out);
        assert(texts(out@) =~= before + calls_below(pv, shape, (i + 1) as nat));
        i = i + 1;
    }
    assert(texts(out@) =~= was + calls_in(pv, shape));
}

/// Every function the first `n` of a list call.
pub open spec fn calls_of(p: StandpointV, list: Seq<ExprV>, n: nat) -> Seq<Seq<char>>
    decreases n,
{
    if n == 0 || n > list.len() {
        Seq::empty()
    } else {
        calls_of(p, list, (n - 1) as nat) + calls_in(p, list[n - 1])
    }
}

fn gather_all(p: &Standpoint, list: &Vec<Expr>, out: &mut Vec<String>)
    ensures
        texts(final(out)@) == texts(old(out)@) + calls_of(
            p.deep_view(),
            list.deep_view(),
            list.deep_view().len(),
        ),
{
    let ghost was = texts(out@);
    let ghost lv = list.deep_view();
    let ghost pv = p.deep_view();
    assert(lv.len() == list@.len());
    let mut i: usize = 0;
    assert(texts(out@) =~= was + calls_of(pv, lv, 0));
    while i < list.len()
        invariant
            i <= list.len(),
            lv == list.deep_view(),
            lv.len() == list@.len(),
            pv == p.deep_view(),
            texts(out@) == was + calls_of(pv, lv, i as nat),
        decreases list.len() - i,
    {
        assert(lv[i as int] == list@[i as int].deep_view());
        gather_calls(p, &list[i], out);
        assert(texts(out@) =~= was + calls_of(pv, lv, (i + 1) as nat));
        i = i + 1;
    }
}

pub open spec fn calls_if(p: StandpointV, value: Option<ExprV>) -> Seq<Seq<char>> {
    match value {
        Some(value) => calls_in(p, value),
        None => Seq::empty(),
    }
}

/// The body a call that stands on its own names, where it answers with
/// anything: one that answers nothing is nothing for a walk to do.
pub open spec fn stood_alone(p: StandpointV, name: Seq<char>) -> Seq<Seq<char>> {
    match meaning(p.classes, name, p.scope, p.imports) {
        Some(class) => if answers_at_all(class) {
            seq![class.name@]
        } else {
            Seq::empty()
        },
        None => Seq::empty(),
    }
}

/// Every function a statement calls.
pub open spec fn statement_calls(p: StandpointV, item: Statement) -> Seq<Seq<char>>
    decreases item, 0nat,
{
    match item {
        Statement::Assign(_, subscripts, value) => calls_of(
            p,
            subscripts.deep_view(),
            subscripts@.len(),
        ) + calls_in(p, value.deep_view()),
        Statement::TupleAssign(_, value) => calls_in(p, value.deep_view()),
        Statement::If(taken) => branches_calls(p, taken@, taken@.len()),
        Statement::When(taken) => branches_calls(p, taken@, taken@.len()),
        Statement::For(_, range, body) => calls_if(p, range.deep_view()) + statements_calls(
            p,
            body@,
            body@.len(),
        ),
        Statement::While(condition, body) => calls_in(p, condition.deep_view()) + statements_calls(
            p,
            body@,
            body@.len(),
        ),
        Statement::Assert(condition, _) => calls_in(p, condition.deep_view()),
        Statement::Call(name, args) => stood_alone(p, name@) + calls_of(
            p,
            args.deep_view(),
            args@.len(),
        ),
        Statement::Break => Seq::empty(),
        Statement::Return => Seq::empty(),
    }
}

/// Every function a branch calls.
pub open spec fn branch_calls(p: StandpointV, item: StatementBranch) -> Seq<Seq<char>>
    decreases item, 0nat,
{
    calls_if(p, item.condition.deep_view()) + statements_calls(p, item.body@, item.body@.len())
}

/// Every function the first `n` statements call.
pub open spec fn statements_calls(p: StandpointV, items: Seq<Statement>, n: nat) -> Seq<Seq<char>>
    decreases items, n,
{
    if n == 0 || n > items.len() {
        Seq::empty()
    } else {
        statements_calls(p, items, (n - 1) as nat) + statement_calls(p, items[n - 1])
    }
}

/// Every function the first `n` branches call.
pub open spec fn branches_calls(
    p: StandpointV,
    items: Seq<StatementBranch>,
    n: nat,
) -> Seq<Seq<char>>
    decreases items, n,
{
    if n == 0 || n > items.len() {
        Seq::empty()
    } else {
        branches_calls(p, items, (n - 1) as nat) + branch_calls(p, items[n - 1])
    }
}

fn gather_if(p: &Standpoint, value: &Option<Expr>, out: &mut Vec<String>)
    ensures
        texts(final(out)@) == texts(old(out)@) + calls_if(p.deep_view(), value.deep_view()),
{
    match value {
        Some(value) => gather_calls(p, value, out),
        None => {},
    }
    assert(texts(out@) =~= texts(old(out)@) + calls_if(p.deep_view(), value.deep_view()));
}

fn gather_alone(p: &Standpoint, name: &str, out: &mut Vec<String>)
    ensures
        texts(final(out)@) == texts(old(out)@) + stood_alone(p.deep_view(), name@),
{
    let ghost was = texts(out@);
    if let Some(class) = lookup(p.registry, name, p.scope, p.imports) {
        if does_answer(class) {
            out.push(class.name.clone());
            assert(texts(out@) =~= was + seq![class.name@]);
        }
    }
    assert(texts(out@) =~= was + stood_alone(p.deep_view(), name@));
}

fn gather_in_statement(p: &Standpoint, item: &Statement, out: &mut Vec<String>)
    ensures
        texts(final(out)@) == texts(old(out)@) + statement_calls(p.deep_view(), *item),
    decreases *item, 0nat,
{
    match item {
        Statement::Assign(_, subscripts, value) => {
            assert(subscripts.deep_view().len() == subscripts@.len());
            gather_all(p, subscripts, out);
            gather_calls(p, value, out);
        },
        Statement::TupleAssign(_, value) => gather_calls(p, value, out),
        Statement::If(taken) => gather_in_branches(p, taken, out),
        Statement::When(taken) => gather_in_branches(p, taken, out),
        Statement::For(_, range, body) => {
            gather_if(p, range, out);
            gather_calls_in_statements(p, body, out);
        },
        Statement::While(condition, body) => {
            gather_calls(p, condition, out);
            gather_calls_in_statements(p, body, out);
        },
        Statement::Assert(condition, _) => gather_calls(p, condition, out),
        Statement::Call(name, args) => {
            assert(args.deep_view().len() == args@.len());
            gather_alone(p, name.as_str(), out);
            gather_all(p, args, out);
        },
        Statement::Break => {},
        Statement::Return => {},
    }
    assert(texts(out@) =~= texts(old(out)@) + statement_calls(p.deep_view(), *item));
}

fn gather_in_branch(p: &Standpoint, item: &StatementBranch, out: &mut Vec<String>)
    ensures
        texts(final(out)@) == texts(old(out)@) + branch_calls(p.deep_view(), *item),
    decreases *item, 0nat,
{
    gather_if(p, &item.condition, out);
    gather_calls_in_statements(p, &item.body, out);
    assert(texts(out@) =~= texts(old(out)@) + branch_calls(p.deep_view(), *item));
}

fn gather_in_branches(p: &Standpoint, items: &Vec<StatementBranch>, out: &mut Vec<String>)
    ensures
        texts(final(out)@) == texts(old(out)@) + branches_calls(
            p.deep_view(),
            items@,
            items@.len(),
        ),
    decreases items@, items@.len() + 1,
{
    let ghost was = texts(out@);
    let ghost pv = p.deep_view();
    let mut i: usize = 0;
    assert(texts(out@) =~= was + branches_calls(pv, items@, 0));
    while i < items.len()
        invariant
            i <= items.len(),
            pv == p.deep_view(),
            texts(out@) == was + branches_calls(pv, items@, i as nat),
        decreases items.len() - i,
    {
        gather_in_branch(p, &items[i], out);
        assert(texts(out@) =~= was + branches_calls(pv, items@, (i + 1) as nat));
        i = i + 1;
    }
}

/// Every user function the statements of a body call, put behind those already
/// gathered.
pub fn gather_calls_in_statements(p: &Standpoint, items: &Vec<Statement>, out: &mut Vec<String>)
    ensures
        texts(final(out)@) == texts(old(out)@) + statements_calls(
            p.deep_view(),
            items@,
            items@.len(),
        ),
    decreases items@, items@.len() + 1,
{
    let ghost was = texts(out@);
    let ghost pv = p.deep_view();
    let mut i: usize = 0;
    assert(texts(out@) =~= was + statements_calls(pv, items@, 0));
    while i < items.len()
        invariant
            i <= items.len(),
            pv == p.deep_view(),
            texts(out@) == was + statements_calls(pv, items@, i as nat),
        decreases items.len() - i,
    {
        gather_in_statement(p, &items[i], out);
        assert(texts(out@) =~= was + statements_calls(pv, items@, (i + 1) as nat));
        i = i + 1;
    }
}

/// A function's name as the registry knows it, where the name is a function's.
pub open spec fn function_called(p: StandpointV, name: Seq<char>) -> Seq<char> {
    match meaning(p.classes, name, p.scope, p.imports) {
        Some(class) => if class.kind == ClassKind::Function {
            class.name@
        } else {
            name
        },
        None => name,
    }
}

/// The expressions whose children are looked into for calls to be named.
pub open spec fn is_qualified(e: ExprV) -> bool {
    match e {
        ExprV::Call(_, _) => true,
        ExprV::Neg(_) => true,
        ExprV::Not(_) => true,
        ExprV::Bin(_, _, _) => true,
        ExprV::Rel(_, _, _) => true,
        ExprV::And(_, _) => true,
        ExprV::Or(_, _) => true,
        ExprV::If(_, _, _) => true,
        ExprV::Range(_, _, _) => true,
        ExprV::Array(_) => true,
        _ => false,
    }
}

/// [`qualified`] of every child.
pub open spec fn qualified_kids(p: StandpointV, e: ExprV) -> Seq<ExprV>
    decreases e, 0int,
{
    proof {
        lemma_kids_smaller(e);
    }
    Seq::new(
        kids(e).len(),
        |i: int|
            if 0 <= i < kids(e).len() {
                qualified(p, kids(e)[i])
            } else {
                e
            },
    )
}

/// The expression with every call to a user function named the way the registry
/// knows it.
pub open spec fn qualified(p: StandpointV, e: ExprV) -> ExprV
    decreases e, 1int,
{
    if is_qualified(e) {
        match with_kids(e, qualified_kids(p, e)) {
            ExprV::Call(name, args) => ExprV::Call(function_called(p, name), args),
            other => other,
        }
    } else {
        e
    }
}

fn name_function(p: &Standpoint, name: &str) -> (r: String)
    ensures
        r@ == function_called(p.deep_view(), name@),
{
    match lookup(p.registry, name, p.scope, p.imports) {
        Some(class) => if class.kind == ClassKind::Function {
            class.name.clone()
        } else {
            name.to_owned()
        },
        None => name.to_owned(),
    }
}

/// The same expression with every call to a user function named the way the
/// registry knows it.
pub fn qualified_in(p: &Standpoint, expr: &Expr) -> (r: Expr)
    ensures
        r.deep_view() == qualified(p.deep_view(), expr.deep_view()),
    decreases expr.deep_view(),
{
    let ghost shape = expr.deep_view();
    let ghost pv = p.deep_view();
    match expr {
        Expr::Call(_, _) => {},
        Expr::Neg(_) => {},
        Expr::Not(_) => {},
        Expr::Bin(_, _, _) => {},
        Expr::Rel(_, _, _) => {},
        Expr::And(_, _) => {},
        Expr::Or(_, _) => {},
        Expr::If(_, _, _) => {},
        Expr::Range(_, _, _) => {},
        Expr::Array(_) => {},
        _ => {
            return expr.clone();
        },
    }
    let parts = expr.children();
    let mut new: Vec<Expr> = Vec::new();
    let mut i: usize = 0;
    proof {
        lemma_kids_smaller(shape);
    }
    while i < parts.len()
        invariant
            i <= parts.len(),
            shape == expr.deep_view(),
            pv == p.deep_view(),
            parts.deep_view() == kids(shape),
            forall|k: int|
                0 <= k < kids(shape).len() ==> (#[trigger] decreases_to!(shape => kids(shape)[k])),
            new.len() == i,
            forall|k: int|
                0 <= k < i ==> (#[trigger] new@[k]).deep_view() == qualified(pv, kids(shape)[k]),
        decreases parts.len() - i,
    {
        assert(parts.deep_view()[i as int] == parts@[i as int].deep_view());
        assert(decreases_to!(shape => kids(shape)[i as int]));
        let part: &Expr = parts[i];
        new.push(qualified_in(p, part));
        i = i + 1;
    }
    assert(parts.deep_view().len() == parts@.len());
    assert(new.deep_view() =~= qualified_kids(pv, shape));
    if let Expr::Call(name, _) = expr {
        return make::call(name_function(p, name.as_str()).as_str(), new);
    }
    expr.with_children(new)
}

/// What a body's expression becomes where the body is carried along: its calls
/// named, and the members of its records written as elements.
pub open spec fn rewritten(p: StandpointV, map: Map<Seq<char>, ExprV>, e: ExprV) -> ExprV {
    substituted(qualified(p, e), map)
}

pub open spec fn all_rewritten(
    p: StandpointV,
    map: Map<Seq<char>, ExprV>,
    list: Seq<ExprV>,
) -> Seq<ExprV> {
    Seq::new(list.len(), |i: int| rewritten(p, map, list[i]))
}

pub open spec fn rewritten_if(
    p: StandpointV,
    map: Map<Seq<char>, ExprV>,
    value: Option<ExprV>,
) -> Option<ExprV> {
    match value {
        Some(value) => Some(rewritten(p, map, value)),
        None => None,
    }
}

/// What an assigned name becomes: a member of a record is written as an element
/// of an array, and a statement may be filling one.
pub open spec fn target_of(map: Map<Seq<char>, ExprV>, name: Seq<char>) -> Seq<char> {
    if map.contains_key(name) {
        match map[name] {
            ExprV::Ref(instead) => instead,
            _ => name,
        }
    } else {
        name
    }
}

/// A called name as the registry knows it, whatever kind of class it is.
pub open spec fn class_called(p: StandpointV, name: Seq<char>) -> Seq<char> {
    match meaning(p.classes, name, p.scope, p.imports) {
        Some(class) => class.name@,
        None => name,
    }
}

/// Whether one slot of a list of targets is another with its name rewritten.
pub open spec fn slot_restated(
    map: Map<Seq<char>, ExprV>,
    a: Option<(String, Vec<Expr>)>,
    b: Option<(String, Vec<Expr>)>,
) -> bool {
    match (a, b) {
        (Some(a), Some(b)) => b.0@ == target_of(map, a.0@) && b.1.deep_view() == a.1.deep_view(),
        (None, None) => true,
        _ => false,
    }
}

/// Whether a statement is another as it is carried along.
pub open spec fn restated(
    p: StandpointV,
    map: Map<Seq<char>, ExprV>,
    a: Statement,
    b: Statement,
) -> bool
    decreases a, 0nat,
{
    match (a, b) {
        (Statement::Assign(n, subs, v), Statement::Assign(m, over, w)) => m@ == target_of(map, n@)
            && over.deep_view() == all_rewritten(p, map, subs.deep_view()) && w.deep_view()
            == rewritten(p, map, v.deep_view()),
        (Statement::TupleAssign(t, v), Statement::TupleAssign(u, w)) => u@.len() == t@.len() && (
        forall|i: int| 0 <= i < t@.len() ==> slot_restated(map, #[trigger] t@[i], u@[i]))
            && w.deep_view() == rewritten(p, map, v.deep_view()),
        (Statement::Assert(c, m), Statement::Assert(d, n)) => d.deep_view() == rewritten(
            p,
            map,
            c.deep_view(),
        ) && n@ == m@,
        (Statement::Call(n, args), Statement::Call(m, over)) => m@ == class_called(p, n@)
            && over.deep_view() == all_rewritten(p, map, args.deep_view()),
        (Statement::If(s), Statement::If(t)) => t@.len() == s@.len() && branches_restated(
            p,
            map,
            s@,
            t@,
            s@.len(),
        ),
        (Statement::When(s), Statement::When(t)) => t@.len() == s@.len() && branches_restated(
            p,
            map,
            s@,
            t@,
            s@.len(),
        ),
        (Statement::For(v, r, s), Statement::For(w, q, t)) => w@ == v@ && q.deep_view()
            == rewritten_if(p, map, r.deep_view()) && t@.len() == s@.len() && all_restated(
            p,
            map,
            s@,
            t@,
            s@.len(),
        ),
        (Statement::While(c, s), Statement::While(d, t)) => d.deep_view() == rewritten(
            p,
            map,
            c.deep_view(),
        ) && t@.len() == s@.len() && all_restated(p, map, s@, t@, s@.len()),
        (Statement::Break, Statement::Break) => true,
        (Statement::Return, Statement::Return) => true,
        _ => false,
    }
}

/// Whether a branch is another as it is carried along.
pub open spec fn branch_restated(
    p: StandpointV,
    map: Map<Seq<char>, ExprV>,
    a: StatementBranch,
    b: StatementBranch,
) -> bool
    decreases a, 0nat,
{
    b.condition.deep_view() == rewritten_if(p, map, a.condition.deep_view()) && b.body@.len()
        == a.body@.len() && all_restated(p, map, a.body@, b.body@, a.body@.len())
}

/// Whether the first `n` statements of one body are those of another as it is
/// carried along.
pub open spec fn all_restated(
    p: StandpointV,
    map: Map<Seq<char>, ExprV>,
    a: Seq<Statement>,
    b: Seq<Statement>,
    n: nat,
) -> bool
    decreases a, n,
{
    n <= a.len() && n <= b.len() && (n == 0 || (all_restated(p, map, a, b, (n - 1) as nat)
        && restated(p, map, a[n - 1], b[n - 1])))
}

/// Whether the first `n` branches of one choice are those of another as it is
/// carried along.
pub open spec fn branches_restated(
    p: StandpointV,
    map: Map<Seq<char>, ExprV>,
    a: Seq<StatementBranch>,
    b: Seq<StatementBranch>,
    n: nat,
) -> bool
    decreases a, n,
{
    n <= a.len() && n <= b.len() && (n == 0 || (branches_restated(p, map, a, b, (n - 1) as nat)
        && branch_restated(p, map, a[n - 1], b[n - 1])))
}

fn rewrite(p: &Standpoint, map: &Table<Expr>, expr: &Expr) -> (r: Expr)
    ensures
        r.deep_view() == rewritten(p.deep_view(), map.deep_view(), expr.deep_view()),
{
    let named = qualified_in(p, expr);
    substitute_refs(&named, map)
}

fn rewrite_all(p: &Standpoint, map: &Table<Expr>, list: &Vec<Expr>) -> (r: Vec<Expr>)
    ensures
        r.deep_view() == all_rewritten(p.deep_view(), map.deep_view(), list.deep_view()),
{
    let ghost lv = list.deep_view();
    let ghost pv = p.deep_view();
    let ghost mv = map.deep_view();
    assert(lv.len() == list@.len());
    let mut out: Vec<Expr> = Vec::new();
    let mut i: usize = 0;
    while i < list.len()
        invariant
            i <= list.len(),
            lv == list.deep_view(),
            pv == p.deep_view(),
            mv == map.deep_view(),
            out.len() == i,
            forall|k: int|
                0 <= k < i ==> (#[trigger] out@[k]).deep_view() == rewritten(pv, mv, lv[k]),
        decreases list.len() - i,
    {
        assert(lv[i as int] == list@[i as int].deep_view());
        out.push(rewrite(p, map, &list[i]));
        i = i + 1;
    }
    assert(out.deep_view() =~= all_rewritten(pv, mv, lv));
    out
}

fn rewrite_if(p: &Standpoint, map: &Table<Expr>, value: &Option<Expr>) -> (r: Option<Expr>)
    ensures
        r.deep_view() == rewritten_if(p.deep_view(), map.deep_view(), value.deep_view()),
{
    match value {
        Some(value) => Some(rewrite(p, map, value)),
        None => None,
    }
}

fn find_target(map: &Table<Expr>, name: &String) -> (r: String)
    ensures
        r@ == target_of(map.deep_view(), name@),
{
    match map.get(name.as_str()) {
        Some(instead) => match instead {
            Expr::Ref(instead) => instead.clone(),
            _ => name.clone(),
        },
        None => name.clone(),
    }
}

fn restate_slots(map: &Table<Expr>, list: &Vec<Option<(String, Vec<Expr>)>>) -> (r: Vec<
    Option<(String, Vec<Expr>)>,
>)
    ensures
        r@.len() == list@.len(),
        forall|i: int|
            0 <= i < list@.len() ==> slot_restated(map.deep_view(), #[trigger] list@[i], r@[i]),
{
    let mut out: Vec<Option<(String, Vec<Expr>)>> = Vec::new();
    let mut i: usize = 0;
    while i < list.len()
        invariant
            i <= list.len(),
            out.len() == i,
            forall|k: int|
                0 <= k < i ==> slot_restated(map.deep_view(), #[trigger] list@[k], out@[k]),
        decreases list.len() - i,
    {
        let slot = match &list[i] {
            Some(held) => Some((find_target(map, &held.0), copy_all(&held.1))),
            None => None,
        };
        out.push(slot);
        i = i + 1;
    }
    out
}

fn name_class(p: &Standpoint, name: &str) -> (r: String)
    ensures
        r@ == class_called(p.deep_view(), name@),
{
    match lookup(p.registry, name, p.scope, p.imports) {
        Some(class) => class.name.clone(),
        None => name.to_owned(),
    }
}

fn restate(p: &Standpoint, map: &Table<Expr>, item: &Statement) -> (r: Statement)
    ensures
        restated(p.deep_view(), map.deep_view(), *item, r),
    decreases *item, 0nat,
{
    match item {
        Statement::Assign(name, subscripts, value) => Statement::Assign(
            find_target(map, name),
            rewrite_all(p, map, subscripts),
            rewrite(p, map, value),
        ),
        Statement::TupleAssign(targets, value) => Statement::TupleAssign(
            restate_slots(map, targets),
            rewrite(p, map, value),
        ),
        Statement::Assert(condition, message) => Statement::Assert(
            rewrite(p, map, condition),
            message.clone(),
        ),
        Statement::Call(name, args) => Statement::Call(
            name_class(p, name.as_str()),
            rewrite_all(p, map, args),
        ),
        Statement::If(taken) => Statement::If(rebranch(p, map, taken)),
        Statement::When(taken) => Statement::When(rebranch(p, map, taken)),
        Statement::For(variable, range, body) => Statement::For(
            variable.clone(),
            rewrite_if(p, map, range),
            qualified_calls(p, map, body),
        ),
        Statement::While(condition, body) => Statement::While(
            rewrite(p, map, condition),
            qualified_calls(p, map, body),
        ),
        Statement::Break => Statement::Break,
        Statement::Return => Statement::Return,
    }
}

fn restate_branch(p: &Standpoint, map: &Table<Expr>, item: &StatementBranch) -> (r: StatementBranch)
    ensures
        branch_restated(p.deep_view(), map.deep_view(), *item, r),
    decreases *item, 0nat,
{
    StatementBranch {
        condition: rewrite_if(p, map, &item.condition),
        body: qualified_calls(p, map, &item.body),
    }
}

proof fn lemma_restated_grows(
    p: StandpointV,
    map: Map<Seq<char>, ExprV>,
    a: Seq<Statement>,
    b: Seq<Statement>,
    last: Statement,
    n: nat,
)
    requires
        all_restated(p, map, a, b, n),
    ensures
        all_restated(p, map, a, b.push(last), n),
    decreases n,
{
    if n > 0 {
        lemma_restated_grows(p, map, a, b, last, (n - 1) as nat);
        assert(b.push(last)[n - 1] == b[n - 1]);
    }
}

proof fn lemma_branches_grow(
    p: StandpointV,
    map: Map<Seq<char>, ExprV>,
    a: Seq<StatementBranch>,
    b: Seq<StatementBranch>,
    last: StatementBranch,
    n: nat,
)
    requires
        branches_restated(p, map, a, b, n),
    ensures
        branches_restated(p, map, a, b.push(last), n),
    decreases n,
{
    if n > 0 {
        lemma_branches_grow(p, map, a, b, last, (n - 1) as nat);
        assert(b.push(last)[n - 1] == b[n - 1]);
    }
}

/// The branches of an `if` or a `when`, rebuilt through the same rewrites.
fn rebranch(p: &Standpoint, map: &Table<Expr>, items: &Vec<StatementBranch>) -> (r: Vec<
    StatementBranch,
>)
    ensures
        r@.len() == items@.len(),
        branches_restated(p.deep_view(), map.deep_view(), items@, r@, items@.len()),
    decreases items@, items@.len() + 1,
{
    let mut out: Vec<StatementBranch> = Vec::new();
    let mut i: usize = 0;
    while i < items.len()
        invariant
            i <= items.len(),
            out.len() == i,
            branches_restated(p.deep_view(), map.deep_view(), items@, out@, i as nat),
        decreases items.len() - i,
    {
        let ghost before = out@;
        let branch = restate_branch(p, map, &items[i]);
        proof {
            lemma_branches_grow(p.deep_view(), map.deep_view(), items@, before, branch, i as nat);
        }
        out.push(branch);
        i = i + 1;
    }
    out
}

/// The same statements with every call to a user function named the way the
/// registry knows it, and every member of a record written as an element.
pub fn qualified_calls(p: &Standpoint, map: &Table<Expr>, items: &Vec<Statement>) -> (r: Vec<
    Statement,
>)
    ensures
        r@.len() == items@.len(),
        all_restated(p.deep_view(), map.deep_view(), items@, r@, items@.len()),
    decreases items@, items@.len() + 1,
{
    let mut out: Vec<Statement> = Vec::new();
    let mut i: usize = 0;
    while i < items.len()
        invariant
            i <= items.len(),
            out.len() == i,
            all_restated(p.deep_view(), map.deep_view(), items@, out@, i as nat),
        decreases items.len() - i,
    {
        let ghost before = out@;
        let step = restate(p, map, &items[i]);
        proof {
            lemma_restated_grows(p.deep_view(), map.deep_view(), items@, before, step, i as nat);
        }
        out.push(step);
        i = i + 1;
    }
    out
}

/// Whether a record is of plain numbers: one holding an array or another record
/// needs more than a name and a subscript.
pub open spec fn is_plain_record(of: ClassDef) -> bool {
    of.kind == ClassKind::Record && of.components@.len() > 0 && (forall|i: int|
        0 <= i < of.components@.len() ==> (#[trigger] of.components@[i]).dimensions@.len() == 0
            && is_primitive_name(of.components@[i].of_type@))
}

/// The plain record a declaration is of.
pub open spec fn plain_record_of(p: StandpointV, c: ComponentV) -> Option<ClassDef> {
    match meaning(p.classes, c.of_type, p.scope, p.imports) {
        Some(of) => if is_plain_record(of) {
            Some(of)
        } else {
            None
        },
        None => None,
    }
}

/// The first `n` members of a record under their names as elements, put over
/// what was there.
pub open spec fn members_renamed(
    map: Map<Seq<char>, ExprV>,
    name: Seq<char>,
    members: Seq<Seq<char>>,
    n: nat,
) -> Map<Seq<char>, ExprV>
    decreases n,
{
    if n == 0 || n > members.len() {
        map
    } else {
        members_renamed(map, name, members, (n - 1) as nat).insert(
            name + "."@ + members[n - 1],
            ExprV::Ref(name + "["@ + digits(n) + "]"@),
        )
    }
}

/// What the records among the first `n` declarations have their members named
/// instead.
pub open spec fn renamed_by(p: StandpointV, list: Seq<ComponentV>, n: nat) -> Map<
    Seq<char>,
    ExprV,
>
    decreases n,
{
    if n == 0 || n > list.len() {
        Map::empty()
    } else {
        let before = renamed_by(p, list, (n - 1) as nat);
        match plain_record_of(p, list[n - 1]) {
            Some(of) => members_renamed(
                before,
                list[n - 1].name,
                fields_written(of),
                fields_written(of).len(),
            ),
            None => before,
        }
    }
}

/// A declaration with a record of plain numbers declared as an array of them.
pub open spec fn as_array(p: StandpointV, c: ComponentV) -> ComponentV {
    match plain_record_of(p, c) {
        Some(of) => ComponentV {
            of_type: "Real"@,
            dimensions: seq![ExprV::Number(nearest(of.components@.len()))],
            ..c
        },
        None => c,
    }
}

fn is_plain(of: &ClassDef) -> (r: bool)
    ensures
        r == is_plain_record(*of),
{
    if of.kind != ClassKind::Record || of.components.len() == 0 {
        return false;
    }
    let mut i: usize = 0;
    while i < of.components.len()
        invariant
            i <= of.components.len(),
            forall|k: int|
                0 <= k < i ==> (#[trigger] of.components@[k]).dimensions@.len() == 0
                    && is_primitive_name(of.components@[k].of_type@),
        decreases of.components.len() - i,
    {
        if of.components[i].dimensions.len() > 0 || !is_primitive(
            of.components[i].of_type.as_str(),
        ) {
            assert(!(of.components@[i as int].dimensions@.len() == 0 && is_primitive_name(
                of.components@[i as int].of_type@,
            )));
            return false;
        }
        i = i + 1;
    }
    true
}

fn rename_members(map: &mut Table<Expr>, name: &str, members: &Vec<String>)
    ensures
        final(map).deep_view() == members_renamed(
            old(map).deep_view(),
            name@,
            texts(members@),
            members@.len(),
        ),
{
    let ghost was = map.deep_view();
    let mut i: usize = 0;
    while i < members.len()
        invariant
            i <= members.len(),
            map.deep_view() == members_renamed(was, name@, texts(members@), i as nat),
        decreases members.len() - i,
    {
        assert(texts(members@)[i as int] == members@[i as int]@);
        let number = decimal(i as u64 + 1);
        let element = join4(name, "[", number.as_str(), "]");
        map.put(join3(name, ".", members[i].as_str()), make::name(element));
        i = i + 1;
    }
}

/// Every record a body deals in written as an array of its members.
///
/// A walk carries numbers under names, and an array is those names subscripted;
/// a record is the same thing under another spelling, so it is given that
/// spelling, in the order the record declared its members. What comes back is
/// what each member is called instead.
pub fn records_as_arrays(p: &Standpoint, list: &mut Vec<Component>) -> (r: Table<Expr>)
    ensures
        r.deep_view() == renamed_by(p.deep_view(), old(list).deep_view(), old(list)@.len()),
        final(list).deep_view() == Seq::new(
            old(list)@.len(),
            |i: int| as_array(p.deep_view(), old(list).deep_view()[i]),
        ),
{
    let ghost all = list.deep_view();
    let ghost pv = p.deep_view();
    let ghost whole = Seq::new(all.len(), |i: int| as_array(pv, all[i]));
    assert(all.len() == list@.len());
    let mut renamed: Table<Expr> = Table::new();
    let mut i: usize = 0;
    while i < list.len()
        invariant
            i <= list.len(),
            pv == p.deep_view(),
            all.len() == list@.len(),
            whole == Seq::new(all.len(), |i: int| as_array(pv, all[i])),
            forall|k: int| 0 <= k < i ==> (#[trigger] list@[k]).deep_view() == whole[k],
            forall|k: int| i <= k < list@.len() ==> (#[trigger] list@[k]).deep_view() == all[k],
            renamed.deep_view() == renamed_by(pv, all, i as nat),
        decreases list.len() - i,
    {
        assert(list@[i as int].deep_view() == all[i as int]);
        let mut held = list[i].clone();
        if let Some(of) = lookup(p.registry, held.of_type.as_str(), p.scope, p.imports) {
            if is_plain(of) {
                let members = record_fields(of);
                assert(texts(members@).len() == members@.len());
                rename_members(&mut renamed, held.name.as_str(), &members);
                held.of_type = "Real".to_owned();
                let mut dimensions: Vec<Expr> = Vec::new();
                dimensions.push(make::number(from_count(members.len() as u64)));
                assert(dimensions.deep_view() =~= seq![
                    ExprV::Number(nearest(of.components@.len())),
                ]);
                held.dimensions = dimensions;
            }
        }
        assert(held.deep_view() == as_array(pv, all[i as int]));
        list.set(i, held);
        i = i + 1;
    }
    assert(list.deep_view() =~= whole);
    renamed
}

/// A body carried along with a model for the run to walk.
#[derive(Debug)]
pub struct Program<'a> {
    /// The function it is the body of.
    pub class: &'a ClassDef,
    /// What the body declares, what it inherits among it.
    pub components: Vec<Component>,
    pub algorithm: Vec<Statement>,
}

/// Where the names of a body are read.
pub open spec fn inside_of<'a>(
    classes: Seq<&'a ClassDef>,
    copies: Seq<&'a ClassDef>,
    class: ClassDef,
) -> StandpointV<'a> {
    StandpointV { classes, copies, scope: class.name@, imports: class.imports.deep_view() }
}

/// A declaration with the constants of other packages put into what it says.
pub open spec fn put_in(g: UnfoldingV, class: ClassDef, c: ComponentV) -> ComponentV {
    ComponentV {
        binding: match c.binding {
            Some(e) => Some((g.h.put)(e, class.name@, class.imports.deep_view())),
            None => None,
        },
        start: match c.start {
            Some(e) => Some((g.h.put)(e, class.name@, class.imports.deep_view())),
            None => None,
        },
        ..c
    }
}

/// What a carried body declares before its records are written as arrays.
pub open spec fn declared_there(g: UnfoldingV, class: ClassDef) -> Seq<ComponentV> {
    let held = gathered_over(g.classes, class, Seq::empty(), 0);
    Seq::new(held.len(), |i: int| put_in(g, class, held[i]))
}

/// Whether a body is carried along as it should be.
pub open spec fn is_carried_along<'a>(
    g: UnfoldingV<'a>,
    copies: Seq<&'a ClassDef>,
    class: ClassDef,
    program: Program,
) -> bool {
    *program.class == class && is_body_of(
        g,
        copies,
        class,
        program.components.deep_view(),
        program.algorithm@,
    )
}

/// Whether declarations and statements are the body of a class as the run
/// walks it.
pub open spec fn is_body_of<'a>(
    g: UnfoldingV<'a>,
    copies: Seq<&'a ClassDef>,
    class: ClassDef,
    components: Seq<ComponentV>,
    algorithm: Seq<Statement>,
) -> bool {
    let p = inside_of(g.classes, copies, class);
    let held = declared_there(g, class);
    &&& components == Seq::new(held.len(), |i: int| as_array(p, held[i]))
    &&& algorithm.len() == class.algorithm@.len()
    &&& all_restated(
        p,
        renamed_by(p, held, held.len()),
        class.algorithm@,
        algorithm,
        class.algorithm@.len(),
    )
}

fn put_constants<
    A1: Fn(&ClassDef, &Vec<Expr>, &Vec<Vec<i64>>, usize) -> Result<Answer, String>,
    A2: Fn(&Expr, &str, &Vec<(String, String)>) -> Expr,
    A3: Fn(&ClassDef) -> bool,
    A4: Fn(&Expr) -> bool,
    A5: Fn(&str) -> bool,
    A6: Fn(&str) -> bool,
    A7: Fn(&Expr) -> String,
    A8: Fn(&str, &Vec<u64>) -> Option<u64>,
    A9: Fn(&str) -> bool,
    B1: Fn(&ClassDef, &Vec<Expr>, &Vec<Vec<i64>>, usize) -> Result<Inlined, String>,
    W: Fn(Arith, Number, Number) -> Number,
    O: Fn(&str, &Vec<Number>) -> Option<Vec<Number>>,
    N: Fn(&str) -> String,
>(
    h: &Inlining<A1, A2, A3, A4, A5, A6, A7, A8, A9, B1>,
    sums: &Sums<W, O, N>,
    q: &Unfolding,
    class: &ClassDef,
) -> (r: Vec<Component>)
    requires
        inlining_true(*h),
        is_steady(*sums),
    ensures
        r.deep_view() == declared_there(unfolding_of(*h, *sums, *q), *class),
{
    let ghost g = unfolding_of(*h, *sums, *q);
    let held = with_inherited_components(q.registry, class);
    let ghost hv = held.deep_view();
    let ghost whole = declared_there(g, *class);
    assert(hv.len() == held@.len());
    let mut out: Vec<Component> = Vec::new();
    let mut i: usize = 0;
    while i < held.len()
        invariant
            i <= held.len(),
            inlining_true(*h),
            is_steady(*sums),
            g == unfolding_of(*h, *sums, *q),
            hv == held.deep_view(),
            hv == gathered_over(g.classes, *class, Seq::empty(), 0),
            whole == declared_there(g, *class),
            out.len() == i,
            forall|k: int| 0 <= k < i ==> (#[trigger] out@[k]).deep_view() == whole[k],
        decreases held.len() - i,
    {
        assert(hv[i as int] == held@[i as int].deep_view());
        let mut one = held[i].clone();
        let binding = match &one.binding {
            Some(e) => Some(h.do_put(e, class.name.as_str(), &class.imports)),
            None => None,
        };
        let start = match &one.start {
            Some(e) => Some(h.do_put(e, class.name.as_str(), &class.imports)),
            None => None,
        };
        one.binding = binding;
        one.start = start;
        assert(one.deep_view() == put_in(g, *class, hv[i as int]));
        out.push(one);
        i = i + 1;
    }
    assert(out.deep_view() =~= whole);
    out
}

fn carry<'q, 'a, 
    A1: Fn(&ClassDef, &Vec<Expr>, &Vec<Vec<i64>>, usize) -> Result<Answer, String>,
    A2: Fn(&Expr, &str, &Vec<(String, String)>) -> Expr,
    A3: Fn(&ClassDef) -> bool,
    A4: Fn(&Expr) -> bool,
    A5: Fn(&str) -> bool,
    A6: Fn(&str) -> bool,
    A7: Fn(&Expr) -> String,
    A8: Fn(&str, &Vec<u64>) -> Option<u64>,
    A9: Fn(&str) -> bool,
    B1: Fn(&ClassDef, &Vec<Expr>, &Vec<Vec<i64>>, usize) -> Result<Inlined, String>,
    W: Fn(Arith, Number, Number) -> Number,
    O: Fn(&str, &Vec<Number>) -> Option<Vec<Number>>,
    N: Fn(&str) -> String,
>(
    h: &Inlining<A1, A2, A3, A4, A5, A6, A7, A8, A9, B1>,
    sums: &Sums<W, O, N>,
    q: &Unfolding,
    copies: &Registry<'a>,
    class: &'a ClassDef,
) -> (r: Program<'a>)
    requires
        inlining_true(*h),
        is_steady(*sums),
    ensures
        is_carried_along(unfolding_of(*h, *sums, *q), copies@, *class, r),
{
    let ghost g = unfolding_of(*h, *sums, *q);
    let mut components = put_constants(h, sums, q, class);
    let ghost held = components.deep_view();
    assert(held.len() == components@.len());
    let p = Standpoint {
        registry: q.registry,
        copies,
        scope: class.name.as_str(),
        imports: &class.imports,
    };
    assert(p.deep_view() == inside_of(g.classes, copies@, *class));
    let renamed = records_as_arrays(&p, &mut components);
    let algorithm = qualified_calls(&p, &renamed, &class.algorithm);
    Program { class, components, algorithm }
}

/// The class a carried name is of: one at hand, or a copy made for the model.
pub open spec fn carried_class(classes: Seq<&ClassDef>, copies: Seq<&ClassDef>, name: Seq<char>) -> Option<
    ClassDef,
> {
    match class_named(classes, name) {
        Some(class) => Some(class),
        None => class_named(copies, name),
    }
}

/// Whether a class of that name is among those.
pub open spec fn is_among(list: Seq<ClassDef>, name: Seq<char>) -> bool {
    exists|i: int| 0 <= i < list.len() && (#[trigger] list[i]).name@ == name
}

/// The classes whose bodies are carried for the wanted names, the last wanted
/// first: each is carried once, and what its body calls is wanted in turn. A
/// body that the run cannot walk is refused.
pub open spec fn carried_for<'a>(
    g: UnfoldingV<'a>,
    copies: Seq<&'a ClassDef>,
    wanted: Seq<Seq<char>>,
    out: Seq<ClassDef>,
    rounds: nat,
) -> Result<Seq<ClassDef>, Seq<char>>
    decreases rounds,
{
    if rounds == 0 || wanted.len() == 0 {
        Ok(out)
    } else {
        let left = wanted.drop_last();
        let next = (rounds - 1) as nat;
        if is_among(out, wanted.last()) {
            carried_for(g, copies, left, out, next)
        } else {
            match carried_class(g.classes, copies, wanted.last()) {
                None => carried_for(g, copies, left, out, next),
                Some(class) => match walk_trouble(g, class) {
                    Some(why) => Err(why),
                    None => carried_for(
                        g,
                        copies,
                        left + statements_calls(
                            inside_of(g.classes, copies, class),
                            class.algorithm@,
                            class.algorithm@.len(),
                        ),
                        out.push(class),
                        next,
                    ),
                },
            }
        }
    }
}

/// What an action taken at an event asks for.
pub open spec fn action_asks(action: WhenActionV) -> Seq<ExprV> {
    match action {
        WhenActionV::Assign(_, value) => seq![value],
        WhenActionV::Reinit(_, value) => seq![value],
        WhenActionV::TupleAssign(_, value) => seq![value],
        WhenActionV::Call(name, args) => seq![ExprV::Call(name, args)],
        WhenActionV::Assert(condition, _) => seq![condition],
        WhenActionV::Terminate(_) => Seq::empty(),
        WhenActionV::Loop(_) => Seq::empty(),
        WhenActionV::Choice(_) => Seq::empty(),
    }
}

pub open spec fn actions_ask(list: Seq<WhenActionV>, n: nat) -> Seq<ExprV>
    decreases n,
{
    if n == 0 || n > list.len() {
        Seq::empty()
    } else {
        actions_ask(list, (n - 1) as nat) + action_asks(list[n - 1])
    }
}

pub open spec fn branches_ask(list: Seq<WhenBranchV>, n: nat) -> Seq<ExprV>
    decreases n,
{
    if n == 0 || n > list.len() {
        Seq::empty()
    } else {
        branches_ask(list, (n - 1) as nat).push(list[n - 1].condition) + actions_ask(
            list[n - 1].actions,
            list[n - 1].actions.len(),
        )
    }
}

pub open spec fn clauses_ask(list: Seq<WhenClauseV>, n: nat) -> Seq<ExprV>
    decreases n,
{
    if n == 0 || n > list.len() {
        Seq::empty()
    } else {
        clauses_ask(list, (n - 1) as nat) + branches_ask(
            list[n - 1].branches,
            list[n - 1].branches.len(),
        )
    }
}

pub open spec fn equations_ask(list: Seq<EquationV>, n: nat) -> Seq<ExprV>
    decreases n,
{
    if n == 0 || n > list.len() {
        Seq::empty()
    } else {
        equations_ask(list, (n - 1) as nat).push(list[n - 1].lhs).push(
            list[n - 1].rhs,
        )
    }
}

pub open spec fn checks_ask(list: Seq<(ExprV, Seq<char>)>, n: nat) -> Seq<ExprV>
    decreases n,
{
    if n == 0 || n > list.len() {
        Seq::empty()
    } else {
        checks_ask(list, (n - 1) as nat).push(list[n - 1].0)
    }
}

/// Everything a flat model works out, where a call may stand in it.
pub open spec fn model_asks(model: ModelV) -> Seq<ExprV> {
    equations_ask(model.equations, model.equations.len()) + equations_ask(
        model.initial_equations,
        model.initial_equations.len(),
    ) + checks_ask(model.asserts, model.asserts.len()) + clauses_ask(
        model.when_clauses,
        model.when_clauses.len(),
    )
}

fn ask_action(action: &WhenAction, out: &mut Vec<Expr>)
    ensures
        final(out).deep_view() == old(out).deep_view() + action_asks(action.deep_view()),
{
    let ghost was = out.deep_view();
    match action {
        WhenAction::Assign(_, value) => out.push(value.clone()),
        WhenAction::Reinit(_, value) => out.push(value.clone()),
        WhenAction::TupleAssign(_, value) => out.push(value.clone()),
        WhenAction::Call(name, args) => out.push(make::call(name.as_str(), copy_all(args))),
        WhenAction::Assert(condition, _) => out.push(condition.clone()),
        WhenAction::Terminate(_) => {},
        WhenAction::Loop(_) => {},
        WhenAction::Choice(_) => {},
    }
    assert(out.deep_view() =~= was + action_asks(action.deep_view()));
}

fn ask_actions(list: &Vec<WhenAction>, out: &mut Vec<Expr>)
    ensures
        final(out).deep_view() == old(out).deep_view() + actions_ask(list.deep_view(), list@.len()),
{
    let ghost was = out.deep_view();
    let mut i: usize = 0;
    assert(out.deep_view() =~= was + actions_ask(list.deep_view(), 0));
    while i < list.len()
        invariant
            i <= list.len(),
            out.deep_view() == was + actions_ask(list.deep_view(), i as nat),
        decreases list.len() - i,
    {
        assert(list.deep_view()[i as int] == list@[i as int].deep_view());
        ask_action(&list[i], out);
        assert(out.deep_view() =~= was + actions_ask(list.deep_view(), (i + 1) as nat));
        i = i + 1;
    }
}

fn ask_branches(list: &Vec<WhenBranch>, out: &mut Vec<Expr>)
    ensures
        final(out).deep_view() == old(out).deep_view() + branches_ask(list.deep_view(), list@.len()),
{
    let ghost was = out.deep_view();
    let mut i: usize = 0;
    assert(out.deep_view() =~= was + branches_ask(list.deep_view(), 0));
    while i < list.len()
        invariant
            i <= list.len(),
            out.deep_view() == was + branches_ask(list.deep_view(), i as nat),
        decreases list.len() - i,
    {
        assert(list.deep_view()[i as int] == list@[i as int].deep_view());
        let ghost before = out.deep_view();
        out.push(list[i].condition.clone());
        assert(out.deep_view() =~= before.push(list@[i as int].condition.deep_view()));
        ask_actions(&list[i].actions, out);
        assert(out.deep_view() =~= was + branches_ask(list.deep_view(), (i + 1) as nat));
        i = i + 1;
    }
}

fn ask_clauses(list: &Vec<WhenClause>, out: &mut Vec<Expr>)
    ensures
        final(out).deep_view() == old(out).deep_view() + clauses_ask(list.deep_view(), list@.len()),
{
    let ghost was = out.deep_view();
    let mut i: usize = 0;
    assert(out.deep_view() =~= was + clauses_ask(list.deep_view(), 0));
    while i < list.len()
        invariant
            i <= list.len(),
            out.deep_view() == was + clauses_ask(list.deep_view(), i as nat),
        decreases list.len() - i,
    {
        assert(list.deep_view()[i as int] == list@[i as int].deep_view());
        ask_branches(&list[i].branches, out);
        assert(out.deep_view() =~= was + clauses_ask(list.deep_view(), (i + 1) as nat));
        i = i + 1;
    }
}

fn ask_equations(list: &Vec<EquationItem>, out: &mut Vec<Expr>)
    ensures
        final(out).deep_view() == old(out).deep_view() + equations_ask(list.deep_view(), list@.len()),
{
    let ghost was = out.deep_view();
    let mut i: usize = 0;
    assert(out.deep_view() =~= was + equations_ask(list.deep_view(), 0));
    while i < list.len()
        invariant
            i <= list.len(),
            out.deep_view() == was + equations_ask(list.deep_view(), i as nat),
        decreases list.len() - i,
    {
        assert(list.deep_view()[i as int] == list@[i as int].deep_view());
        let ghost before = out.deep_view();
        out.push(list[i].lhs.clone());
        out.push(list[i].rhs.clone());
        assert(out.deep_view() =~= before.push(list@[i as int].lhs.deep_view()).push(
            list@[i as int].rhs.deep_view(),
        ));
        assert(out.deep_view() =~= was + equations_ask(list.deep_view(), (i + 1) as nat));
        i = i + 1;
    }
}

fn ask_checks(list: &Vec<(Expr, String)>, out: &mut Vec<Expr>)
    ensures
        final(out).deep_view() == old(out).deep_view() + checks_ask(list.deep_view(), list@.len()),
{
    let ghost was = out.deep_view();
    let mut i: usize = 0;
    assert(out.deep_view() =~= was + checks_ask(list.deep_view(), 0));
    while i < list.len()
        invariant
            i <= list.len(),
            out.deep_view() == was + checks_ask(list.deep_view(), i as nat),
        decreases list.len() - i,
    {
        assert(list.deep_view()[i as int] == list@[i as int].deep_view());
        let ghost before = out.deep_view();
        out.push(list[i].0.clone());
        assert(out.deep_view() =~= before.push(list@[i as int].0.deep_view()));
        assert(out.deep_view() =~= was + checks_ask(list.deep_view(), (i + 1) as nat));
        i = i + 1;
    }
}

fn ask_model(model: &Model) -> (r: Vec<Expr>)
    ensures
        r.deep_view() == model_asks(model.deep_view()),
{
    let mut out: Vec<Expr> = Vec::new();
    assert(out.deep_view() =~= Seq::empty());
    ask_equations(&model.equations, &mut out);
    ask_equations(&model.initial_equations, &mut out);
    ask_checks(&model.asserts, &mut out);
    ask_clauses(&model.when_clauses, &mut out);
    assert(out.deep_view() =~= model_asks(model.deep_view()));
    out
}

fn is_there(list: &Vec<Program>, name: &str, Ghost(classes): Ghost<Seq<ClassDef>>) -> (r: bool)
    requires
        list@.len() == classes.len(),
        forall|i: int| 0 <= i < classes.len() ==> *(#[trigger] list@[i]).class == classes[i],
    ensures
        r == is_among(classes, name@),
{
    let mut i: usize = 0;
    while i < list.len()
        invariant
            i <= list.len(),
            list@.len() == classes.len(),
            forall|i: int| 0 <= i < classes.len() ==> *(#[trigger] list@[i]).class == classes[i],
            forall|k: int| 0 <= k < i ==> (#[trigger] classes[k]).name@ != name@,
        decreases list.len() - i,
    {
        assert(*list@[i as int].class == classes[i as int]);
        if same(list[i].class.name.as_str(), name) {
            assert(classes[i as int].name@ == name@);
            return true;
        }
        i = i + 1;
    }
    false
}

/// The names a model that is read from no scope in particular calls: what it
/// calls is named the way the registry knows it.
pub open spec fn model_wants<'a>(
    classes: Seq<&'a ClassDef>,
    copies: Seq<&'a ClassDef>,
    model: ModelV,
) -> Seq<Seq<char>> {
    calls_of(
        StandpointV { classes, copies, scope: ""@, imports: Seq::empty() },
        model_asks(model),
        model_asks(model).len(),
    )
}

/// The functions a flat model still calls, and everything they call in turn.
///
/// A call standing in a flat model is one nothing could inline, so its body has
/// to travel with the model for the run to walk. What such a body may hold is
/// narrower than what an inlined one may, and what is wider is refused here
/// rather than at the first step of a simulation.
pub fn programs_used<'q, 'a, 
    A1: Fn(&ClassDef, &Vec<Expr>, &Vec<Vec<i64>>, usize) -> Result<Answer, String>,
    A2: Fn(&Expr, &str, &Vec<(String, String)>) -> Expr,
    A3: Fn(&ClassDef) -> bool,
    A4: Fn(&Expr) -> bool,
    A5: Fn(&str) -> bool,
    A6: Fn(&str) -> bool,
    A7: Fn(&Expr) -> String,
    A8: Fn(&str, &Vec<u64>) -> Option<u64>,
    A9: Fn(&str) -> bool,
    B1: Fn(&ClassDef, &Vec<Expr>, &Vec<Vec<i64>>, usize) -> Result<Inlined, String>,
    W: Fn(Arith, Number, Number) -> Number,
    O: Fn(&str, &Vec<Number>) -> Option<Vec<Number>>,
    N: Fn(&str) -> String,
>(
    h: &Inlining<A1, A2, A3, A4, A5, A6, A7, A8, A9, B1>,
    sums: &Sums<W, O, N>,
    q: &Unfolding<'q, 'a>,
    copies: &Registry<'a>,
    model: &Model,
) -> (r: Result<Vec<Program<'a>>, String>)
    requires
        inlining_true(*h),
        is_steady(*sums),
    ensures
        match (r, carried_for(
            unfolding_of(*h, *sums, *q),
            copies@,
            model_wants(q.registry@, copies@, model.deep_view()),
            Seq::empty(),
            ROUNDS as nat,
        )) {
            (Ok(made), Ok(meant)) => made@.len() == meant.len() && (forall|i: int|
                0 <= i < meant.len() ==> is_carried_along(
                    unfolding_of(*h, *sums, *q),
                    copies@,
                    meant[i],
                    #[trigger] made@[i],
                )),
            (Err(why), Err(said)) => why@ == said,
            _ => false,
        },
{
    let ghost g = unfolding_of(*h, *sums, *q);
    let none: Vec<(String, String)> = Vec::new();
    assert(none.deep_view() =~= Seq::empty());
    let outside = Standpoint { registry: q.registry, copies, scope: "", imports: &none };
    let asked = ask_model(model);
    let mut wanted: Vec<String> = Vec::new();
    assert(texts(wanted@) =~= Seq::empty());
    gather_all(&outside, &asked, &mut wanted);
    assert(texts(wanted@) =~= model_wants(q.registry@, copies@, model.deep_view()));
    let mut out: Vec<Program<'a>> = Vec::new();
    let ghost mut classes: Seq<ClassDef> = Seq::empty();
    let mut rounds: u64 = ROUNDS;
    while rounds > 0 && wanted.len() > 0
        invariant
            inlining_true(*h),
            is_steady(*sums),
            g == unfolding_of(*h, *sums, *q),
            g.classes == q.registry@,
            carried_for(
                g,
                copies@,
                model_wants(q.registry@, copies@, model.deep_view()),
                Seq::empty(),
                ROUNDS as nat,
            ) == carried_for(g, copies@, texts(wanted@), classes, rounds as nat),
            out@.len() == classes.len(),
            forall|i: int|
                0 <= i < classes.len() ==> is_carried_along(
                    g,
                    copies@,
                    classes[i],
                    #[trigger] out@[i],
                ),
        decreases rounds,
    {
        let ghost all = texts(wanted@);
        let last: usize = wanted.len() - 1;
        let name = wanted.remove(last);
        assert(texts(wanted@) =~= all.drop_last());
        assert(all.last() == name@);
        rounds = rounds - 1;
        if !is_there(&out, name.as_str(), Ghost(classes)) {
            let found = match find_class(q.registry, name.as_str()) {
                Some(class) => Some(class),
                None => find_class(copies, name.as_str()),
            };
            if let Some(class) = found {
                if let Some(why) = walkable(h, sums, q, class) {
                    return Err(why);
                }
                let program = carry(h, sums, q, copies, class);
                let inside = Standpoint {
                    registry: q.registry,
                    copies,
                    scope: class.name.as_str(),
                    imports: &class.imports,
                };
                assert(inside.deep_view() == inside_of(g.classes, copies@, *class));
                gather_calls_in_statements(&inside, &class.algorithm, &mut wanted);
                let ghost before = out@;
                out.push(program);
                proof {
                    classes = classes.push(*class);
                    assert forall|i: int| 0 <= i < classes.len() implies is_carried_along(
                        g,
                        copies@,
                        classes[i],
                        #[trigger] out@[i],
                    ) by {
                        if i < before.len() {
                            assert(out@[i] == before[i]);
                        }
                    }
                }
            }
        }
    }
    Ok(out)
}

/// No two of the bodies carried with a model are of functions of one name.
pub proof fn law_a_body_is_carried_once<'a>(
    g: UnfoldingV<'a>,
    copies: Seq<&'a ClassDef>,
    wanted: Seq<Seq<char>>,
    out: Seq<ClassDef>,
    rounds: nat,
)
    requires
        forall|i: int, j: int|
            0 <= i < j < out.len() ==> (#[trigger] out[i]).name@ != (#[trigger] out[j]).name@,
        carried_for(g, copies, wanted, out, rounds) is Ok,
    ensures
        ({
            let all = carried_for(g, copies, wanted, out, rounds)->Ok_0;
            forall|i: int, j: int|
                0 <= i < j < all.len() ==> (#[trigger] all[i]).name@ != (#[trigger] all[j]).name@
        }),
    decreases rounds,
{
    if rounds == 0 || wanted.len() == 0 {
    } else {
        let left = wanted.drop_last();
        let next = (rounds - 1) as nat;
        let name = wanted.last();
        if is_among(out, name) {
            law_a_body_is_carried_once(g, copies, left, out, next);
        } else {
            match carried_class(g.classes, copies, name) {
                None => law_a_body_is_carried_once(g, copies, left, out, next),
                Some(class) => match walk_trouble(g, class) {
                    Some(_) => {},
                    None => {
                        lemma_named(g.classes, name);
                        lemma_named(copies, name);
                        let more = out.push(class);
                        assert forall|i: int, j: int| 0 <= i < j < more.len() implies (
                        #[trigger] more[i]).name@ != (#[trigger] more[j]).name@ by {
                            if j == out.len() {
                                assert(out[i].name@ != name);
                            } else {
                                assert(out[i].name@ != out[j].name@);
                            }
                        }
                        law_a_body_is_carried_once(
                            g,
                            copies,
                            left + statements_calls(
                                inside_of(g.classes, copies, class),
                                class.algorithm@,
                                class.algorithm@.len(),
                            ),
                            more,
                            next,
                        );
                    },
                },
            }
        }
    }
}

proof fn lemma_named(classes: Seq<&ClassDef>, name: Seq<char>)
    ensures
        class_named(classes, name) matches Some(class) ==> class.name@ == name,
    decreases classes.len(),
{
    if classes.len() > 0 && classes.last().name@ != name {
        lemma_named(classes.drop_last(), name);
    }
}

/// The values among a list of targets, the subscripts each is assigned at.
pub open spec fn targets_read(list: Seq<Option<(String, Vec<Expr>)>>, n: nat) -> Seq<ExprV>
    decreases n,
{
    if n == 0 || n > list.len() {
        Seq::empty()
    } else {
        targets_read(list, (n - 1) as nat) + (match list[n - 1] {
            Some(target) => target.1.deep_view(),
            None => Seq::empty(),
        })
    }
}

pub open spec fn read_if(value: Option<ExprV>) -> Seq<ExprV> {
    match value {
        Some(value) => seq![value],
        None => Seq::empty(),
    }
}

/// Every expression a statement holds, its branches and loops among them.
pub open spec fn statement_reads(item: Statement) -> Seq<ExprV>
    decreases item, 0nat,
{
    match item {
        Statement::Assign(_, subscripts, value) => subscripts.deep_view().push(value.deep_view()),
        Statement::TupleAssign(targets, value) => targets_read(targets@, targets@.len()).push(
            value.deep_view(),
        ),
        Statement::If(taken) => branches_read(taken@, taken@.len()),
        Statement::When(taken) => branches_read(taken@, taken@.len()),
        Statement::For(_, range, body) => read_if(range.deep_view()) + statements_read(
            body@,
            body@.len(),
        ),
        Statement::While(condition, body) => seq![condition.deep_view()] + statements_read(
            body@,
            body@.len(),
        ),
        Statement::Assert(condition, _) => seq![condition.deep_view()],
        Statement::Call(_, args) => args.deep_view(),
        Statement::Break => Seq::empty(),
        Statement::Return => Seq::empty(),
    }
}

/// Every expression the first `n` statements hold.
pub open spec fn statements_read(items: Seq<Statement>, n: nat) -> Seq<ExprV>
    decreases items, n,
{
    if n == 0 || n > items.len() {
        Seq::empty()
    } else {
        statements_read(items, (n - 1) as nat) + statement_reads(items[n - 1])
    }
}

/// Every expression a branch holds.
pub open spec fn branch_reads(item: StatementBranch) -> Seq<ExprV>
    decreases item, 0nat,
{
    read_if(item.condition.deep_view()) + statements_read(item.body@, item.body@.len())
}

/// Every expression the first `n` branches hold.
pub open spec fn branches_read(items: Seq<StatementBranch>, n: nat) -> Seq<ExprV>
    decreases items, n,
{
    if n == 0 || n > items.len() {
        Seq::empty()
    } else {
        branches_read(items, (n - 1) as nat) + branch_reads(items[n - 1])
    }
}

fn read_list(list: &Vec<Expr>, out: &mut Vec<Expr>)
    ensures
        final(out).deep_view() == old(out).deep_view() + list.deep_view(),
{
    let ghost was = out.deep_view();
    let mut more = copy_all(list);
    let ghost said = more.deep_view();
    out.append(&mut more);
    assert(out.deep_view() =~= was + said);
}

fn read_one(value: &Expr, out: &mut Vec<Expr>)
    ensures
        final(out).deep_view() == old(out).deep_view().push(value.deep_view()),
{
    let ghost was = out.deep_view();
    out.push(value.clone());
    assert(out.deep_view() =~= was.push(value.deep_view()));
}

fn read_any(value: &Option<Expr>, out: &mut Vec<Expr>)
    ensures
        final(out).deep_view() == old(out).deep_view() + read_if(value.deep_view()),
{
    match value {
        Some(value) => read_one(value, out),
        None => {},
    }
    assert(out.deep_view() =~= old(out).deep_view() + read_if(value.deep_view()));
}

fn read_targets(list: &Vec<Option<(String, Vec<Expr>)>>, out: &mut Vec<Expr>)
    ensures
        final(out).deep_view() == old(out).deep_view() + targets_read(list@, list@.len()),
{
    let ghost was = out.deep_view();
    let mut i: usize = 0;
    assert(out.deep_view() =~= was + targets_read(list@, 0));
    while i < list.len()
        invariant
            i <= list.len(),
            out.deep_view() == was + targets_read(list@, i as nat),
        decreases list.len() - i,
    {
        if let Some(target) = &list[i] {
            read_list(&target.1, out);
        }
        assert(out.deep_view() =~= was + targets_read(list@, (i + 1) as nat));
        i = i + 1;
    }
}

/// Every expression a statement holds, its branches and loops among them, put
/// behind those already there.
pub fn statement_expressions(item: &Statement, out: &mut Vec<Expr>)
    ensures
        final(out).deep_view() == old(out).deep_view() + statement_reads(*item),
    decreases *item, 0nat,
{
    match item {
        Statement::Assign(_, subscripts, value) => {
            read_list(subscripts, out);
            read_one(value, out);
        },
        Statement::TupleAssign(targets, value) => {
            read_targets(targets, out);
            read_one(value, out);
        },
        Statement::If(taken) => read_branches(taken, out),
        Statement::When(taken) => read_branches(taken, out),
        Statement::For(_, range, body) => {
            read_any(range, out);
            read_statements(body, out);
        },
        Statement::While(condition, body) => {
            read_one(condition, out);
            read_statements(body, out);
        },
        Statement::Assert(condition, _) => read_one(condition, out),
        Statement::Call(_, args) => read_list(args, out),
        Statement::Break => {},
        Statement::Return => {},
    }
    assert(out.deep_view() =~= old(out).deep_view() + statement_reads(*item));
}

fn read_branch(item: &StatementBranch, out: &mut Vec<Expr>)
    ensures
        final(out).deep_view() == old(out).deep_view() + branch_reads(*item),
    decreases *item, 0nat,
{
    read_any(&item.condition, out);
    read_statements(&item.body, out);
    assert(out.deep_view() =~= old(out).deep_view() + branch_reads(*item));
}

fn read_statements(items: &Vec<Statement>, out: &mut Vec<Expr>)
    ensures
        final(out).deep_view() == old(out).deep_view() + statements_read(items@, items@.len()),
    decreases items@, items@.len() + 1,
{
    let ghost was = out.deep_view();
    let mut i: usize = 0;
    assert(out.deep_view() =~= was + statements_read(items@, 0));
    while i < items.len()
        invariant
            i <= items.len(),
            out.deep_view() == was + statements_read(items@, i as nat),
        decreases items.len() - i,
    {
        statement_expressions(&items[i], out);
        assert(out.deep_view() =~= was + statements_read(items@, (i + 1) as nat));
        i = i + 1;
    }
}

fn read_branches(items: &Vec<StatementBranch>, out: &mut Vec<Expr>)
    ensures
        final(out).deep_view() == old(out).deep_view() + branches_read(items@, items@.len()),
    decreases items@, items@.len() + 1,
{
    let ghost was = out.deep_view();
    let mut i: usize = 0;
    assert(out.deep_view() =~= was + branches_read(items@, 0));
    while i < items.len()
        invariant
            i <= items.len(),
            out.deep_view() == was + branches_read(items@, i as nat),
        decreases items.len() - i,
    {
        read_branch(&items[i], out);
        assert(out.deep_view() =~= was + branches_read(items@, (i + 1) as nat));
        i = i + 1;
    }
}

/// Every expression the first `n` declarations hold.
pub open spec fn declarations_read(list: Seq<Component>, n: nat) -> Seq<ExprV>
    decreases n,
{
    if n == 0 || n > list.len() {
        Seq::empty()
    } else {
        declarations_read(list, (n - 1) as nat) + read_if(list[n - 1].binding.deep_view())
            + read_if(list[n - 1].start.deep_view()) + list[n - 1].dimensions.deep_view()
    }
}

/// Every name an expression mentions, in the order it does.
pub open spec fn mentioned(e: ExprV) -> Seq<Seq<char>>
    decreases e, kids(e).len() + 1,
{
    match e {
        ExprV::Ref(name) => seq![name],
        _ => mentioned_below(e, kids(e).len()),
    }
}

/// Every name the first `n` children of an expression mention.
pub open spec fn mentioned_below(e: ExprV, n: nat) -> Seq<Seq<char>>
    decreases e, n,
{
    proof {
        lemma_kids_smaller(e);
    }
    if n == 0 || n > kids(e).len() {
        Seq::empty()
    } else {
        mentioned_below(e, (n - 1) as nat) + mentioned(kids(e)[n - 1])
    }
}

/// Every name the first `n` of a list mention.
pub open spec fn all_mentioned(list: Seq<ExprV>, n: nat) -> Seq<Seq<char>>
    decreases n,
{
    if n == 0 || n > list.len() {
        Seq::empty()
    } else {
        all_mentioned(list, (n - 1) as nat) + mentioned(list[n - 1])
    }
}

/// Every name a body mentions, in the order it does.
pub open spec fn body_mentions(class: ClassDef) -> Seq<Seq<char>> {
    let read = declarations_read(class.components@, class.components@.len()) + statements_read(
        class.algorithm@,
        class.algorithm@.len(),
    );
    all_mentioned(read, read.len())
}

fn mention(expr: &Expr, out: &mut Vec<String>)
    ensures
        texts(final(out)@) == texts(old(out)@) + mentioned(expr.deep_view()),
    decreases expr.deep_view(),
{
    let ghost shape = expr.deep_view();
    let ghost was = texts(out@);
    if let Expr::Ref(name) = expr {
        out.push(name.clone());
        assert(texts(out@) =~= was + seq![name@]);
        return;
    }
    let parts = expr.children();
    let mut i: usize = 0;
    proof {
        lemma_kids_smaller(shape);
    }
    assert(parts.deep_view().len() == parts@.len());
    assert(texts(out@) =~= was + mentioned_below(shape, 0));
    while i < parts.len()
        invariant
            i <= parts.len(),
            shape == expr.deep_view(),
            parts.deep_view() == kids(shape),
            parts.deep_view().len() == parts@.len(),
            forall|k: int|
                0 <= k < kids(shape).len() ==> (#[trigger] decreases_to!(shape => kids(shape)[k])),
            texts(out@) == was + mentioned_below(shape, i as nat),
        decreases parts.len() - i,
    {
        assert(parts.deep_view()[i as int] == parts@[i as int].deep_view());
        assert(decreases_to!(shape => kids(shape)[i as int]));
        let part: &Expr = parts[i];
        mention(part, out);
        assert(texts(out@) =~= was + mentioned_below(shape, (i + 1) as nat));
        i = i + 1;
    }
}

/// Every name a function body mentions, in order and each once.
///
/// What a body folds with is part of what it comes to, so what one call came to
/// is what another does only where these are worth the same.
pub fn names_read(class: &ClassDef) -> (r: Vec<String>)
    ensures
        texts(r@) == ordered(body_mentions(*class)),
{
    let mut read: Vec<Expr> = Vec::new();
    let mut i: usize = 0;
    assert(read.deep_view() =~= declarations_read(class.components@, 0));
    while i < class.components.len()
        invariant
            i <= class.components.len(),
            read.deep_view() == declarations_read(class.components@, i as nat),
        decreases class.components.len() - i,
    {
        read_any(&class.components[i].binding, &mut read);
        read_any(&class.components[i].start, &mut read);
        read_list(&class.components[i].dimensions, &mut read);
        assert(read.deep_view() =~= declarations_read(class.components@, (i + 1) as nat));
        i = i + 1;
    }
    read_statements(&class.algorithm, &mut read);
    let ghost rv = read.deep_view();
    assert(rv.len() == read@.len());
    let mut names: Vec<String> = Vec::new();
    let mut i: usize = 0;
    assert(texts(names@) =~= all_mentioned(rv, 0));
    while i < read.len()
        invariant
            i <= read.len(),
            rv == read.deep_view(),
            rv.len() == read@.len(),
            texts(names@) == all_mentioned(rv, i as nat),
        decreases read.len() - i,
    {
        assert(rv[i as int] == read@[i as int].deep_view());
        mention(&read[i], &mut names);
        i = i + 1;
    }
    let ghost all = texts(names@);
    assert(all == body_mentions(*class));
    let mut out: Vec<String> = Vec::new();
    let mut i: usize = 0;
    assert(texts(out@) =~= ordered(all.take(0)));
    while i < names.len()
        invariant
            i <= names.len(),
            all == texts(names@),
            texts(out@) == ordered(all.take(i as int)),
        decreases names.len() - i,
    {
        assert(all.take(i + 1).drop_last() =~= all.take(i as int));
        put_name(&mut out, names[i].as_str());
        i = i + 1;
    }
    assert(all.take(i as int) =~= all);
    out
}

}
