//! The flat model, and what is gathered on the way to it.
use crate::class::{
    Component, ComponentV, EquationItem, EquationV, Experiment, ExperimentV, ForEquation,
    GraphClause, GraphClauseV, IfEquation, Statement, Transition, WhenAction, WhenBranch, WhenClause,
};
use crate::expr::{
    gathered, lemma_gathered_stops, told, Expr, ExprV,
};
use crate::machines::TransitionV;
use crate::number::Number;
use crate::table::Table;
use crate::text::{begins_with, join2, same, starts, texts};
use vstd::prelude::*;

verus! {

/// Something carried along a length: what goes in at either end, how far it
/// has moved and which way, and what it held at first.
#[derive(Debug)]
pub struct SpatialTransport {
    pub out0: String,
    pub out1: String,
    pub in0: Expr,
    pub in1: Expr,
    pub x: Expr,
    pub positive: Expr,
    pub initial_points: Vec<Number>,
    pub initial_values: Vec<Number>,
}

/// What the run carries along a coordinate, mathematically.
pub ghost struct TransportV {
    pub out0: Seq<char>,
    pub out1: Seq<char>,
    pub in0: ExprV,
    pub in1: ExprV,
    pub x: ExprV,
    pub positive: ExprV,
    pub initial_points: Seq<Number>,
    pub initial_values: Seq<Number>,
}

impl DeepView for SpatialTransport {
    type V = TransportV;

    open spec fn deep_view(&self) -> TransportV {
        TransportV {
            out0: self.out0@,
            out1: self.out1@,
            in0: self.in0.deep_view(),
            in1: self.in1.deep_view(),
            x: self.x.deep_view(),
            positive: self.positive.deep_view(),
            initial_points: self.initial_points@,
            initial_values: self.initial_values@,
        }
    }
}

/// An `if` equation whose condition is only known while running.
#[derive(Debug)]
pub struct ConditionalEquations {
    pub conditions: Vec<Expr>,
    pub branches: Vec<Vec<EquationItem>>,
}

/// A flat model: every name written out in full.
#[derive(Debug)]
pub struct Model {
    pub name: String,
    pub description: Option<String>,
    pub components: Vec<Component>,
    pub equations: Vec<EquationItem>,
    pub initial_equations: Vec<EquationItem>,
    pub asserts: Vec<(Expr, String)>,
    pub transitions: Vec<Transition>,
    pub initial_states: Vec<String>,
    pub connection_graph: Vec<GraphClause>,
    pub when_clauses: Vec<WhenClause>,
    pub conditional: Vec<ConditionalEquations>,
    pub transports: Vec<SpatialTransport>,
    pub experiment: Option<Experiment>,
    /// The bodies that travel with the model for the run to walk.
    pub functions: Vec<Carried>,
}

/// A body that travels with a model: what the function is called, what it
/// declares, and its statements.
#[derive(Debug)]
pub struct Carried {
    pub name: String,
    pub components: Vec<Component>,
    pub algorithm: Vec<Statement>,
}

/// What is gathered while a class tree is instantiated.
#[derive(Debug)]
pub struct Flat {
    pub components: Vec<Component>,
    /// How long every array instantiated so far is, by flat path, in the
    /// order they were instantiated.
    pub sizes: Vec<(String, Vec<i64>)>,
    /// The instance whose equations are being gathered, by flat path.
    pub origin: String,
    /// Connectors that were a class's own port where a `connect` named them.
    pub outside: Vec<String>,
    pub transports: Vec<SpatialTransport>,
    pub equations: Vec<EquationItem>,
    pub when_clauses: Vec<WhenClause>,
    pub initial_equations: Vec<EquationItem>,
    pub asserts: Vec<(Expr, String)>,
    /// State machine arrows, with the states named by instance path.
    pub transitions: Vec<Transition>,
    /// Where each machine starts.
    pub initial_states: Vec<String>,
    pub connection_graph: Vec<GraphClause>,
    /// Connector instance path -> connector class name.
    pub connectors: Table<String>,
    /// What a connector's declaration said about how it must be connected.
    pub connect_rules: Vec<(String, Vec<Expr>)>,
    /// Connect statements with fully prefixed paths.
    pub connects: Vec<(String, String)>,
    /// Values of parameters already instantiated, by flat name.
    pub const_values: Table<Number>,
    /// Instance paths of components a false condition left out.
    pub disabled: Vec<String>,
    /// `if` equations whose condition is only known while running.
    pub conditional: Vec<ConditionalEquations>,
    /// Which nodes of the overconstrained graph turned out to be roots.
    pub roots: Table<bool>,
    /// How many `connect` equations named each connector, as the pass before
    /// gathered them.
    pub counts: Table<u64>,
    /// Whether the roots and the counts are the pass before's.
    pub answered: bool,
    /// Whether an `if` equation was set aside because its condition asks the
    /// connections a question the first pass cannot answer.
    pub graph_asked: bool,
    /// What each handle to something outside Modelica was built from.
    pub handles: Table<Expr>,
    /// The `input` declarations of a model or block that nothing settled.
    pub unsupplied: Vec<(String, String)>,
    /// Every instance known to be a record, and what record it is.
    pub records: Table<String>,
    /// What is remembered from one class to the next.
    pub rest: Rest,
}

/// What is remembered from one class to the next while a tree is instantiated.
#[derive(Debug)]
pub struct Rest {
    /// Which instances are classes in their own right, and of what.
    pub instances: Table<String>,
    /// The classes whose restrictions were asked after already.
    pub checked: Vec<String>,
    /// The bases that each instance path has taken in.
    pub extended: Vec<(String, String)>,
    /// What parameters turned out to be worth, in the order they did.
    pub numbers: Vec<(String, Number)>,
    /// The inputs that aliases and redeclarations filled in.
    pub filled: Vec<(String, Vec<(String, Expr)>)>,
    /// The constants that aliases gave a value.
    pub given: Vec<(String, Vec<(String, Expr)>)>,
    /// Checks that a body set aside.
    pub aside: Vec<(Expr, String)>,
}

pub ghost struct RestV {
    pub instances: Map<Seq<char>, Seq<char>>,
    pub checked: Seq<Seq<char>>,
    pub extended: Seq<(Seq<char>, Seq<char>)>,
    pub numbers: Seq<(Seq<char>, Number)>,
    pub filled: Seq<(Seq<char>, Seq<(Seq<char>, ExprV)>)>,
    pub given: Seq<(Seq<char>, Seq<(Seq<char>, ExprV)>)>,
    pub aside: Seq<(ExprV, Seq<char>)>,
}

impl DeepView for Rest {
    type V = RestV;

    open spec fn deep_view(&self) -> RestV {
        RestV {
            instances: self.instances.deep_view(),
            checked: texts(self.checked@),
            extended: self.extended.deep_view(),
            numbers: self.numbers.deep_view(),
            filled: self.filled.deep_view(),
            given: self.given.deep_view(),
            aside: self.aside.deep_view(),
        }
    }
}

/// Checks, each with what is said where it fails.
pub type Checks = Seq<(ExprV, Seq<char>)>;

/// What was gathered, with more checks that bodies set aside.
pub open spec fn set_aside(acc: FlatV, more: Checks) -> FlatV {
    FlatV { rest: RestV { aside: acc.rest.aside + more, ..acc.rest }, ..acc }
}

/// Keep the checks that bodies set aside for the class being instantiated.
pub fn put_aside(acc: Flat, more: Vec<(Expr, String)>) -> (r: Flat)
    ensures
        r.deep_view() == set_aside(acc.deep_view(), more.deep_view()),
{
    let mut acc = acc;
    let mut more = more;
    let ghost was = acc.deep_view();
    let ghost added = more.deep_view();
    acc.rest.aside.append(&mut more);
    assert(acc.rest.aside.deep_view() =~= was.rest.aside + added);
    acc
}

/// Whether a list of checks begins with all those of another.
pub open spec fn begins_with_all(more: Checks, list: Checks) -> bool {
    list.len() <= more.len() && forall|i: int|
        0 <= i < list.len() ==> #[trigger] more[i] == list[i]
}

/// Whether what was gathered holds every check that was there before, those
/// gathered and those set aside, in the order they had.
pub open spec fn keeps_checks(was: FlatV, now: FlatV) -> bool {
    &&& begins_with_all(now.asserts, was.asserts)
    &&& begins_with_all(now.rest.aside, was.rest.aside)
}

/// Nothing remembered yet.
pub open spec fn nothing_remembered() -> RestV {
    RestV {
        instances: Map::empty(),
        checked: Seq::empty(),
        extended: Seq::empty(),
        numbers: Seq::empty(),
        filled: Seq::empty(),
        given: Seq::empty(),
        aside: Seq::empty(),
    }
}

impl Rest {
    /// Nothing remembered yet.
    pub fn new() -> (r: Self)
        ensures
            r.deep_view() == nothing_remembered(),
    {
        let out = Rest {
            instances: Table::new(),
            checked: Vec::new(),
            extended: Vec::new(),
            numbers: Vec::new(),
            filled: Vec::new(),
            given: Vec::new(),
            aside: Vec::new(),
        };
        assert(texts(out.checked@) =~= Seq::empty());
        assert(out.extended.deep_view() =~= Seq::empty());
        assert(out.numbers.deep_view() =~= Seq::empty());
        assert(out.filled.deep_view() =~= Seq::empty());
        assert(out.given.deep_view() =~= Seq::empty());
        assert(out.aside.deep_view() =~= Seq::empty());
        out
    }
}

/// What a `when` clause is, mathematically.
pub ghost struct WhenClauseV {
    pub branches: Seq<WhenBranchV>,
    pub origin: Seq<char>,
}

pub ghost struct WhenBranchV {
    pub condition: ExprV,
    pub actions: Seq<WhenActionV>,
}

/// A loop and a choice are taken apart on the way to a flat model and are
/// held as they are written.
pub ghost enum WhenActionV {
    Assign(Seq<char>, ExprV),
    Reinit(Seq<char>, ExprV),
    TupleAssign(Seq<Option<Seq<char>>>, ExprV),
    Terminate(Seq<char>),
    Call(Seq<char>, Seq<ExprV>),
    Assert(ExprV, Seq<char>),
    Loop(ForEquation),
    Choice(IfEquation),
}

pub ghost struct ConditionalV {
    pub conditions: Seq<ExprV>,
    pub branches: Seq<Seq<EquationV>>,
}

impl DeepView for WhenAction {
    type V = WhenActionV;

    open spec fn deep_view(&self) -> WhenActionV {
        match self {
            WhenAction::Assign(name, value) => WhenActionV::Assign(name@, value.deep_view()),
            WhenAction::Reinit(name, value) => WhenActionV::Reinit(name@, value.deep_view()),
            WhenAction::TupleAssign(names, value) => WhenActionV::TupleAssign(
                names.deep_view(),
                value.deep_view(),
            ),
            WhenAction::Terminate(message) => WhenActionV::Terminate(message@),
            WhenAction::Call(name, args) => WhenActionV::Call(name@, args.deep_view()),
            WhenAction::Assert(condition, message) => WhenActionV::Assert(
                condition.deep_view(),
                message@,
            ),
            WhenAction::Loop(held) => WhenActionV::Loop(*held),
            WhenAction::Choice(held) => WhenActionV::Choice(*held),
        }
    }
}

impl DeepView for WhenBranch {
    type V = WhenBranchV;

    open spec fn deep_view(&self) -> WhenBranchV {
        WhenBranchV {
            condition: self.condition.deep_view(),
            actions: self.actions.deep_view(),
        }
    }
}

impl DeepView for WhenClause {
    type V = WhenClauseV;

    open spec fn deep_view(&self) -> WhenClauseV {
        WhenClauseV { branches: self.branches.deep_view(), origin: self.origin@ }
    }
}

impl DeepView for ConditionalEquations {
    type V = ConditionalV;

    open spec fn deep_view(&self) -> ConditionalV {
        ConditionalV {
            conditions: self.conditions.deep_view(),
            branches: self.branches.deep_view(),
        }
    }
}

/// What is gathered while a class tree is instantiated, mathematically.
pub ghost struct FlatV {
    pub components: Seq<ComponentV>,
    pub sizes: Seq<(Seq<char>, Seq<i64>)>,
    pub origin: Seq<char>,
    pub outside: Seq<Seq<char>>,
    pub transports: Seq<TransportV>,
    pub equations: Seq<EquationV>,
    pub when_clauses: Seq<WhenClauseV>,
    pub initial_equations: Seq<EquationV>,
    pub asserts: Seq<(ExprV, Seq<char>)>,
    pub transitions: Seq<TransitionV>,
    pub initial_states: Seq<Seq<char>>,
    pub connection_graph: Seq<GraphClauseV>,
    pub connectors: Seq<(Seq<char>, Seq<char>)>,
    pub connect_rules: Seq<(Seq<char>, Seq<ExprV>)>,
    pub connects: Seq<(Seq<char>, Seq<char>)>,
    pub const_values: Map<Seq<char>, Number>,
    pub disabled: Seq<Seq<char>>,
    pub conditional: Seq<ConditionalV>,
    pub roots: Map<Seq<char>, bool>,
    pub counts: Map<Seq<char>, u64>,
    pub answered: bool,
    pub graph_asked: bool,
    pub handles: Map<Seq<char>, ExprV>,
    pub unsupplied: Seq<(Seq<char>, Seq<char>)>,
    pub records: Map<Seq<char>, Seq<char>>,
    pub rest: RestV,
}

impl DeepView for Flat {
    type V = FlatV;

    open spec fn deep_view(&self) -> FlatV {
        FlatV {
            components: self.components.deep_view(),
            sizes: self.sizes.deep_view(),
            origin: self.origin@,
            outside: texts(self.outside@),
            transports: self.transports.deep_view(),
            equations: self.equations.deep_view(),
            when_clauses: self.when_clauses.deep_view(),
            initial_equations: self.initial_equations.deep_view(),
            asserts: self.asserts.deep_view(),
            transitions: self.transitions.deep_view(),
            initial_states: texts(self.initial_states@),
            connection_graph: self.connection_graph.deep_view(),
            connectors: self.connectors.entries.deep_view(),
            connect_rules: self.connect_rules.deep_view(),
            connects: self.connects.deep_view(),
            const_values: self.const_values.deep_view(),
            disabled: texts(self.disabled@),
            conditional: self.conditional.deep_view(),
            roots: self.roots.deep_view(),
            counts: self.counts.deep_view(),
            answered: self.answered,
            graph_asked: self.graph_asked,
            handles: self.handles.deep_view(),
            unsupplied: self.unsupplied.deep_view(),
            records: self.records.deep_view(),
            rest: self.rest.deep_view(),
        }
    }
}

/// A flat model but for the bodies that travel with it, mathematically.
pub ghost struct ModelV {
    pub name: Seq<char>,
    pub description: Option<Seq<char>>,
    pub components: Seq<ComponentV>,
    pub equations: Seq<EquationV>,
    pub initial_equations: Seq<EquationV>,
    pub asserts: Seq<(ExprV, Seq<char>)>,
    pub transitions: Seq<TransitionV>,
    pub initial_states: Seq<Seq<char>>,
    pub connection_graph: Seq<GraphClauseV>,
    pub when_clauses: Seq<WhenClauseV>,
    pub conditional: Seq<ConditionalV>,
    pub transports: Seq<TransportV>,
    pub experiment: Option<ExperimentV>,
}

impl DeepView for Model {
    type V = ModelV;

    open spec fn deep_view(&self) -> ModelV {
        ModelV {
            name: self.name@,
            description: self.description.deep_view(),
            components: self.components.deep_view(),
            equations: self.equations.deep_view(),
            initial_equations: self.initial_equations.deep_view(),
            asserts: self.asserts.deep_view(),
            transitions: self.transitions.deep_view(),
            initial_states: texts(self.initial_states@),
            connection_graph: self.connection_graph.deep_view(),
            when_clauses: self.when_clauses.deep_view(),
            conditional: self.conditional.deep_view(),
            transports: self.transports.deep_view(),
            experiment: self.experiment.deep_view(),
        }
    }
}

impl Flat {
    /// Nothing gathered yet.
    pub fn new() -> (r: Self)
        ensures
            r.deep_view() == nothing_gathered(),
    {
        let out = Flat {
            components: Vec::new(),
            sizes: Vec::new(),
            origin: String::new(),
            outside: Vec::new(),
            transports: Vec::new(),
            equations: Vec::new(),
            when_clauses: Vec::new(),
            initial_equations: Vec::new(),
            asserts: Vec::new(),
            transitions: Vec::new(),
            initial_states: Vec::new(),
            connection_graph: Vec::new(),
            connectors: Table::new(),
            connect_rules: Vec::new(),
            connects: Vec::new(),
            const_values: Table::new(),
            disabled: Vec::new(),
            conditional: Vec::new(),
            roots: Table::new(),
            counts: Table::new(),
            answered: false,
            graph_asked: false,
            handles: Table::new(),
            unsupplied: Vec::new(),
            records: Table::new(),
            rest: Rest::new(),
        };
        assert(out.components.deep_view() =~= Seq::empty());
        assert(out.sizes.deep_view() =~= Seq::empty());
        assert(out.origin@ =~= Seq::empty());
        assert(texts(out.outside@) =~= Seq::empty());
        assert(out.transports.deep_view() =~= Seq::empty());
        assert(out.equations.deep_view() =~= Seq::empty());
        assert(out.when_clauses.deep_view() =~= Seq::empty());
        assert(out.initial_equations.deep_view() =~= Seq::empty());
        assert(out.asserts.deep_view() =~= Seq::empty());
        assert(out.transitions.deep_view() =~= Seq::empty());
        assert(texts(out.initial_states@) =~= Seq::empty());
        assert(out.connection_graph.deep_view() =~= Seq::empty());
        assert(out.connectors.entries.deep_view() =~= Seq::empty());
        assert(out.connect_rules.deep_view() =~= Seq::empty());
        assert(out.connects.deep_view() =~= Seq::empty());
        assert(texts(out.disabled@) =~= Seq::empty());
        assert(out.conditional.deep_view() =~= Seq::empty());
        assert(out.unsupplied.deep_view() =~= Seq::empty());
        out
    }

    /// Whether a path names a component left out by its condition, or
    /// anything inside one. An array of components is left out by the name of
    /// the array, and what a `connect` names is an element of it.
    pub fn is_disabled(&self, path: &str) -> (r: bool)
        ensures
            r == is_left_out(texts(self.disabled@), path@),
    {
        let ghost all = texts(self.disabled@);
        let mut i: usize = 0;
        while i < self.disabled.len()
            invariant
                i <= self.disabled.len(),
                all == texts(self.disabled@),
                forall|k: int| 0 <= k < i ==> !leaves_out(#[trigger] all[k], path@),
            decreases self.disabled.len() - i,
        {
            let one = self.disabled[i].as_str();
            assert(all[i as int] == one@);
            let inside = join2(one, ".");
            let element = join2(one, "[");
            if same(path, one) || starts(path, inside.as_str()) || starts(path, element.as_str()) {
                assert(leaves_out(all[i as int], path@));
                return true;
            }
            i = i + 1;
        }
        false
    }
}

/// Whether leaving out a component leaves out what a path names.
pub open spec fn leaves_out(left_out: Seq<char>, path: Seq<char>) -> bool {
    path == left_out || begins_with(path, left_out + "."@) || begins_with(path, left_out + "["@)
}

pub open spec fn is_left_out(disabled: Seq<Seq<char>>, path: Seq<char>) -> bool {
    exists|i: int| 0 <= i < disabled.len() && leaves_out(#[trigger] disabled[i], path)
}

/// Nothing gathered yet.
pub open spec fn nothing_gathered() -> FlatV {
    FlatV {
        components: Seq::empty(),
        sizes: Seq::empty(),
        origin: Seq::empty(),
        outside: Seq::empty(),
        transports: Seq::empty(),
        equations: Seq::empty(),
        when_clauses: Seq::empty(),
        initial_equations: Seq::empty(),
        asserts: Seq::empty(),
        transitions: Seq::empty(),
        initial_states: Seq::empty(),
        connection_graph: Seq::empty(),
        connectors: Seq::empty(),
        connect_rules: Seq::empty(),
        connects: Seq::empty(),
        const_values: Map::empty(),
        disabled: Seq::empty(),
        conditional: Seq::empty(),
        roots: Map::empty(),
        counts: Map::empty(),
        answered: false,
        graph_asked: false,
        handles: Map::empty(),
        unsupplied: Seq::empty(),
        records: Map::empty(),
        rest: nothing_remembered(),
    }
}

/// Whether a step can be asked of every expression and comes to `g` of it.
pub open spec fn computes<F: Fn(&Expr) -> Expr>(f: F, g: spec_fn(ExprV) -> ExprV) -> bool {
    &&& forall|e: &Expr| #[trigger] call_requires(f, (e,))
    &&& forall|e: &Expr, r: Expr| #[trigger]
        call_ensures(f, (e,), r) ==> r.deep_view() == g(e.deep_view())
}

pub open spec fn equation_by(g: spec_fn(ExprV) -> ExprV, e: EquationV) -> EquationV {
    EquationV { lhs: g(e.lhs), rhs: g(e.rhs), origin: e.origin }
}

pub open spec fn equations_by(g: spec_fn(ExprV) -> ExprV, list: Seq<EquationV>) -> Seq<EquationV> {
    Seq::new(list.len(), |i: int| equation_by(g, list[i]))
}

pub open spec fn exprs_by(g: spec_fn(ExprV) -> ExprV, list: Seq<ExprV>) -> Seq<ExprV> {
    Seq::new(list.len(), |i: int| g(list[i]))
}

pub open spec fn asserts_by(g: spec_fn(ExprV) -> ExprV, list: Seq<(ExprV, Seq<char>)>) -> Seq<
    (ExprV, Seq<char>),
> {
    Seq::new(list.len(), |i: int| (g(list[i].0), list[i].1))
}

/// What an action of a flat model comes to: its value or its condition.
pub open spec fn action_by(g: spec_fn(ExprV) -> ExprV, a: WhenActionV) -> WhenActionV {
    match a {
        WhenActionV::Assign(name, value) => WhenActionV::Assign(name, g(value)),
        WhenActionV::Reinit(name, value) => WhenActionV::Reinit(name, g(value)),
        WhenActionV::TupleAssign(names, value) => WhenActionV::TupleAssign(names, g(value)),
        WhenActionV::Assert(condition, message) => WhenActionV::Assert(g(condition), message),
        other => other,
    }
}

pub open spec fn branch_by(g: spec_fn(ExprV) -> ExprV, b: WhenBranchV) -> WhenBranchV {
    WhenBranchV {
        condition: g(b.condition),
        actions: Seq::new(b.actions.len(), |i: int| action_by(g, b.actions[i])),
    }
}

pub open spec fn clause_by(g: spec_fn(ExprV) -> ExprV, c: WhenClauseV) -> WhenClauseV {
    WhenClauseV {
        branches: Seq::new(c.branches.len(), |i: int| branch_by(g, c.branches[i])),
        origin: c.origin,
    }
}

pub open spec fn clauses_by(g: spec_fn(ExprV) -> ExprV, list: Seq<WhenClauseV>) -> Seq<
    WhenClauseV,
> {
    Seq::new(list.len(), |i: int| clause_by(g, list[i]))
}

pub open spec fn conditional_by(g: spec_fn(ExprV) -> ExprV, c: ConditionalV) -> ConditionalV {
    ConditionalV {
        conditions: exprs_by(g, c.conditions),
        branches: Seq::new(c.branches.len(), |i: int| equations_by(g, c.branches[i])),
    }
}

pub open spec fn conditionals_by(g: spec_fn(ExprV) -> ExprV, list: Seq<ConditionalV>) -> Seq<
    ConditionalV,
> {
    Seq::new(list.len(), |i: int| conditional_by(g, list[i]))
}

/// Rewrite both sides of every equation.
pub fn rewrite_equations<F: Fn(&Expr) -> Expr>(list: &mut Vec<EquationItem>, f: &F, g: Ghost<
    spec_fn(ExprV) -> ExprV,
>)
    requires
        computes(*f, g@),
    ensures
        final(list).deep_view() == equations_by(g@, old(list).deep_view()),
{
    let ghost was = list.deep_view();
    let mut out: Vec<EquationItem> = Vec::new();
    let mut i: usize = 0;
    while i < list.len()
        invariant
            computes(*f, g@),
            i <= list.len(),
            was == list.deep_view(),
            out.len() == i,
            forall|k: int|
                0 <= k < i ==> (#[trigger] out@[k]).deep_view() == equation_by(g@, was[k]),
        decreases list.len() - i,
    {
        let lhs = f(&list[i].lhs);
        let rhs = f(&list[i].rhs);
        out.push(EquationItem { lhs, rhs, origin: list[i].origin.clone() });
        i = i + 1;
    }
    assert(out.deep_view() =~= equations_by(g@, was));
    *list = out;
}

/// Rewrite every expression of a list.
pub fn rewrite_exprs<F: Fn(&Expr) -> Expr>(list: &mut Vec<Expr>, f: &F, g: Ghost<
    spec_fn(ExprV) -> ExprV,
>)
    requires
        computes(*f, g@),
    ensures
        final(list).deep_view() == exprs_by(g@, old(list).deep_view()),
{
    let ghost was = list.deep_view();
    let mut out: Vec<Expr> = Vec::new();
    let mut i: usize = 0;
    while i < list.len()
        invariant
            computes(*f, g@),
            i <= list.len(),
            was == list.deep_view(),
            out.len() == i,
            forall|k: int| 0 <= k < i ==> (#[trigger] out@[k]).deep_view() == g@(was[k]),
        decreases list.len() - i,
    {
        out.push(f(&list[i]));
        i = i + 1;
    }
    assert(out.deep_view() =~= exprs_by(g@, was));
    *list = out;
}

/// Rewrite the condition of every check.
pub fn rewrite_asserts<F: Fn(&Expr) -> Expr>(list: &mut Vec<(Expr, String)>, f: &F, g: Ghost<
    spec_fn(ExprV) -> ExprV,
>)
    requires
        computes(*f, g@),
    ensures
        final(list).deep_view() == asserts_by(g@, old(list).deep_view()),
{
    let ghost was = list.deep_view();
    let mut out: Vec<(Expr, String)> = Vec::new();
    let mut i: usize = 0;
    while i < list.len()
        invariant
            computes(*f, g@),
            i <= list.len(),
            was == list.deep_view(),
            out.len() == i,
            forall|k: int|
                0 <= k < i ==> (#[trigger] out@[k]).deep_view() == (g@(was[k].0), was[k].1),
        decreases list.len() - i,
    {
        out.push((f(&list[i].0), list[i].1.clone()));
        i = i + 1;
    }
    assert(out.deep_view() =~= asserts_by(g@, was));
    *list = out;
}

fn rewrite_action<F: Fn(&Expr) -> Expr>(action: WhenAction, f: &F, g: Ghost<
    spec_fn(ExprV) -> ExprV,
>) -> (r: WhenAction)
    requires
        computes(*f, g@),
    ensures
        r.deep_view() == action_by(g@, action.deep_view()),
{
    match action {
        WhenAction::Assign(name, value) => WhenAction::Assign(name, f(&value)),
        WhenAction::Reinit(name, value) => WhenAction::Reinit(name, f(&value)),
        WhenAction::TupleAssign(names, value) => WhenAction::TupleAssign(names, f(&value)),
        WhenAction::Assert(condition, message) => WhenAction::Assert(f(&condition), message),
        other => other,
    }
}

fn rewrite_branch<F: Fn(&Expr) -> Expr>(branch: WhenBranch, f: &F, g: Ghost<
    spec_fn(ExprV) -> ExprV,
>) -> (r: WhenBranch)
    requires
        computes(*f, g@),
    ensures
        r.deep_view() == branch_by(g@, branch.deep_view()),
{
    let ghost was = branch.deep_view();
    let condition = f(&branch.condition);
    let mut left = branch.actions;
    let ghost all = left.deep_view();
    let mut done: Vec<WhenAction> = Vec::new();
    while left.len() > 0
        invariant
            computes(*f, g@),
            left.len() + done.len() == all.len(),
            left.deep_view() == all.skip(done.len() as int),
            forall|k: int|
                0 <= k < done.len() ==> (#[trigger] done@[k]).deep_view() == action_by(g@, all[k]),
        decreases left.len(),
    {
        let ghost before = left.deep_view();
        let ghost at = done.len() as int;
        let action = left.remove(0);
        assert(left.deep_view() =~= before.drop_first());
        assert(left.deep_view() =~= all.skip(at + 1));
        assert(action.deep_view() == before[0]);
        done.push(rewrite_action(action, f, g));
    }
    assert(done.deep_view() =~= branch_by(g@, was).actions);
    WhenBranch { condition, actions: done }
}

fn rewrite_clause<F: Fn(&Expr) -> Expr>(clause: WhenClause, f: &F, g: Ghost<
    spec_fn(ExprV) -> ExprV,
>) -> (r: WhenClause)
    requires
        computes(*f, g@),
    ensures
        r.deep_view() == clause_by(g@, clause.deep_view()),
{
    let ghost was = clause.deep_view();
    let mut left = clause.branches;
    let ghost all = left.deep_view();
    let mut done: Vec<WhenBranch> = Vec::new();
    while left.len() > 0
        invariant
            computes(*f, g@),
            left.len() + done.len() == all.len(),
            left.deep_view() == all.skip(done.len() as int),
            forall|k: int|
                0 <= k < done.len() ==> (#[trigger] done@[k]).deep_view() == branch_by(g@, all[k]),
        decreases left.len(),
    {
        let ghost before = left.deep_view();
        let ghost at = done.len() as int;
        let branch = left.remove(0);
        assert(left.deep_view() =~= before.drop_first());
        assert(left.deep_view() =~= all.skip(at + 1));
        assert(branch.deep_view() == before[0]);
        done.push(rewrite_branch(branch, f, g));
    }
    assert(done.deep_view() =~= clause_by(g@, was).branches);
    WhenClause { branches: done, origin: clause.origin }
}

/// Rewrite what every `when` clause fires on and does.
pub fn rewrite_clauses<F: Fn(&Expr) -> Expr>(list: &mut Vec<WhenClause>, f: &F, g: Ghost<
    spec_fn(ExprV) -> ExprV,
>)
    requires
        computes(*f, g@),
    ensures
        final(list).deep_view() == clauses_by(g@, old(list).deep_view()),
{
    let ghost all = list.deep_view();
    let mut done: Vec<WhenClause> = Vec::new();
    while list.len() > 0
        invariant
            computes(*f, g@),
            list.len() + done.len() == all.len(),
            list.deep_view() == all.skip(done.len() as int),
            forall|k: int|
                0 <= k < done.len() ==> (#[trigger] done@[k]).deep_view() == clause_by(g@, all[k]),
        decreases list.len(),
    {
        let ghost before = list.deep_view();
        let ghost at = done.len() as int;
        let clause = list.remove(0);
        assert(list.deep_view() =~= before.drop_first());
        assert(list.deep_view() =~= all.skip(at + 1));
        assert(clause.deep_view() == before[0]);
        done.push(rewrite_clause(clause, f, g));
    }
    assert(done.deep_view() =~= clauses_by(g@, all));
    *list = done;
}

fn rewrite_conditional<F: Fn(&Expr) -> Expr>(given: ConditionalEquations, f: &F, g: Ghost<
    spec_fn(ExprV) -> ExprV,
>) -> (r: ConditionalEquations)
    requires
        computes(*f, g@),
    ensures
        r.deep_view() == conditional_by(g@, given.deep_view()),
{
    let ghost was = given.deep_view();
    let mut conditions = given.conditions;
    rewrite_exprs(&mut conditions, f, g);
    let mut left = given.branches;
    let ghost all = left.deep_view();
    let mut done: Vec<Vec<EquationItem>> = Vec::new();
    while left.len() > 0
        invariant
            computes(*f, g@),
            left.len() + done.len() == all.len(),
            left.deep_view() == all.skip(done.len() as int),
            forall|k: int|
                0 <= k < done.len() ==> (#[trigger] done@[k]).deep_view() == equations_by(
                    g@,
                    all[k],
                ),
        decreases left.len(),
    {
        let ghost before = left.deep_view();
        let ghost at = done.len() as int;
        let mut branch = left.remove(0);
        assert(left.deep_view() =~= before.drop_first());
        assert(left.deep_view() =~= all.skip(at + 1));
        assert(branch.deep_view() == before[0]);
        rewrite_equations(&mut branch, f, g);
        done.push(branch);
    }
    assert(done.deep_view() =~= conditional_by(g@, was).branches);
    ConditionalEquations { conditions, branches: done }
}

/// Rewrite every `if` equation that travels to the run.
pub fn rewrite_conditionals<F: Fn(&Expr) -> Expr>(list: &mut Vec<ConditionalEquations>, f: &F, g:
    Ghost<spec_fn(ExprV) -> ExprV>)
    requires
        computes(*f, g@),
    ensures
        final(list).deep_view() == conditionals_by(g@, old(list).deep_view()),
{
    let ghost all = list.deep_view();
    let mut done: Vec<ConditionalEquations> = Vec::new();
    while list.len() > 0
        invariant
            computes(*f, g@),
            list.len() + done.len() == all.len(),
            list.deep_view() == all.skip(done.len() as int),
            forall|k: int|
                0 <= k < done.len() ==> (#[trigger] done@[k]).deep_view() == conditional_by(
                    g@,
                    all[k],
                ),
        decreases list.len(),
    {
        let ghost before = list.deep_view();
        let ghost at = done.len() as int;
        let one = list.remove(0);
        assert(list.deep_view() =~= before.drop_first());
        assert(list.deep_view() =~= all.skip(at + 1));
        assert(one.deep_view() == before[0]);
        done.push(rewrite_conditional(one, f, g));
    }
    assert(done.deep_view() =~= conditionals_by(g@, all));
    *list = done;
}

/// Whether a step can be asked of every expression and comes to `g` of it or fails as it does.
pub open spec fn computes_or_fails<F: Fn(&Expr) -> Result<Expr, String>>(
    f: F,
    g: spec_fn(ExprV) -> Result<ExprV, Seq<char>>,
) -> bool {
    &&& forall|e: &Expr| #[trigger] call_requires(f, (e,))
    &&& forall|e: &Expr, r: Result<Expr, String>| #[trigger]
        call_ensures(f, (e,), r) ==> told(r) == g(e.deep_view())
}

pub open spec fn tried_equation(
    g: spec_fn(ExprV) -> Result<ExprV, Seq<char>>,
    e: EquationV,
) -> Result<EquationV, Seq<char>> {
    match g(e.lhs) {
        Err(why) => Err(why),
        Ok(lhs) => match g(e.rhs) {
            Err(why) => Err(why),
            Ok(rhs) => Ok(EquationV { lhs, rhs, origin: e.origin }),
        },
    }
}

pub open spec fn tried_assert(
    g: spec_fn(ExprV) -> Result<ExprV, Seq<char>>,
    a: (ExprV, Seq<char>),
) -> Result<(ExprV, Seq<char>), Seq<char>> {
    match g(a.0) {
        Err(why) => Err(why),
        Ok(condition) => Ok((condition, a.1)),
    }
}

pub open spec fn tried_action(
    g: spec_fn(ExprV) -> Result<ExprV, Seq<char>>,
    a: WhenActionV,
) -> Result<WhenActionV, Seq<char>> {
    match a {
        WhenActionV::Assign(name, value) => match g(value) {
            Err(why) => Err(why),
            Ok(value) => Ok(WhenActionV::Assign(name, value)),
        },
        WhenActionV::Reinit(name, value) => match g(value) {
            Err(why) => Err(why),
            Ok(value) => Ok(WhenActionV::Reinit(name, value)),
        },
        WhenActionV::TupleAssign(names, value) => match g(value) {
            Err(why) => Err(why),
            Ok(value) => Ok(WhenActionV::TupleAssign(names, value)),
        },
        WhenActionV::Assert(condition, message) => match g(condition) {
            Err(why) => Err(why),
            Ok(condition) => Ok(WhenActionV::Assert(condition, message)),
        },
        other => Ok(other),
    }
}

pub open spec fn tried_branch(
    g: spec_fn(ExprV) -> Result<ExprV, Seq<char>>,
    b: WhenBranchV,
) -> Result<WhenBranchV, Seq<char>> {
    match g(b.condition) {
        Err(why) => Err(why),
        Ok(condition) => match tried_actions(g, b.actions) {
            Err(why) => Err(why),
            Ok(actions) => Ok(WhenBranchV { condition, actions }),
        },
    }
}

pub open spec fn tried_clause(
    g: spec_fn(ExprV) -> Result<ExprV, Seq<char>>,
    c: WhenClauseV,
) -> Result<WhenClauseV, Seq<char>> {
    match tried_branches(g, c.branches) {
        Err(why) => Err(why),
        Ok(branches) => Ok(WhenClauseV { branches, origin: c.origin }),
    }
}

pub open spec fn tried_conditional(
    g: spec_fn(ExprV) -> Result<ExprV, Seq<char>>,
    c: ConditionalV,
) -> Result<ConditionalV, Seq<char>> {
    match tried_exprs(g, c.conditions) {
        Err(why) => Err(why),
        Ok(conditions) => match tried_bodies(g, c.branches) {
            Err(why) => Err(why),
            Ok(branches) => Ok(ConditionalV { conditions, branches }),
        },
    }
}

pub open spec fn tried_exprs(
    g: spec_fn(ExprV) -> Result<ExprV, Seq<char>>,
    list: Seq<ExprV>,
) -> Result<Seq<ExprV>, Seq<char>> {
    gathered(Seq::new(list.len(), |i: int| g(list[i])))
}

/// Rewrite every expression of a list, or stop at the first that fails.
fn try_exprs<F: Fn(&Expr) -> Result<Expr, String>>(
    list: &mut Vec<Expr>,
    f: &F,
    g: Ghost<spec_fn(ExprV) -> Result<ExprV, Seq<char>>>,
) -> (r: Result<(), String>)
    requires
        computes_or_fails(*f, g@),
    ensures
        match tried_exprs(g@, old(list).deep_view()) {
            Ok(made) => r is Ok && final(list).deep_view() == made,
            Err(trouble) => r matches Err(why) && why@ == trouble,
        },
{
    let ghost all = list.deep_view();
    let ghost aims = Seq::new(all.len(), |i: int| g@(all[i]));
    let mut done: Vec<Expr> = Vec::new();
    proof {
        assert(aims.take(0) =~= Seq::empty());
        assert(done.deep_view() =~= Seq::<ExprV>::empty());
    }
    let mut i: usize = 0;
    while i < list.len()
        invariant
            computes_or_fails(*f, g@),
            all == old(list).deep_view(),
            aims.len() == all.len(),
            forall|k: int| 0 <= k < all.len() ==> #[trigger] aims[k] == g@(all[k]),
            i == done.len(),
            i <= list.len(),
            list.deep_view() == all,
            gathered(aims.take(done.len() as int)) == Ok::<Seq<ExprV>, Seq<char>>(done.deep_view()),
            tried_exprs(g@, all) == gathered(aims),
        decreases list.len() - i,
    {
        let ghost made = done.deep_view();
        let ghost at = done.len() as int;
        let one = &list[i];
        assert(one.deep_view() == all[at]);
        assert(aims.take(at + 1).drop_last() =~= aims.take(at));
        assert(aims[at] == g@(all[at]));
        match f(one) {
            Ok(new) => {
                done.push(new);
                assert(done.deep_view() =~= made.push(new.deep_view()));
            },
            Err(why) => {
                proof {
                    lemma_gathered_stops(aims, at + 1);
                }
                return Err(why);
            },
        }
        i = i + 1;
    }
    assert(aims.take(done.len() as int) =~= aims);
    *list = done;
    Ok(())
}

fn try_equation<F: Fn(&Expr) -> Result<Expr, String>>(
    one: &EquationItem,
    f: &F,
    g: Ghost<spec_fn(ExprV) -> Result<ExprV, Seq<char>>>,
) -> (r: Result<EquationItem, String>)
    requires
        computes_or_fails(*f, g@),
    ensures
        told(r) == tried_equation(g@, one.deep_view()),
{
    let lhs = match f(&one.lhs) {
        Ok(lhs) => lhs,
        Err(why) => {
            return Err(why);
        },
    };
    match f(&one.rhs) {
        Ok(rhs) => Ok(EquationItem { lhs, rhs, origin: one.origin.clone() }),
        Err(why) => Err(why),
    }
}

pub open spec fn tried_equations(
    g: spec_fn(ExprV) -> Result<ExprV, Seq<char>>,
    list: Seq<EquationV>,
) -> Result<Seq<EquationV>, Seq<char>> {
    gathered(Seq::new(list.len(), |i: int| tried_equation(g, list[i])))
}

/// Rewrite both sides of every equation, or stop at the first that fails.
pub fn try_equations<F: Fn(&Expr) -> Result<Expr, String>>(
    list: &mut Vec<EquationItem>,
    f: &F,
    g: Ghost<spec_fn(ExprV) -> Result<ExprV, Seq<char>>>,
) -> (r: Result<(), String>)
    requires
        computes_or_fails(*f, g@),
    ensures
        match tried_equations(g@, old(list).deep_view()) {
            Ok(made) => r is Ok && final(list).deep_view() == made,
            Err(trouble) => r matches Err(why) && why@ == trouble,
        },
{
    let ghost all = list.deep_view();
    let ghost aims = Seq::new(all.len(), |i: int| tried_equation(g@, all[i]));
    let mut done: Vec<EquationItem> = Vec::new();
    proof {
        assert(aims.take(0) =~= Seq::empty());
        assert(done.deep_view() =~= Seq::<EquationV>::empty());
    }
    let mut i: usize = 0;
    while i < list.len()
        invariant
            computes_or_fails(*f, g@),
            all == old(list).deep_view(),
            aims.len() == all.len(),
            forall|k: int| 0 <= k < all.len() ==> #[trigger] aims[k] == tried_equation(g@, all[k]),
            i == done.len(),
            i <= list.len(),
            list.deep_view() == all,
            gathered(aims.take(done.len() as int)) == Ok::<Seq<EquationV>, Seq<char>>(done.deep_view()),
            tried_equations(g@, all) == gathered(aims),
        decreases list.len() - i,
    {
        let ghost made = done.deep_view();
        let ghost at = done.len() as int;
        let one = &list[i];
        assert(one.deep_view() == all[at]);
        assert(aims.take(at + 1).drop_last() =~= aims.take(at));
        assert(aims[at] == tried_equation(g@, all[at]));
        match try_equation(one, f, g) {
            Ok(new) => {
                done.push(new);
                assert(done.deep_view() =~= made.push(new.deep_view()));
            },
            Err(why) => {
                proof {
                    lemma_gathered_stops(aims, at + 1);
                }
                return Err(why);
            },
        }
        i = i + 1;
    }
    assert(aims.take(done.len() as int) =~= aims);
    *list = done;
    Ok(())
}

fn try_assert<F: Fn(&Expr) -> Result<Expr, String>>(
    one: &(Expr, String),
    f: &F,
    g: Ghost<spec_fn(ExprV) -> Result<ExprV, Seq<char>>>,
) -> (r: Result<(Expr, String), String>)
    requires
        computes_or_fails(*f, g@),
    ensures
        told(r) == tried_assert(g@, one.deep_view()),
{
    match f(&one.0) {
        Ok(condition) => Ok((condition, one.1.clone())),
        Err(why) => Err(why),
    }
}

pub open spec fn tried_asserts(
    g: spec_fn(ExprV) -> Result<ExprV, Seq<char>>,
    list: Seq<(ExprV, Seq<char>)>,
) -> Result<Seq<(ExprV, Seq<char>)>, Seq<char>> {
    gathered(Seq::new(list.len(), |i: int| tried_assert(g, list[i])))
}

/// Rewrite the condition of every check, or stop at the first that fails.
pub fn try_asserts<F: Fn(&Expr) -> Result<Expr, String>>(
    list: &mut Vec<(Expr, String)>,
    f: &F,
    g: Ghost<spec_fn(ExprV) -> Result<ExprV, Seq<char>>>,
) -> (r: Result<(), String>)
    requires
        computes_or_fails(*f, g@),
    ensures
        match tried_asserts(g@, old(list).deep_view()) {
            Ok(made) => r is Ok && final(list).deep_view() == made,
            Err(trouble) => r matches Err(why) && why@ == trouble,
        },
{
    let ghost all = list.deep_view();
    let ghost aims = Seq::new(all.len(), |i: int| tried_assert(g@, all[i]));
    let mut done: Vec<(Expr, String)> = Vec::new();
    proof {
        assert(aims.take(0) =~= Seq::empty());
        assert(done.deep_view() =~= Seq::<(ExprV, Seq<char>)>::empty());
    }
    let mut i: usize = 0;
    while i < list.len()
        invariant
            computes_or_fails(*f, g@),
            all == old(list).deep_view(),
            aims.len() == all.len(),
            forall|k: int| 0 <= k < all.len() ==> #[trigger] aims[k] == tried_assert(g@, all[k]),
            i == done.len(),
            i <= list.len(),
            list.deep_view() == all,
            gathered(aims.take(done.len() as int)) == Ok::<Seq<(ExprV, Seq<char>)>, Seq<char>>(done.deep_view()),
            tried_asserts(g@, all) == gathered(aims),
        decreases list.len() - i,
    {
        let ghost made = done.deep_view();
        let ghost at = done.len() as int;
        let one = &list[i];
        assert(one.deep_view() == all[at]);
        assert(aims.take(at + 1).drop_last() =~= aims.take(at));
        assert(aims[at] == tried_assert(g@, all[at]));
        match try_assert(one, f, g) {
            Ok(new) => {
                done.push(new);
                assert(done.deep_view() =~= made.push(new.deep_view()));
            },
            Err(why) => {
                proof {
                    lemma_gathered_stops(aims, at + 1);
                }
                return Err(why);
            },
        }
        i = i + 1;
    }
    assert(aims.take(done.len() as int) =~= aims);
    *list = done;
    Ok(())
}

fn try_action<F: Fn(&Expr) -> Result<Expr, String>>(
    one: WhenAction,
    f: &F,
    g: Ghost<spec_fn(ExprV) -> Result<ExprV, Seq<char>>>,
) -> (r: Result<WhenAction, String>)
    requires
        computes_or_fails(*f, g@),
    ensures
        told(r) == tried_action(g@, one.deep_view()),
{
    match one {
        WhenAction::Assign(name, value) => match f(&value) {
            Ok(value) => Ok(WhenAction::Assign(name, value)),
            Err(why) => Err(why),
        },
        WhenAction::Reinit(name, value) => match f(&value) {
            Ok(value) => Ok(WhenAction::Reinit(name, value)),
            Err(why) => Err(why),
        },
        WhenAction::TupleAssign(names, value) => match f(&value) {
            Ok(value) => Ok(WhenAction::TupleAssign(names, value)),
            Err(why) => Err(why),
        },
        WhenAction::Assert(condition, message) => match f(&condition) {
            Ok(condition) => Ok(WhenAction::Assert(condition, message)),
            Err(why) => Err(why),
        },
        other => Ok(other),
    }
}

pub open spec fn tried_actions(
    g: spec_fn(ExprV) -> Result<ExprV, Seq<char>>,
    list: Seq<WhenActionV>,
) -> Result<Seq<WhenActionV>, Seq<char>> {
    gathered(Seq::new(list.len(), |i: int| tried_action(g, list[i])))
}

/// Rewrite every action, or stop at the first that fails.
fn try_actions<F: Fn(&Expr) -> Result<Expr, String>>(
    list: &mut Vec<WhenAction>,
    f: &F,
    g: Ghost<spec_fn(ExprV) -> Result<ExprV, Seq<char>>>,
) -> (r: Result<(), String>)
    requires
        computes_or_fails(*f, g@),
    ensures
        match tried_actions(g@, old(list).deep_view()) {
            Ok(made) => r is Ok && final(list).deep_view() == made,
            Err(trouble) => r matches Err(why) && why@ == trouble,
        },
{
    let ghost all = list.deep_view();
    let ghost aims = Seq::new(all.len(), |i: int| tried_action(g@, all[i]));
    let mut done: Vec<WhenAction> = Vec::new();
    proof {
        assert(aims.take(0) =~= Seq::empty());
        assert(done.deep_view() =~= Seq::<WhenActionV>::empty());
    }
    while list.len() > 0
        invariant
            computes_or_fails(*f, g@),
            all == old(list).deep_view(),
            aims.len() == all.len(),
            forall|k: int| 0 <= k < all.len() ==> #[trigger] aims[k] == tried_action(g@, all[k]),
            list.len() + done.len() == all.len(),
            list.deep_view() == all.skip(done.len() as int),
            gathered(aims.take(done.len() as int)) == Ok::<Seq<WhenActionV>, Seq<char>>(done.deep_view()),
            tried_actions(g@, all) == gathered(aims),
        decreases list.len(),
    {
        let ghost before = list.deep_view();
        let ghost made = done.deep_view();
        let ghost at = done.len() as int;
        let one = list.remove(0);
        assert(list.deep_view() =~= before.drop_first());
        assert(list.deep_view() =~= all.skip(at + 1));
        assert(one.deep_view() == before[0]);
        assert(aims.take(at + 1).drop_last() =~= aims.take(at));
        assert(aims[at] == tried_action(g@, all[at]));
        match try_action(one, f, g) {
            Ok(new) => {
                done.push(new);
                assert(done.deep_view() =~= made.push(new.deep_view()));
            },
            Err(why) => {
                proof {
                    lemma_gathered_stops(aims, at + 1);
                }
                return Err(why);
            },
        }
    }
    assert(aims.take(done.len() as int) =~= aims);
    *list = done;
    Ok(())
}

fn try_branch<F: Fn(&Expr) -> Result<Expr, String>>(
    one: WhenBranch,
    f: &F,
    g: Ghost<spec_fn(ExprV) -> Result<ExprV, Seq<char>>>,
) -> (r: Result<WhenBranch, String>)
    requires
        computes_or_fails(*f, g@),
    ensures
        told(r) == tried_branch(g@, one.deep_view()),
{
    let condition = match f(&one.condition) {
        Ok(condition) => condition,
        Err(why) => {
            return Err(why);
        },
    };
    let mut actions = one.actions;
    match try_actions(&mut actions, f, g) {
        Ok(_) => Ok(WhenBranch { condition, actions }),
        Err(why) => Err(why),
    }
}

pub open spec fn tried_branches(
    g: spec_fn(ExprV) -> Result<ExprV, Seq<char>>,
    list: Seq<WhenBranchV>,
) -> Result<Seq<WhenBranchV>, Seq<char>> {
    gathered(Seq::new(list.len(), |i: int| tried_branch(g, list[i])))
}

/// Rewrite every branch, or stop at the first that fails.
fn try_branches<F: Fn(&Expr) -> Result<Expr, String>>(
    list: &mut Vec<WhenBranch>,
    f: &F,
    g: Ghost<spec_fn(ExprV) -> Result<ExprV, Seq<char>>>,
) -> (r: Result<(), String>)
    requires
        computes_or_fails(*f, g@),
    ensures
        match tried_branches(g@, old(list).deep_view()) {
            Ok(made) => r is Ok && final(list).deep_view() == made,
            Err(trouble) => r matches Err(why) && why@ == trouble,
        },
{
    let ghost all = list.deep_view();
    let ghost aims = Seq::new(all.len(), |i: int| tried_branch(g@, all[i]));
    let mut done: Vec<WhenBranch> = Vec::new();
    proof {
        assert(aims.take(0) =~= Seq::empty());
        assert(done.deep_view() =~= Seq::<WhenBranchV>::empty());
    }
    while list.len() > 0
        invariant
            computes_or_fails(*f, g@),
            all == old(list).deep_view(),
            aims.len() == all.len(),
            forall|k: int| 0 <= k < all.len() ==> #[trigger] aims[k] == tried_branch(g@, all[k]),
            list.len() + done.len() == all.len(),
            list.deep_view() == all.skip(done.len() as int),
            gathered(aims.take(done.len() as int)) == Ok::<Seq<WhenBranchV>, Seq<char>>(done.deep_view()),
            tried_branches(g@, all) == gathered(aims),
        decreases list.len(),
    {
        let ghost before = list.deep_view();
        let ghost made = done.deep_view();
        let ghost at = done.len() as int;
        let one = list.remove(0);
        assert(list.deep_view() =~= before.drop_first());
        assert(list.deep_view() =~= all.skip(at + 1));
        assert(one.deep_view() == before[0]);
        assert(aims.take(at + 1).drop_last() =~= aims.take(at));
        assert(aims[at] == tried_branch(g@, all[at]));
        match try_branch(one, f, g) {
            Ok(new) => {
                done.push(new);
                assert(done.deep_view() =~= made.push(new.deep_view()));
            },
            Err(why) => {
                proof {
                    lemma_gathered_stops(aims, at + 1);
                }
                return Err(why);
            },
        }
    }
    assert(aims.take(done.len() as int) =~= aims);
    *list = done;
    Ok(())
}

fn try_clause<F: Fn(&Expr) -> Result<Expr, String>>(
    one: WhenClause,
    f: &F,
    g: Ghost<spec_fn(ExprV) -> Result<ExprV, Seq<char>>>,
) -> (r: Result<WhenClause, String>)
    requires
        computes_or_fails(*f, g@),
    ensures
        told(r) == tried_clause(g@, one.deep_view()),
{
    let mut branches = one.branches;
    match try_branches(&mut branches, f, g) {
        Ok(_) => Ok(WhenClause { branches, origin: one.origin }),
        Err(why) => Err(why),
    }
}

pub open spec fn tried_clauses(
    g: spec_fn(ExprV) -> Result<ExprV, Seq<char>>,
    list: Seq<WhenClauseV>,
) -> Result<Seq<WhenClauseV>, Seq<char>> {
    gathered(Seq::new(list.len(), |i: int| tried_clause(g, list[i])))
}

/// Rewrite what every `when` clause fires on and does, or stop at the first failure.
pub fn try_clauses<F: Fn(&Expr) -> Result<Expr, String>>(
    list: &mut Vec<WhenClause>,
    f: &F,
    g: Ghost<spec_fn(ExprV) -> Result<ExprV, Seq<char>>>,
) -> (r: Result<(), String>)
    requires
        computes_or_fails(*f, g@),
    ensures
        match tried_clauses(g@, old(list).deep_view()) {
            Ok(made) => r is Ok && final(list).deep_view() == made,
            Err(trouble) => r matches Err(why) && why@ == trouble,
        },
{
    let ghost all = list.deep_view();
    let ghost aims = Seq::new(all.len(), |i: int| tried_clause(g@, all[i]));
    let mut done: Vec<WhenClause> = Vec::new();
    proof {
        assert(aims.take(0) =~= Seq::empty());
        assert(done.deep_view() =~= Seq::<WhenClauseV>::empty());
    }
    while list.len() > 0
        invariant
            computes_or_fails(*f, g@),
            all == old(list).deep_view(),
            aims.len() == all.len(),
            forall|k: int| 0 <= k < all.len() ==> #[trigger] aims[k] == tried_clause(g@, all[k]),
            list.len() + done.len() == all.len(),
            list.deep_view() == all.skip(done.len() as int),
            gathered(aims.take(done.len() as int)) == Ok::<Seq<WhenClauseV>, Seq<char>>(done.deep_view()),
            tried_clauses(g@, all) == gathered(aims),
        decreases list.len(),
    {
        let ghost before = list.deep_view();
        let ghost made = done.deep_view();
        let ghost at = done.len() as int;
        let one = list.remove(0);
        assert(list.deep_view() =~= before.drop_first());
        assert(list.deep_view() =~= all.skip(at + 1));
        assert(one.deep_view() == before[0]);
        assert(aims.take(at + 1).drop_last() =~= aims.take(at));
        assert(aims[at] == tried_clause(g@, all[at]));
        match try_clause(one, f, g) {
            Ok(new) => {
                done.push(new);
                assert(done.deep_view() =~= made.push(new.deep_view()));
            },
            Err(why) => {
                proof {
                    lemma_gathered_stops(aims, at + 1);
                }
                return Err(why);
            },
        }
    }
    assert(aims.take(done.len() as int) =~= aims);
    *list = done;
    Ok(())
}

fn try_body<F: Fn(&Expr) -> Result<Expr, String>>(
    one: Vec<EquationItem>,
    f: &F,
    g: Ghost<spec_fn(ExprV) -> Result<ExprV, Seq<char>>>,
) -> (r: Result<Vec<EquationItem>, String>)
    requires
        computes_or_fails(*f, g@),
    ensures
        told(r) == tried_equations(g@, one.deep_view()),
{
    let mut body = one;
    match try_equations(&mut body, f, g) {
        Ok(_) => Ok(body),
        Err(why) => Err(why),
    }
}

pub open spec fn tried_bodies(
    g: spec_fn(ExprV) -> Result<ExprV, Seq<char>>,
    list: Seq<Seq<EquationV>>,
) -> Result<Seq<Seq<EquationV>>, Seq<char>> {
    gathered(Seq::new(list.len(), |i: int| tried_equations(g, list[i])))
}

/// Rewrite the equations of every branch, or stop at the first failure.
fn try_bodies<F: Fn(&Expr) -> Result<Expr, String>>(
    list: &mut Vec<Vec<EquationItem>>,
    f: &F,
    g: Ghost<spec_fn(ExprV) -> Result<ExprV, Seq<char>>>,
) -> (r: Result<(), String>)
    requires
        computes_or_fails(*f, g@),
    ensures
        match tried_bodies(g@, old(list).deep_view()) {
            Ok(made) => r is Ok && final(list).deep_view() == made,
            Err(trouble) => r matches Err(why) && why@ == trouble,
        },
{
    let ghost all = list.deep_view();
    let ghost aims = Seq::new(all.len(), |i: int| tried_equations(g@, all[i]));
    let mut done: Vec<Vec<EquationItem>> = Vec::new();
    proof {
        assert(aims.take(0) =~= Seq::empty());
        assert(done.deep_view() =~= Seq::<Seq<EquationV>>::empty());
    }
    while list.len() > 0
        invariant
            computes_or_fails(*f, g@),
            all == old(list).deep_view(),
            aims.len() == all.len(),
            forall|k: int| 0 <= k < all.len() ==> #[trigger] aims[k] == tried_equations(g@, all[k]),
            list.len() + done.len() == all.len(),
            list.deep_view() == all.skip(done.len() as int),
            gathered(aims.take(done.len() as int)) == Ok::<Seq<Seq<EquationV>>, Seq<char>>(done.deep_view()),
            tried_bodies(g@, all) == gathered(aims),
        decreases list.len(),
    {
        let ghost before = list.deep_view();
        let ghost made = done.deep_view();
        let ghost at = done.len() as int;
        let one = list.remove(0);
        assert(list.deep_view() =~= before.drop_first());
        assert(list.deep_view() =~= all.skip(at + 1));
        assert(one.deep_view() == before[0]);
        assert(aims.take(at + 1).drop_last() =~= aims.take(at));
        assert(aims[at] == tried_equations(g@, all[at]));
        match try_body(one, f, g) {
            Ok(new) => {
                done.push(new);
                assert(done.deep_view() =~= made.push(new.deep_view()));
            },
            Err(why) => {
                proof {
                    lemma_gathered_stops(aims, at + 1);
                }
                return Err(why);
            },
        }
    }
    assert(aims.take(done.len() as int) =~= aims);
    *list = done;
    Ok(())
}

fn try_conditional<F: Fn(&Expr) -> Result<Expr, String>>(
    one: ConditionalEquations,
    f: &F,
    g: Ghost<spec_fn(ExprV) -> Result<ExprV, Seq<char>>>,
) -> (r: Result<ConditionalEquations, String>)
    requires
        computes_or_fails(*f, g@),
    ensures
        told(r) == tried_conditional(g@, one.deep_view()),
{
    let mut conditions = one.conditions;
    if let Err(why) = try_exprs(&mut conditions, f, g) {
        return Err(why);
    }
    let mut branches = one.branches;
    match try_bodies(&mut branches, f, g) {
        Ok(_) => Ok(ConditionalEquations { conditions, branches }),
        Err(why) => Err(why),
    }
}

pub open spec fn tried_conditionals(
    g: spec_fn(ExprV) -> Result<ExprV, Seq<char>>,
    list: Seq<ConditionalV>,
) -> Result<Seq<ConditionalV>, Seq<char>> {
    gathered(Seq::new(list.len(), |i: int| tried_conditional(g, list[i])))
}

/// Rewrite every `if` equation that travels to the run, or stop at the first failure.
pub fn try_conditionals<F: Fn(&Expr) -> Result<Expr, String>>(
    list: &mut Vec<ConditionalEquations>,
    f: &F,
    g: Ghost<spec_fn(ExprV) -> Result<ExprV, Seq<char>>>,
) -> (r: Result<(), String>)
    requires
        computes_or_fails(*f, g@),
    ensures
        match tried_conditionals(g@, old(list).deep_view()) {
            Ok(made) => r is Ok && final(list).deep_view() == made,
            Err(trouble) => r matches Err(why) && why@ == trouble,
        },
{
    let ghost all = list.deep_view();
    let ghost aims = Seq::new(all.len(), |i: int| tried_conditional(g@, all[i]));
    let mut done: Vec<ConditionalEquations> = Vec::new();
    proof {
        assert(aims.take(0) =~= Seq::empty());
        assert(done.deep_view() =~= Seq::<ConditionalV>::empty());
    }
    while list.len() > 0
        invariant
            computes_or_fails(*f, g@),
            all == old(list).deep_view(),
            aims.len() == all.len(),
            forall|k: int| 0 <= k < all.len() ==> #[trigger] aims[k] == tried_conditional(g@, all[k]),
            list.len() + done.len() == all.len(),
            list.deep_view() == all.skip(done.len() as int),
            gathered(aims.take(done.len() as int)) == Ok::<Seq<ConditionalV>, Seq<char>>(done.deep_view()),
            tried_conditionals(g@, all) == gathered(aims),
        decreases list.len(),
    {
        let ghost before = list.deep_view();
        let ghost made = done.deep_view();
        let ghost at = done.len() as int;
        let one = list.remove(0);
        assert(list.deep_view() =~= before.drop_first());
        assert(list.deep_view() =~= all.skip(at + 1));
        assert(one.deep_view() == before[0]);
        assert(aims.take(at + 1).drop_last() =~= aims.take(at));
        assert(aims[at] == tried_conditional(g@, all[at]));
        match try_conditional(one, f, g) {
            Ok(new) => {
                done.push(new);
                assert(done.deep_view() =~= made.push(new.deep_view()));
            },
            Err(why) => {
                proof {
                    lemma_gathered_stops(aims, at + 1);
                }
                return Err(why);
            },
        }
    }
    assert(aims.take(done.len() as int) =~= aims);
    *list = done;
    Ok(())
}

}
