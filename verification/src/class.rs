//! Classes as they are written, and the flat model they come to.
use crate::expr::{Expr, ExprV};
use crate::number::Number;
use vstd::prelude::*;

verus! {

#[derive(Clone, Copy, Debug, PartialEq, Eq, Structural)]
pub enum ClassKind {
    Class,
    Model,
    Block,
    Connector,
    Record,
    Package,
    Function,
    Type,
    Operator,
}

#[derive(Clone, Copy, Debug, PartialEq, Eq, Structural)]
pub enum Causality {
    Acausal,
    Input,
    Output,
}

#[derive(Clone, Copy, Debug, PartialEq, Eq, Structural)]
pub enum Variability {
    Continuous,
    Discrete,
    Parameter,
    Constant,
}

#[derive(Clone, Copy, Debug, PartialEq, Eq, Structural)]
pub enum Scope {
    Local,
    Inner,
    Outer,
}

/// A declaration of a class.
#[derive(Debug)]
pub struct Component {
    pub name: String,
    pub of_type: String,
    pub flow: bool,
    pub stream: bool,
    pub dimensions: Vec<Expr>,
    pub causality: Causality,
    pub modifiers: Vec<(String, Expr)>,
    pub variability: Variability,
    pub start: Option<Expr>,
    pub fixed: Option<bool>,
    pub unit: Option<String>,
    pub min: Option<Expr>,
    pub max: Option<Expr>,
    pub binding: Option<Expr>,
    pub description: Option<String>,
    pub scope: Scope,
    pub replaceable: bool,
    pub constrained_by: Option<String>,
    pub condition: Option<Expr>,
    pub redeclares: Vec<Redeclare>,
    pub redeclaration: bool,
    pub is_final: bool,
    pub protected: bool,
    /// Names of the modifiers written `each`.
    pub each_modifiers: Vec<String>,
    pub annotations: Vec<Expr>,
}

/// `redeclare Type name(...)`, as a modifier.
#[derive(Debug)]
pub struct Redeclare {
    pub name: String,
    pub of_type: String,
    pub modifiers: Vec<(String, Expr)>,
    /// Whether a class is replaced rather than a component.
    pub class_level: bool,
}

/// What a selective `extends` leaves out.
#[derive(Debug)]
pub enum Deselect {
    Component(String),
    Connection(String, String),
}

/// `extends Base(...)`.
#[derive(Debug)]
pub struct Extends {
    pub base: String,
    pub modifiers: Vec<(String, Expr)>,
    pub redeclares: Vec<Redeclare>,
    pub broken: Vec<Deselect>,
    /// Whether the base is the class of this name that the enclosing class
    /// inherits: `redeclare model extends M`.
    pub from_base: bool,
}

/// A short definition inside a class: `package P = Q(...)`.
#[derive(Debug)]
pub struct ClassAlias {
    pub name: String,
    pub target: String,
    pub redeclaration: bool,
    pub replaceable: bool,
    pub constrained_by: Option<String>,
    pub modifiers: Vec<(String, Expr)>,
    pub connector: bool,
}

#[derive(Debug)]
pub struct EquationItem {
    pub lhs: Expr,
    pub rhs: Expr,
    /// The instance the equation was written in.
    pub origin: String,
}

#[derive(Debug)]
pub struct WhenClause {
    pub branches: Vec<WhenBranch>,
    pub origin: String,
}

#[derive(Debug)]
pub struct WhenBranch {
    pub condition: Expr,
    pub actions: Vec<WhenAction>,
}

#[derive(Debug)]
pub enum WhenAction {
    Assign(String, Expr),
    Reinit(String, Expr),
    TupleAssign(Vec<Option<String>>, Expr),
    Terminate(String),
    Call(String, Vec<Expr>),
    Assert(Expr, String),
    Loop(ForEquation),
    Choice(IfEquation),
}

#[derive(Debug)]
pub struct ForEquation {
    pub variable: String,
    pub range: Option<Expr>,
    pub body: Vec<ForBody>,
}

#[derive(Debug)]
pub enum ForBody {
    Equation(EquationItem),
    Connect(Expr, Expr),
    Assert(Expr, String),
    Nested(ForEquation),
    Branch(IfEquation),
}

#[derive(Debug)]
pub struct IfEquation {
    pub branches: Vec<IfBranch>,
    pub initial: bool,
}

#[derive(Debug)]
pub struct IfBranch {
    pub condition: Option<Expr>,
    pub equations: Vec<EquationItem>,
    pub connects: Vec<(Expr, Expr)>,
    pub asserts: Vec<(Expr, String)>,
    pub calls: Vec<Expr>,
    pub loops: Vec<ForEquation>,
    pub whens: Vec<WhenClause>,
    pub graph: Vec<GraphClause>,
}

#[derive(Debug)]
pub enum Statement {
    Assign(String, Vec<Expr>, Expr),
    TupleAssign(Vec<Option<(String, Vec<Expr>)>>, Expr),
    If(Vec<StatementBranch>),
    When(Vec<StatementBranch>),
    For(String, Option<Expr>, Vec<Statement>),
    While(Expr, Vec<Statement>),
    Assert(Expr, String),
    Call(String, Vec<Expr>),
    Break,
    Return,
}

#[derive(Debug)]
pub struct StatementBranch {
    pub condition: Option<Expr>,
    pub body: Vec<Statement>,
}

/// An arrow of a state machine.
#[derive(Debug)]
pub struct Transition {
    pub from: String,
    pub to: String,
    pub condition: Expr,
    pub reset: bool,
    pub immediate: bool,
    pub synchronize: bool,
    pub priority: i64,
}

/// A clause of the overconstrained connection graph.
#[derive(Debug)]
pub enum GraphClause {
    Root(String),
    PotentialRoot(String, i64),
    Branch(String, String),
}

/// A clause of the connection graph, mathematically.
pub ghost enum GraphClauseV {
    Root(Seq<char>),
    PotentialRoot(Seq<char>, i64),
    Branch(Seq<char>, Seq<char>),
}

impl DeepView for GraphClause {
    type V = GraphClauseV;

    open spec fn deep_view(&self) -> GraphClauseV {
        match self {
            GraphClause::Root(node) => GraphClauseV::Root(node@),
            GraphClause::PotentialRoot(node, priority) => GraphClauseV::PotentialRoot(
                node@,
                *priority,
            ),
            GraphClause::Branch(a, b) => GraphClauseV::Branch(a@, b@),
        }
    }
}

/// What an `external` section calls.
#[derive(Debug)]
pub struct ExternalCall {
    pub called: String,
    pub arguments: Vec<Expr>,
    pub language: Option<String>,
}

/// The settings of a run: start and stop time, step and tolerance.
#[derive(Debug)]
pub struct Experiment {
    pub settings: Vec<(String, Number)>,
}

/// A class as it is written.
#[derive(Debug)]
pub struct ClassDef {
    pub kind: ClassKind,
    pub name: String,
    pub description: Option<String>,
    pub annotations: Vec<Expr>,
    pub partial: bool,
    pub encapsulated: bool,
    pub expandable: bool,
    pub extends: Vec<Extends>,
    pub imports: Vec<(String, String)>,
    pub components: Vec<Component>,
    pub class_aliases: Vec<ClassAlias>,
    pub enumeration: Vec<String>,
    pub alias_of: Option<(String, Vec<(String, Expr)>)>,
    pub alias_dimensions: Vec<Expr>,
    pub alias_unit: Option<String>,
    pub alias_causality: Causality,
    pub equations: Vec<EquationItem>,
    pub initial_equations: Vec<EquationItem>,
    pub connects: Vec<(Expr, Expr)>,
    pub asserts: Vec<(Expr, String)>,
    pub calls: Vec<Expr>,
    pub for_equations: Vec<ForEquation>,
    pub if_equations: Vec<IfEquation>,
    pub when_clauses: Vec<WhenClause>,
    pub algorithm: Vec<Statement>,
    pub initial_algorithm: Vec<Statement>,
    pub transitions: Vec<Transition>,
    pub initial_state: Option<String>,
    pub connection_graph: Vec<GraphClause>,
    pub experiment: Option<Experiment>,
    pub external: bool,
    pub external_call: Option<ExternalCall>,
    pub builtin: Option<String>,
    pub derivative: Option<String>,
    pub inverse: Vec<(String, String, Vec<String>)>,
}

/// `import A.*;` is kept under this name.
pub const WILDCARD_IMPORT: &'static str = "*";

/// How deep one class may stand inside another, or a name inside a name.
pub const MAX_DEPTH: usize = 32;

/// What a declaration is, mathematically.
pub ghost struct ComponentV {
    pub name: Seq<char>,
    pub of_type: Seq<char>,
    pub flow: bool,
    pub stream: bool,
    pub dimensions: Seq<ExprV>,
    pub causality: Causality,
    pub modifiers: Seq<(Seq<char>, ExprV)>,
    pub variability: Variability,
    pub start: Option<ExprV>,
    pub fixed: Option<bool>,
    pub unit: Option<Seq<char>>,
    pub min: Option<ExprV>,
    pub max: Option<ExprV>,
    pub binding: Option<ExprV>,
    pub description: Option<Seq<char>>,
    pub scope: Scope,
    pub replaceable: bool,
    pub constrained_by: Option<Seq<char>>,
    pub condition: Option<ExprV>,
    pub redeclares: Seq<RedeclareV>,
    pub redeclaration: bool,
    pub is_final: bool,
    pub protected: bool,
    pub each_modifiers: Seq<Seq<char>>,
    pub annotations: Seq<ExprV>,
}

pub ghost struct RedeclareV {
    pub name: Seq<char>,
    pub of_type: Seq<char>,
    pub modifiers: Seq<(Seq<char>, ExprV)>,
    pub class_level: bool,
}

pub ghost struct EquationV {
    pub lhs: ExprV,
    pub rhs: ExprV,
    pub origin: Seq<char>,
}

/// The settings of a run, mathematically.
pub ghost struct ExperimentV {
    pub settings: Seq<(Seq<char>, Number)>,
}

impl DeepView for Experiment {
    type V = ExperimentV;

    open spec fn deep_view(&self) -> ExperimentV {
        ExperimentV { settings: self.settings.deep_view() }
    }
}

impl Clone for Experiment {
    fn clone(&self) -> (r: Self)
        ensures
            r.deep_view() == self.deep_view(),
    {
        let mut settings: Vec<(String, Number)> = Vec::new();
        let mut i: usize = 0;
        while i < self.settings.len()
            invariant
                i <= self.settings.len(),
                settings.len() == i,
                forall|k: int|
                    0 <= k < i ==> (#[trigger] settings@[k]).deep_view()
                        == self.settings@[k].deep_view(),
            decreases self.settings.len() - i,
        {
            settings.push((self.settings[i].0.clone(), self.settings[i].1));
            i = i + 1;
        }
        assert(settings.deep_view() =~= self.settings.deep_view());
        Experiment { settings }
    }
}

/// Whether a class holds nothing but its name, its kind, what an enumeration
/// lists, and whether it is partial.
pub open spec fn is_bare(class: ClassDef) -> bool {
    &&& class.description is None
    &&& class.annotations@.len() == 0
    &&& !class.encapsulated
    &&& !class.expandable
    &&& class.extends@.len() == 0
    &&& class.imports@.len() == 0
    &&& class.components@.len() == 0
    &&& class.class_aliases@.len() == 0
    &&& class.alias_of is None
    &&& class.alias_dimensions@.len() == 0
    &&& class.alias_unit is None
    &&& class.alias_causality == Causality::Acausal
    &&& class.equations@.len() == 0
    &&& class.initial_equations@.len() == 0
    &&& class.connects@.len() == 0
    &&& class.asserts@.len() == 0
    &&& class.calls@.len() == 0
    &&& class.for_equations@.len() == 0
    &&& class.if_equations@.len() == 0
    &&& class.when_clauses@.len() == 0
    &&& class.algorithm@.len() == 0
    &&& class.initial_algorithm@.len() == 0
    &&& class.transitions@.len() == 0
    &&& class.initial_state is None
    &&& class.connection_graph@.len() == 0
    &&& class.experiment is None
    &&& !class.external
    &&& class.external_call is None
    &&& class.builtin is None
    &&& class.derivative is None
    &&& class.inverse@.len() == 0
}

impl ClassDef {
    /// A class with nothing in it.
    pub fn empty(kind: ClassKind, name: &str) -> (r: ClassDef)
        ensures
            is_bare(r),
            r.kind == kind,
            r.name@ == name@,
            r.enumeration@.len() == 0,
            !r.partial,
    {
        ClassDef {
            kind,
            name: name.to_owned(),
            description: None,
            annotations: Vec::new(),
            partial: false,
            encapsulated: false,
            expandable: false,
            extends: Vec::new(),
            imports: Vec::new(),
            components: Vec::new(),
            class_aliases: Vec::new(),
            enumeration: Vec::new(),
            alias_of: None,
            alias_dimensions: Vec::new(),
            alias_unit: None,
            alias_causality: Causality::Acausal,
            equations: Vec::new(),
            initial_equations: Vec::new(),
            connects: Vec::new(),
            asserts: Vec::new(),
            calls: Vec::new(),
            for_equations: Vec::new(),
            if_equations: Vec::new(),
            when_clauses: Vec::new(),
            algorithm: Vec::new(),
            initial_algorithm: Vec::new(),
            transitions: Vec::new(),
            initial_state: None,
            connection_graph: Vec::new(),
            experiment: None,
            external: false,
            external_call: None,
            builtin: None,
            derivative: None,
            inverse: Vec::new(),
        }
    }
}

impl DeepView for Redeclare {
    type V = RedeclareV;

    open spec fn deep_view(&self) -> RedeclareV {
        RedeclareV {
            name: self.name@,
            of_type: self.of_type@,
            modifiers: self.modifiers.deep_view(),
            class_level: self.class_level,
        }
    }
}

impl DeepView for Component {
    type V = ComponentV;

    open spec fn deep_view(&self) -> ComponentV {
        ComponentV {
            name: self.name@,
            of_type: self.of_type@,
            flow: self.flow,
            stream: self.stream,
            dimensions: self.dimensions.deep_view(),
            causality: self.causality,
            modifiers: self.modifiers.deep_view(),
            variability: self.variability,
            start: self.start.deep_view(),
            fixed: self.fixed,
            unit: self.unit.deep_view(),
            min: self.min.deep_view(),
            max: self.max.deep_view(),
            binding: self.binding.deep_view(),
            description: self.description.deep_view(),
            scope: self.scope,
            replaceable: self.replaceable,
            constrained_by: self.constrained_by.deep_view(),
            condition: self.condition.deep_view(),
            redeclares: self.redeclares.deep_view(),
            redeclaration: self.redeclaration,
            is_final: self.is_final,
            protected: self.protected,
            each_modifiers: self.each_modifiers.deep_view(),
            annotations: self.annotations.deep_view(),
        }
    }
}

impl DeepView for EquationItem {
    type V = EquationV;

    open spec fn deep_view(&self) -> EquationV {
        EquationV {
            lhs: self.lhs.deep_view(),
            rhs: self.rhs.deep_view(),
            origin: self.origin@,
        }
    }
}

/// A copy of every item of a list.
pub fn copied<T: Clone + DeepView>(items: &Vec<T>) -> (r: Vec<T>)
    requires
        clones_faithfully::<T>(),
    ensures
        r.deep_view() == items.deep_view(),
{
    let mut out: Vec<T> = Vec::new();
    let mut i: usize = 0;
    while i < items.len()
        invariant
            i <= items.len(),
            out.len() == i,
            clones_faithfully::<T>(),
            forall|k: int| 0 <= k < i ==> (#[trigger] out@[k]).deep_view() == items@[k].deep_view(),
        decreases items.len() - i,
    {
        out.push(items[i].clone());
        i = i + 1;
    }
    assert(out.deep_view() =~= items.deep_view());
    out
}

/// Whether a copy of a value always stands for the same thing as the value.
pub open spec fn clones_faithfully<T: Clone + DeepView>() -> bool {
    forall|a: T, b: T|
        #[trigger] call_ensures(T::clone, (&a,), b) ==> a.deep_view() == b.deep_view()
}

pub fn copied_named(items: &Vec<(String, Expr)>) -> (r: Vec<(String, Expr)>)
    ensures
        r.deep_view() == items.deep_view(),
{
    let mut out: Vec<(String, Expr)> = Vec::new();
    let mut i: usize = 0;
    while i < items.len()
        invariant
            i <= items.len(),
            out.len() == i,
            forall|k: int| 0 <= k < i ==> (#[trigger] out@[k]).deep_view() == items@[k].deep_view(),
        decreases items.len() - i,
    {
        out.push((items[i].0.clone(), items[i].1.clone()));
        i = i + 1;
    }
    assert(out.deep_view() =~= items.deep_view());
    out
}

impl Clone for Redeclare {
    fn clone(&self) -> (r: Self)
        ensures
            r.deep_view() == self.deep_view(),
    {
        Redeclare {
            name: self.name.clone(),
            of_type: self.of_type.clone(),
            modifiers: copied_named(&self.modifiers),
            class_level: self.class_level,
        }
    }
}

impl Clone for EquationItem {
    fn clone(&self) -> (r: Self)
        ensures
            r.deep_view() == self.deep_view(),
    {
        EquationItem {
            lhs: self.lhs.clone(),
            rhs: self.rhs.clone(),
            origin: self.origin.clone(),
        }
    }
}

/// A copy of a value that may not be there.
pub fn copied_value(value: &Option<Expr>) -> (r: Option<Expr>)
    ensures
        r.deep_view() == value.deep_view(),
{
    match value {
        Some(value) => Some(value.clone()),
        None => None,
    }
}

/// A copy of a text that may not be there.
pub fn copied_text(text: &Option<String>) -> (r: Option<String>)
    ensures
        r.deep_view() == text.deep_view(),
{
    match text {
        Some(text) => Some(text.clone()),
        None => None,
    }
}

impl Clone for Component {
    fn clone(&self) -> (r: Self)
        ensures
            r.deep_view() == self.deep_view(),
    {
        Component {
            name: self.name.clone(),
            of_type: self.of_type.clone(),
            flow: self.flow,
            stream: self.stream,
            dimensions: copied(&self.dimensions),
            causality: self.causality,
            modifiers: copied_named(&self.modifiers),
            variability: self.variability,
            start: copied_value(&self.start),
            fixed: self.fixed,
            unit: copied_text(&self.unit),
            min: copied_value(&self.min),
            max: copied_value(&self.max),
            binding: copied_value(&self.binding),
            description: copied_text(&self.description),
            scope: self.scope,
            replaceable: self.replaceable,
            constrained_by: copied_text(&self.constrained_by),
            condition: copied_value(&self.condition),
            redeclares: copied(&self.redeclares),
            redeclaration: self.redeclaration,
            is_final: self.is_final,
            protected: self.protected,
            each_modifiers: copied(&self.each_modifiers),
            annotations: copied(&self.annotations),
        }
    }
}

}
