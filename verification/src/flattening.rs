//! Flattening a model and everything it holds into one system of equations,
//! with every name written out in full.
use crate::buses::{
    build_under, builds, built_by, expand_buses, with_buses, Builder, Maker,
};
use crate::class::{
    copied_text, is_bare, ClassDef, ClassKind, Component, ComponentV, EquationItem, EquationV,
    GraphClause, Transition, Variability,
};
use crate::expr::{expr_view, told, Expr, ExprV};
use crate::external::{first_standing, nothing_left_unanswered, unanswered, values_looked_at};
use crate::flat::{
    asserts_by, clauses_by, conditionals_by, equations_by, nothing_gathered, ConditionalEquations,
    ConditionalV, Flat, FlatV, Model, ModelV,
};
use crate::graph::{choose_roots, roots_of};
use crate::instantiate::copy_texts;
use crate::joins::{all_known, join_the_connections, joined_up, with_joined};
use crate::lookup::{class_named, find_class, Registry};
use crate::number::Number;
use crate::outside::{outside_of, outside_true, Outside, OutsideV, Parts};
use crate::machines::TransitionV;
use crate::partitions::{
    law_lifting_out_keeps_the_rest, law_no_clock_is_left, no_clock_among, partition_clocks,
    partitioned_model,
};
use crate::queries::{
    answered, graph_trouble, say_what_the_graph_answered, tallies, tally, times_named,
    what_the_graph_answers, GraphAnswers,
};
use crate::restrictions::{classes_trouble, what_a_class_may_hold};
use crate::sizes::{measured, measured_components, settle_sizes};
use crate::slices::{settle_member_slices, settled_slices};
use crate::table::{entered, Table};
use crate::text::{join3, same, texts};
use crate::tree::{build_tree, tree_built};
use crate::web::{carried_with, carry_along, is_carried, web_of, Web, WebV};
use vstd::prelude::*;

verus! {

/// The literals of `StateSelect`, from the least to the most insistent.
pub open spec fn insistence() -> Seq<Seq<char>> {
    seq!["never"@, "avoid"@, "default"@, "prefer"@, "always"@]
}

/// The classes the language defines itself: `StateSelect`, the enumeration a
/// model uses to say which variables it would rather have integrated, and
/// `ExternalObject`, the handle a library keeps outside Modelica.
pub open spec fn is_built_in(list: Seq<ClassDef>) -> bool {
    &&& list.len() == 2
    &&& is_bare(list[0])
    &&& list[0].kind == ClassKind::Type
    &&& list[0].name@ == "StateSelect"@
    &&& texts(list[0].enumeration@) == insistence()
    &&& !list[0].partial
    &&& is_bare(list[1])
    &&& list[1].kind == ClassKind::Model
    &&& list[1].name@ == "ExternalObject"@
    &&& list[1].enumeration@.len() == 0
    &&& list[1].partial
}

/// The classes the language defines itself.
pub fn built_in_classes() -> (r: Vec<ClassDef>)
    ensures
        is_built_in(r@),
{
    let mut select = ClassDef::empty(ClassKind::Type, "StateSelect");
    let mut literals: Vec<String> = Vec::new();
    literals.push("never".to_owned());
    literals.push("avoid".to_owned());
    literals.push("default".to_owned());
    literals.push("prefer".to_owned());
    literals.push("always".to_owned());
    assert(texts(literals@) =~= insistence());
    select.enumeration = literals;
    let mut handle = ClassDef::empty(ClassKind::Model, "ExternalObject");
    handle.partial = true;
    let mut out: Vec<ClassDef> = Vec::new();
    out.push(select);
    out.push(handle);
    out
}

/// The classes in view: the built-in ones first, so that a library that
/// declares its own of that name wins.
pub open spec fn in_view<'a>(built_in: Seq<ClassDef>, classes: Seq<ClassDef>) -> Seq<&'a ClassDef> {
    Seq::new(
        built_in.len() + classes.len(),
        |i: int|
            if i < built_in.len() {
                &built_in[i]
            } else {
                &classes[i - built_in.len()]
            },
    )
}

fn put_in_view<'a>(built_in: &'a Vec<ClassDef>, classes: &'a Vec<ClassDef>) -> (r: Registry<'a>)
    ensures
        r@ == in_view(built_in@, classes@),
{
    let ghost all = in_view(built_in@, classes@);
    let mut out: Registry<'a> = Vec::new();
    let mut i: usize = 0;
    while i < built_in.len()
        invariant
            i <= built_in.len(),
            out@.len() == i,
            all == in_view(built_in@, classes@),
            forall|k: int| 0 <= k < i ==> #[trigger] out@[k] == all[k],
        decreases built_in.len() - i,
    {
        out.push(&built_in[i]);
        i = i + 1;
    }
    let mut k: usize = 0;
    while k < classes.len()
        invariant
            k <= classes.len(),
            out@.len() == built_in@.len() + k,
            all == in_view(built_in@, classes@),
            forall|j: int| 0 <= j < out@.len() ==> #[trigger] out@[j] == all[j],
        decreases classes.len() - k,
    {
        out.push(&classes[k]);
        k = k + 1;
    }
    assert(out@ =~= all);
    out
}

/// How often every port is named.
pub open spec fn counted(connects: Seq<(Seq<char>, Seq<char>)>) -> Map<Seq<char>, u64> {
    Map::new(
        |port: Seq<char>| times_named(connects, port) > 0,
        |port: Seq<char>| times_named(connects, port) as u64,
    )
}

proof fn lemma_counted(counts: Map<Seq<char>, u64>, connects: Seq<(Seq<char>, Seq<char>)>)
    requires
        tallies(counts, connects),
    ensures
        counts == counted(connects),
{
    assert(counts =~= counted(connects));
}

/// What is said of more connections than can be counted.
pub open spec fn too_many() -> Seq<char> {
    "the model has more connections than can be counted"@
}

pub open spec fn countable(connects: Seq<(Seq<char>, Seq<char>)>) -> bool {
    2 * connects.len() <= u64::MAX
}

fn can_count(connects: &Vec<(String, String)>) -> (r: bool)
    ensures
        r == countable(connects.deep_view()),
{
    connects.len() as u64 <= u64::MAX / 2
}

/// The whole model built from the top class down, twice where a class asks
/// the connections a question: the first pass is kept only for its graph,
/// and everything is built again with the answers in hand.
pub open spec fn model_built(class: ClassDef, build: Builder) -> Result<FlatV, Seq<char>> {
    match build(class, ""@, nothing_gathered()) {
        Err(why) => Err(why),
        Ok(acc) => if !acc.graph_asked {
            Ok(acc)
        } else {
            match roots_of(acc.connection_graph, acc.connects) {
                Err(why) => Err(why),
                Ok(roots) => if !countable(acc.connects) {
                    Err(too_many())
                } else {
                    build(
                        class,
                        ""@,
                        FlatV {
                            roots,
                            counts: counted(acc.connects),
                            answered: true,
                            ..nothing_gathered()
                        },
                    )
                },
            }
        },
    }
}

/// The whole model built from the top class down, twice where it has to be.
///
/// `Connections.isRoot(frame_a.R)` is a question about the model as a whole:
/// a class asking it cannot be built until the graph is drawn, and the graph
/// is drawn from what building gathers.
pub fn build_the_model<B: Fn(&ClassDef, &str, Flat) -> Result<Flat, String>>(
    registry: &Registry,
    top_class: &ClassDef,
    build: &Maker<B>,
) -> (r: Result<Flat, String>)
    requires
        builds(*build, registry@),
    ensures
        told(r) == model_built(*top_class, built_by(*build)),
        r matches Ok(made) ==> all_known(registry@, made.connectors.deep_view()),
{
    let start = Flat::new();
    assert(all_known(registry@, start.connectors.deep_view())) by {
        assert(start.connectors.entries.deep_view() == Seq::<(Seq<char>, Seq<char>)>::empty());
    }
    let acc = match build_under(build, top_class, "", start, registry) {
        Ok(acc) => acc,
        Err(why) => return Err(why),
    };
    if !acc.graph_asked {
        return Ok(acc);
    }
    let roots = match choose_roots(&acc.connection_graph, &acc.connects) {
        Ok(roots) => roots,
        Err(why) => return Err(why),
    };
    if !can_count(&acc.connects) {
        return Err("the model has more connections than can be counted".to_owned());
    }
    let counts = tally(&acc.connects);
    proof {
        lemma_counted(counts.deep_view(), acc.connects.deep_view());
    }
    let mut again = Flat::new();
    let ghost blank = again.deep_view();
    again.roots = roots;
    again.counts = counts;
    again.answered = true;
    assert(again.deep_view() == (FlatV {
        roots: roots.deep_view(),
        counts: counts.deep_view(),
        answered: true,
        ..blank
    }));
    assert(all_known(registry@, again.connectors.deep_view())) by {
        assert(again.connectors.entries.deep_view() == Seq::<(Seq<char>, Seq<char>)>::empty());
    }
    build_under(build, top_class, "", again, registry)
}

/// Whether a declaration asks to be evaluated before the run.
pub open spec fn asks_evaluation(c: ComponentV) -> bool {
    c.variability == Variability::Parameter && exists|i: int|
        0 <= i < c.annotations.len() && #[trigger] c.annotations[i] == ExprV::NamedArg(
            "Evaluate"@,
            Box::new(ExprV::Bool(true)),
        )
}

/// The first parameter from the `i`-th declaration on that asks to be
/// evaluated and was not.
pub open spec fn first_unevaluated(
    list: Seq<ComponentV>,
    known: Map<Seq<char>, Number>,
    i: nat,
) -> Option<Seq<char>>
    decreases list.len() - i,
{
    if i >= list.len() {
        None
    } else if asks_evaluation(list[i as int]) && !known.contains_key(list[i as int].name) {
        Some(list[i as int].name)
    } else {
        first_unevaluated(list, known, i + 1)
    }
}

pub open spec fn unevaluated(name: Seq<char>) -> Seq<char> {
    "`"@ + name
        + "` asks to be evaluated before the run, and its value is not one the compiler can work out"@
}

fn does_ask_evaluation(component: &Component) -> (r: bool)
    ensures
        r == asks_evaluation(component.deep_view()),
{
    if component.variability != Variability::Parameter {
        return false;
    }
    let ghost all = component.annotations.deep_view();
    let mut i: usize = 0;
    while i < component.annotations.len()
        invariant
            i <= component.annotations.len(),
            component.variability == Variability::Parameter,
            all == component.annotations.deep_view(),
            forall|k: int|
                0 <= k < i ==> #[trigger] all[k] != ExprV::NamedArg(
                    "Evaluate"@,
                    Box::new(ExprV::Bool(true)),
                ),
        decreases component.annotations.len() - i,
    {
        assert(all[i as int] == component.annotations@[i as int].deep_view());
        if let Expr::NamedArg(name, value) = &component.annotations[i] {
            assert((**value).deep_view() == expr_view(**value));
            if same(name.as_str(), "Evaluate") && matches!(**value, Expr::Bool(true)) {
                assert(all[i as int] == ExprV::NamedArg(
                    "Evaluate"@,
                    Box::new(ExprV::Bool(true)),
                ));
                return true;
            }
        }
        i = i + 1;
    }
    false
}

fn find_unevaluated(list: &Vec<Component>, known: &Table<Number>) -> (r: Option<String>)
    ensures
        r.deep_view() == first_unevaluated(list.deep_view(), known.deep_view(), 0),
{
    let ghost all = list.deep_view();
    let mut i: usize = 0;
    while i < list.len()
        invariant
            i <= list.len(),
            all == list.deep_view(),
            first_unevaluated(all, known.deep_view(), 0) == first_unevaluated(
                all,
                known.deep_view(),
                i as nat,
            ),
        decreases list.len() - i,
    {
        assert(all[i as int] == list@[i as int].deep_view());
        if does_ask_evaluation(&list[i]) && !known.has(list[i].name.as_str()) {
            return Some(list[i].name.clone());
        }
        i = i + 1;
    }
    None
}

/// The equations of the first `n` bodies, one after another.
pub open spec fn bodies_joined(bodies: Seq<Seq<EquationV>>, n: nat) -> Seq<EquationV>
    decreases n,
{
    if n == 0 || n > bodies.len() {
        Seq::empty()
    } else {
        bodies_joined(bodies, (n - 1) as nat) + bodies[n - 1]
    }
}

/// The equations of every branch of the first `n` conditionals.
pub open spec fn branches_joined(list: Seq<ConditionalV>, n: nat) -> Seq<EquationV>
    decreases n,
{
    if n == 0 || n > list.len() {
        Seq::empty()
    } else {
        branches_joined(list, (n - 1) as nat) + bodies_joined(
            list[n - 1].branches,
            list[n - 1].branches.len(),
        )
    }
}

/// A model with the equations of every branch after its own.
pub open spec fn with_branches(m: ModelV, conditional: Seq<ConditionalV>) -> ModelV {
    ModelV { equations: m.equations + branches_joined(conditional, conditional.len()), ..m }
}

fn append_branches(equations: &mut Vec<EquationItem>, conditional: &Vec<ConditionalEquations>)
    ensures
        final(equations).deep_view() == old(equations).deep_view() + branches_joined(
            conditional.deep_view(),
            conditional@.len(),
        ),
        final(equations)@.take(old(equations)@.len() as int) == old(equations)@,
        old(equations)@.len() <= final(equations)@.len(),
{
    let ghost was = equations.deep_view();
    let ghost raw = equations@;
    let ghost all = conditional.deep_view();
    let mut i: usize = 0;
    assert(equations.deep_view() =~= was + branches_joined(all, 0));
    assert(equations@.take(raw.len() as int) =~= raw);
    while i < conditional.len()
        invariant
            i <= conditional.len(),
            all == conditional.deep_view(),
            equations.deep_view() == was + branches_joined(all, i as nat),
            raw.len() <= equations@.len(),
            equations@.take(raw.len() as int) == raw,
        decreases conditional.len() - i,
    {
        let one = &conditional[i];
        assert(all[i as int] == one.deep_view());
        let ghost before = branches_joined(all, i as nat);
        let ghost bodies = all[i as int].branches;
        let mut k: usize = 0;
        assert(equations.deep_view() =~= was + (before + bodies_joined(bodies, 0)));
        while k < one.branches.len()
            invariant
                i < conditional.len(),
                k <= one.branches.len(),
                bodies == one.branches.deep_view(),
                equations.deep_view() == was + (before + bodies_joined(bodies, k as nat)),
                raw.len() <= equations@.len(),
                equations@.take(raw.len() as int) == raw,
            decreases one.branches.len() - k,
        {
            let body = &one.branches[k];
            assert(bodies[k as int] == body.deep_view());
            let ghost so_far = before + bodies_joined(bodies, k as nat);
            let ghost held = body.deep_view();
            let mut j: usize = 0;
            assert(equations.deep_view() =~= was + (so_far + held.take(0)));
            while j < body.len()
                invariant
                    j <= body.len(),
                    held == body.deep_view(),
                    equations.deep_view() == was + (so_far + held.take(j as int)),
                    raw.len() <= equations@.len(),
                    equations@.take(raw.len() as int) == raw,
                decreases body.len() - j,
            {
                let ghost now = equations.deep_view();
                let ghost list = equations@;
                assert(held[j as int] == body@[j as int].deep_view());
                equations.push(body[j].clone());
                assert(equations.deep_view() =~= now.push(held[j as int]));
                assert(now.push(held[j as int]) =~= was + (so_far + held.take(j + 1)));
                assert(equations@.take(raw.len() as int) =~= list.take(raw.len() as int));
                j = j + 1;
            }
            assert(held.take(j as int) =~= held);
            assert(so_far + held =~= before + bodies_joined(bodies, (k + 1) as nat));
            k = k + 1;
        }
        assert(before + bodies_joined(bodies, k as nat) == branches_joined(all, (i + 1) as nat));
        i = i + 1;
    }
}

/// A model with the whole arrays in it written out, where shapes are known.
pub open spec fn slices_settled(m: ModelV, shapes: Seq<(Seq<char>, Seq<i64>)>) -> ModelV {
    if shapes.len() == 0 {
        m
    } else {
        ModelV {
            equations: settled_slices(m.equations, entered(shapes)),
            initial_equations: settled_slices(m.initial_equations, entered(shapes)),
            ..m
        }
    }
}

/// A model with every `size` in it answered that the shapes answer, wherever it
/// stands.
pub open spec fn sizes_settled(m: ModelV, shapes: Seq<(Seq<char>, Seq<i64>)>) -> ModelV {
    if shapes.len() == 0 {
        m
    } else {
        let known = entered(shapes);
        let g = |e: ExprV| measured(e, known);
        ModelV {
            components: measured_components(m.components, known),
            equations: equations_by(g, m.equations),
            initial_equations: equations_by(g, m.initial_equations),
            asserts: asserts_by(g, m.asserts),
            when_clauses: clauses_by(g, m.when_clauses),
            conditional: conditionals_by(g, m.conditional),
            ..m
        }
    }
}

/// What was gathered, as a model, with every question about the connections
/// answered.
pub open spec fn assembled(
    top: ClassDef,
    acc: FlatV,
    roots: Map<Seq<char>, bool>,
    connected: Map<Seq<char>, u64>,
) -> ModelV {
    let g = |e: ExprV| answered(e, roots, connected);
    ModelV {
        name: top.name@,
        description: top.description.deep_view(),
        components: acc.components,
        equations: equations_by(g, acc.equations),
        initial_equations: equations_by(g, acc.initial_equations),
        asserts: asserts_by(g, acc.asserts),
        transitions: acc.transitions,
        initial_states: acc.initial_states,
        connection_graph: acc.connection_graph,
        when_clauses: clauses_by(g, acc.when_clauses),
        conditional: Seq::empty(),
        transports: acc.transports,
        experiment: top.experiment.deep_view(),
    }
}

/// The branches of what was gathered, with the same questions answered.
pub open spec fn branches_answered(
    acc: FlatV,
    roots: Map<Seq<char>, bool>,
    connected: Map<Seq<char>, u64>,
) -> Seq<ConditionalV> {
    conditionals_by(|e: ExprV| answered(e, roots, connected), acc.conditional)
}

/// A model as strings and tables left it. They settle what a model works out:
/// what it is called and said to be, how it is run, its machines and its graph
/// stay as they were.
pub open spec fn put_back(m: ModelV, before: ModelV) -> ModelV {
    ModelV {
        name: before.name,
        description: before.description,
        experiment: before.experiment,
        transitions: before.transitions,
        initial_states: before.initial_states,
        connection_graph: before.connection_graph,
        ..m
    }
}

/// What an assembled model comes to once its clocks, strings and tables are
/// settled. Each branch of an undecided `if` is checked as it was written,
/// against the model it belongs to, and travels on beside the equations.
#[verifier::opaque]
pub open spec fn settled_model<C>(
    w: WebV<C>,
    m: ModelV,
    conditional: Seq<ConditionalV>,
    acc: FlatV,
) -> Result<(ModelV, Seq<ClassDef>), Seq<char>> {
    match partitioned_model(w.out.clocks, w.out.empty, w.out.sums, m) {
        Err(why) => Err(why),
        Ok(m) => match (w.out.finish.verify)(m) {
            Some(why) => Err(why),
            None => match (if conditional.len() > 0 {
                (w.out.finish.verify)(with_branches(m, conditional))
            } else {
                None
            }) {
                Some(why) => Err(why),
                None => {
                    let carried = ModelV { conditional, ..m };
                    let measured = sizes_settled(slices_settled(carried, acc.sizes), acc.sizes);
                    match (w.out.finish.strings)(measured) {
                        Err(why) => Err(why),
                        Ok((m, settled)) => match (w.out.finish.tables)(m, acc.handles, settled) {
                            Err(why) => Err(why),
                            Ok(m) => finished(w, put_back(m, measured), acc),
                        },
                    }
                },
            },
        },
    }
}

/// The last checks of a model, and the functions whose bodies travel with it.
pub open spec fn finished<C>(w: WebV<C>, m: ModelV, acc: FlatV) -> Result<
    (ModelV, Seq<ClassDef>),
    Seq<char>,
> {
    match (w.out.finish.inputs)(acc.unsupplied, m) {
        Some(why) => Err(why),
        None => match first_standing(values_looked_at(m), 0) {
            Some(name) => Err(unanswered(name)),
            None => match carried_with(w, (w.out.finish.copies)(m), m) {
                Err(why) => Err(why),
                Ok(functions) => Ok((m, functions)),
            },
        },
    }
}

/// Whether a flat model is what it is meant to be, with a body for every
/// function that travels with it.
pub open spec fn is_flattened<C>(
    w: WebV<C>,
    r: Result<Model, String>,
    meant: Result<(ModelV, Seq<ClassDef>), Seq<char>>,
) -> bool {
    match (r, meant) {
        (Ok(model), Ok(made)) => {
            &&& model.deep_view() == made.0
            &&& model.functions@.len() == made.1.len()
            &&& forall|i: int|
                0 <= i < made.1.len() ==> is_carried(
                    w,
                    (w.out.finish.copies)(made.0),
                    made.1[i],
                    #[trigger] model.functions@[i],
                )
        },
        (Err(why), Err(said)) => why@ == said,
        _ => false,
    }
}

/// What building a class comes to: the class instantiated, with nothing around
/// it.
pub open spec fn builder_told<C>(w: WebV<C>) -> Builder {
    |class: ClassDef, path: Seq<char>, acc: FlatV| tree_built(w, class, path, acc)
}

/// What was gathered, once every connection is in and joined.
#[verifier::opaque]
pub open spec fn gathered_up(
    classes: Seq<&ClassDef>,
    top: ClassDef,
    build: Builder,
) -> Result<FlatV, Seq<char>> {
    match model_built(top, build) {
        Err(why) => Err(why),
        Ok(acc) => match with_buses(classes, acc, build) {
            Err(why) => Err(why),
            Ok(acc) => match joined_up(classes, acc) {
                Err(why) => Err(why),
                Ok(joined) => Ok(with_joined(acc, joined)),
            },
        },
    }
}

/// What a class comes to flattened.
pub open spec fn flattened<C>(w: WebV<C>, list: Seq<ClassDef>, top: Seq<char>) -> Result<
    (ModelV, Seq<ClassDef>),
    Seq<char>,
> {
    match class_named(w.classes, top) {
        None => Err("unknown class `"@ + top + "`"@),
        Some(class) => match classes_trouble(w.classes, list) {
            Some(why) => Err(why),
            None => match gathered_up(w.classes, class, builder_told(w)) {
                Err(why) => Err(why),
                Ok(acc) => if !countable(acc.connects) {
                    Err(too_many())
                } else {
                    match graph_trouble(
                        acc.connection_graph,
                        acc.connects,
                        acc.roots,
                        acc.connect_rules,
                    ) {
                        Some(why) => Err(why),
                        None => match first_unevaluated(acc.components, acc.const_values, 0) {
                            Some(name) => Err(unevaluated(name)),
                            None => {
                                let roots = roots_of(acc.connection_graph, acc.connects)->Ok_0;
                                let connected = counted(acc.connects);
                                settled_model(
                                    w,
                                    assembled(class, acc, roots, connected),
                                    branches_answered(acc, roots, connected),
                                    acc,
                                )
                            },
                        },
                    }
                },
            },
        },
    }
}

fn gather_up<B: Fn(&ClassDef, &str, Flat) -> Result<Flat, String>>(
    registry: &Registry,
    top: &ClassDef,
    build: &Maker<B>,
) -> (r: Result<Flat, String>)
    requires
        builds(*build, registry@),
    ensures
        told(r) == gathered_up(registry@, *top, built_by(*build)),
{
    proof {
        reveal(gathered_up);
    }
    let acc = match build_the_model(registry, top, build) {
        Ok(acc) => acc,
        Err(why) => return Err(why),
    };
    let mut acc = match expand_buses(registry, acc, build) {
        Ok(acc) => acc,
        Err(why) => return Err(why),
    };
    match join_the_connections(registry, &mut acc) {
        Ok(_) => Ok(acc),
        Err(why) => Err(why),
    }
}

/// All that a model is flattened with: what is handed in, and the classes in
/// view.
pub open spec fn seen<'a, C>(
    out: OutsideV<C>,
    built_in: Seq<ClassDef>,
    classes: Seq<ClassDef>,
) -> WebV<'a, C> {
    WebV { out, classes: in_view(built_in, classes) }
}

fn finish<P: Parts>(
    w: &Web<'_, '_, P>,
    model: Model,
    unsupplied: &Vec<(String, String)>,
    acc: Ghost<FlatV>,
) -> (r: Result<Model, String>)
    requires
        outside_true(*w.out),
        acc@.unsupplied == unsupplied.deep_view(),
    ensures
        is_flattened(web_of(*w), r, finished(web_of(*w), model.deep_view(), acc@)),
{
    let mut model = model;
    match w.out.finish.do_inputs(unsupplied, &model) {
        Ok(_) => {},
        Err(why) => return Err(why),
    }
    match nothing_left_unanswered(&model) {
        Ok(_) => {},
        Err(why) => return Err(why),
    }
    let ghost before = model.deep_view();
    let copies = w.out.finish.do_copies(&model);
    match carry_along(w, &copies, &model) {
        Ok(functions) => {
            model.functions = functions;
            assert(model.deep_view() == before);
            Ok(model)
        },
        Err(why) => Err(why),
    }
}

/// What a model settled so far leaves to be settled with.
struct Leftover {
    conditional: Vec<ConditionalEquations>,
    sizes: Vec<(String, Vec<i64>)>,
    handles: Table<Expr>,
    unsupplied: Vec<(String, String)>,
}

fn copy_transitions(list: &Vec<Transition>) -> (r: Vec<Transition>)
    ensures
        r.deep_view() == list.deep_view(),
{
    let ghost all = list.deep_view();
    let mut out: Vec<Transition> = Vec::new();
    let mut i: usize = 0;
    assert(out.deep_view() =~= all.take(0));
    while i < list.len()
        invariant
            i <= list.len(),
            all == list.deep_view(),
            out.deep_view() == all.take(i as int),
        decreases list.len() - i,
    {
        let ghost before = out.deep_view();
        assert(all[i as int] == list@[i as int].deep_view());
        out.push(list[i].clone());
        assert(out.deep_view() =~= before.push(all[i as int]));
        assert(out.deep_view() =~= all.take(i + 1));
        i = i + 1;
    }
    assert(all.take(i as int) =~= all);
    out
}

fn copy_clause(clause: &GraphClause) -> (r: GraphClause)
    ensures
        r.deep_view() == clause.deep_view(),
{
    match clause {
        GraphClause::Root(node) => GraphClause::Root(node.clone()),
        GraphClause::PotentialRoot(node, priority) => GraphClause::PotentialRoot(
            node.clone(),
            *priority,
        ),
        GraphClause::Branch(a, b) => GraphClause::Branch(a.clone(), b.clone()),
    }
}

fn copy_graph(list: &Vec<GraphClause>) -> (r: Vec<GraphClause>)
    ensures
        r.deep_view() == list.deep_view(),
{
    let ghost all = list.deep_view();
    let mut out: Vec<GraphClause> = Vec::new();
    let mut i: usize = 0;
    assert(out.deep_view() =~= all.take(0));
    while i < list.len()
        invariant
            i <= list.len(),
            all == list.deep_view(),
            out.deep_view() == all.take(i as int),
        decreases list.len() - i,
    {
        let ghost before = out.deep_view();
        assert(all[i as int] == list@[i as int].deep_view());
        out.push(copy_clause(&list[i]));
        assert(out.deep_view() =~= before.push(all[i as int]));
        assert(out.deep_view() =~= all.take(i + 1));
        i = i + 1;
    }
    assert(all.take(i as int) =~= all);
    out
}

/// Settle strings and tables, keeping what they are not to touch.
fn settle_the_rest<P: Parts>(w: &Web<'_, '_, P>, model: Model, handles: &Table<Expr>) -> (r: Result<
    Model,
    String,
>)
    requires
        outside_true(*w.out),
    ensures
        told(r) == (match (web_of(*w).out.finish.strings)(model.deep_view()) {
            Err(why) => Err(why),
            Ok((m, settled)) => match (web_of(*w).out.finish.tables)(
                m,
                handles.deep_view(),
                settled,
            ) {
                Err(why) => Err(why),
                Ok(m) => Ok(put_back(m, model.deep_view())),
            },
        }),
{
    let ghost before = model.deep_view();
    let name = model.name.clone();
    let description = copied_text(&model.description);
    let experiment = match &model.experiment {
        Some(experiment) => Some(experiment.clone()),
        None => None,
    };
    let transitions = copy_transitions(&model.transitions);
    let initial_states = copy_texts(&model.initial_states);
    let connection_graph = copy_graph(&model.connection_graph);
    let (model, settled) = match w.out.finish.do_strings(model) {
        Ok(made) => made,
        Err(why) => return Err(why),
    };
    let mut model = match w.out.finish.do_tables(model, handles, &settled) {
        Ok(model) => model,
        Err(why) => return Err(why),
    };
    let ghost made = model.deep_view();
    model.name = name;
    model.description = description;
    model.experiment = experiment;
    model.transitions = transitions;
    model.initial_states = initial_states;
    model.connection_graph = connection_graph;
    assert(model.deep_view() == put_back(made, before));
    Ok(model)
}

fn settle_model<P: Parts>(
    w: &Web<'_, '_, P>,
    model: Model,
    left: Leftover,
    acc: Ghost<FlatV>,
) -> (r: Result<Model, String>)
    requires
        outside_true(*w.out),
        acc@.sizes == left.sizes.deep_view(),
        acc@.handles == left.handles.deep_view(),
        acc@.unsupplied == left.unsupplied.deep_view(),
    ensures
        is_flattened(
            web_of(*w),
            r,
            settled_model(web_of(*w), model.deep_view(), left.conditional.deep_view(), acc@),
        ),
{
    proof {
        reveal(settled_model);
    }
    let none = w.out.do_fresh();
    let mut model = match partition_clocks(model, &w.out.clocks, none, &w.out.sums) {
        Ok(model) => model,
        Err(why) => return Err(why),
    };
    match w.out.finish.do_verify(&model) {
        Ok(_) => {},
        Err(why) => return Err(why),
    }
    let ghost lifted = model.deep_view();
    assert(left.conditional.deep_view().len() == left.conditional@.len());
    if left.conditional.len() > 0 {
        let ghost raw = model.equations@;
        let own: usize = model.equations.len();
        append_branches(&mut model.equations, &left.conditional);
        assert(model.deep_view() == with_branches(lifted, left.conditional.deep_view()));
        match w.out.finish.do_verify(&model) {
            Ok(_) => {},
            Err(why) => return Err(why),
        }
        model.equations.truncate(own);
        assert(model.equations@ =~= raw);
        assert(model.equations.deep_view() =~= lifted.equations);
        assert(model.deep_view() == lifted);
    }
    let Leftover { conditional, sizes, handles, unsupplied } = left;
    let ghost branches = conditional.deep_view();
    model.conditional = conditional;
    let ghost carried = ModelV { conditional: branches, ..lifted };
    assert(model.deep_view() == carried);
    assert(sizes.deep_view().len() == sizes@.len());
    settle_member_slices(&mut model, &sizes);
    assert(model.deep_view() == slices_settled(carried, sizes.deep_view()));
    settle_sizes(&mut model, &sizes);
    assert(model.deep_view() == sizes_settled(
        slices_settled(carried, sizes.deep_view()),
        sizes.deep_view(),
    ));
    match settle_the_rest(w, model, &handles) {
        Ok(model) => finish(w, model, &unsupplied, acc),
        Err(why) => Err(why),
    }
}

/// Flatten a model and everything it holds into one system of equations,
/// with every name written out in full.
///
/// The classes the language supplies stand before those of `classes`, so a
/// library that declares its own of that name wins. The class is instantiated
/// from the top down, its buses filled and its connections joined; what is
/// clocked is lifted out, what is left is settled, and the bodies it still calls
/// travel with it. The first failure on the way is what is reported.
pub fn flatten<P: Parts>(classes: &Vec<ClassDef>, top: &str, outside: &Outside<P>) -> (r: Result<
    Model,
    String,
>)
    requires
        outside_true(*outside),
    ensures
        exists|built_in: Seq<ClassDef>|
            is_built_in(built_in) && is_flattened(
                seen(outside_of(*outside), built_in, classes@),
                r,
                flattened(#[trigger] seen(outside_of(*outside), built_in, classes@), classes@, top@),
            ),
{
    let built_in = built_in_classes();
    let registry = put_in_view(&built_in, classes);
    assert(registry@ == in_view(built_in@, classes@));
    let class = match find_class(&registry, top) {
        Some(class) => class,
        None => return Err(join3("unknown class `", top, "`")),
    };
    proof {
        assert(seen(outside_of(*outside), built_in@, classes@) == (WebV {
            out: outside_of(*outside),
            classes: registry@,
        }));
    }
    match what_a_class_may_hold(classes, &registry) {
        Ok(_) => {},
        Err(why) => return Err(why),
    }
    let web = Web { out: outside, registry: &registry };
    let w = &web;
    let build = |class: &ClassDef, path: &str, acc: Flat| -> (r: Result<Flat, String>)
        ensures
            told(r) == tree_built(web_of(*w), *class, path@, acc.deep_view()),
            r matches Ok(made) ==> all_known(w.registry@, made.connectors.deep_view()),
        { build_tree(w, class, path, acc) };
    let maker = Maker { build, model: Ghost(builder_told(web_of(*w))) };
    let acc = match gather_up(&registry, class, &maker) {
        Ok(acc) => acc,
        Err(why) => return Err(why),
    };
    if !can_count(&acc.connects) {
        return Err("the model has more connections than can be counted".to_owned());
    }
    let GraphAnswers { roots, connected } = match what_the_graph_answers(
        &acc.connection_graph,
        &acc.connects,
        &acc.roots,
        &acc.connect_rules,
    ) {
        Ok(answers) => answers,
        Err(why) => return Err(why),
    };
    proof {
        lemma_counted(connected.deep_view(), acc.connects.deep_view());
    }
    if let Some(name) = find_unevaluated(&acc.components, &acc.const_values) {
        return Err(
            join3(
                "`",
                name.as_str(),
                "` asks to be evaluated before the run, and its value is not one the compiler can work out",
            ),
        );
    }
    let ghost gathered = acc.deep_view();
    let mut model = Model {
        name: class.name.clone(),
        description: class.description.clone(),
        components: acc.components,
        equations: acc.equations,
        initial_equations: acc.initial_equations,
        asserts: acc.asserts,
        transitions: acc.transitions,
        initial_states: acc.initial_states,
        connection_graph: acc.connection_graph,
        when_clauses: acc.when_clauses,
        conditional: Vec::new(),
        transports: acc.transports,
        experiment: match &class.experiment {
            Some(experiment) => Some(experiment.clone()),
            None => None,
        },
        functions: Vec::new(),
    };
    let mut conditional = acc.conditional;
    assert(model.conditional.deep_view() =~= Seq::empty());
    say_what_the_graph_answered(&mut model, &mut conditional, &roots, &connected);
    assert(model.deep_view() == assembled(
        *class,
        gathered,
        roots.deep_view(),
        connected.deep_view(),
    ));
    settle_model(
        w,
        model,
        Leftover {
            conditional,
            sizes: acc.sizes,
            handles: acc.handles,
            unsupplied: acc.unsupplied,
        },
        Ghost(gathered),
    )
}

/// The last class of a name that a list of classes holds.
pub open spec fn last_named(list: Seq<ClassDef>, name: Seq<char>) -> Option<ClassDef>
    decreases list.len(),
{
    if list.len() == 0 {
        None
    } else if list.last().name@ == name {
        Some(list.last())
    } else {
        last_named(list.drop_last(), name)
    }
}

/// A class of a library stands before one the language supplies: where the
/// library declares a name, that is what the name is.
pub proof fn law_a_library_outranks_the_language(
    built_in: Seq<ClassDef>,
    classes: Seq<ClassDef>,
    name: Seq<char>,
)
    ensures
        class_named(in_view(built_in, classes), name) == (match last_named(classes, name) {
            Some(class) => Some(class),
            None => last_named(built_in, name),
        }),
    decreases built_in.len() + classes.len(),
{
    let all = in_view(built_in, classes);
    if classes.len() > 0 {
        assert(*all.last() == classes.last());
        assert(all.drop_last() =~= in_view(built_in, classes.drop_last()));
        if classes.last().name@ != name {
            law_a_library_outranks_the_language(built_in, classes.drop_last(), name);
        }
    } else if built_in.len() > 0 {
        assert(*all.last() == built_in.last());
        assert(all.drop_last() =~= in_view(built_in.drop_last(), classes));
        if built_in.last().name@ != name {
            law_a_library_outranks_the_language(built_in.drop_last(), classes, name);
        }
    }
}

/// A model is flattened only where its class is there and no class breaks what
/// the language asks of it, whatever is handed in.
pub proof fn law_what_is_refused_outright<C>(w: WebV<C>, list: Seq<ClassDef>, top: Seq<char>)
    ensures
        flattened(w, list, top) is Ok ==> class_named(w.classes, top) is Some && classes_trouble(
            w.classes,
            list,
        ) is None,
{
}

/// What settling a model keeps: its name, its description and its experiment;
/// and it leaves no machine behind.
proof fn lemma_settled<C>(w: WebV<C>, m: ModelV, conditional: Seq<ConditionalV>, acc: FlatV)
    requires
        settled_model(w, m, conditional, acc) is Ok,
    ensures
        ({
            let n = settled_model(w, m, conditional, acc)->Ok_0.0;
            &&& n.name == m.name
            &&& n.description == m.description
            &&& n.experiment == m.experiment
            &&& n.transitions == Seq::<TransitionV>::empty()
            &&& n.initial_states == Seq::<Seq<char>>::empty()
            &&& nothing_turns_into_a_clock(w) ==> no_clock_among(n.components)
        }),
{
    reveal(settled_model);
    law_lifting_out_keeps_the_rest(w.out.clocks, w.out.empty, w.out.sums, m);
    law_no_clock_is_left(w.out.clocks, w.out.empty, w.out.sums, m);
    let lifted = partitioned_model(w.out.clocks, w.out.empty, w.out.sums, m)->Ok_0;
    let carried = ModelV { conditional, ..lifted };
    let measured = sizes_settled(slices_settled(carried, acc.sizes), acc.sizes);
    assert(no_clock_among(measured.components)) by {
        assert(measured.components.len() == lifted.components.len());
        assert forall|i: int| 0 <= i < measured.components.len() implies (
        #[trigger] measured.components[i]).of_type != "Clock"@ by {
            assert(measured.components[i].of_type == lifted.components[i].of_type);
        }
    }
}

/// Whether strings and tables declare no clock where there was none.
pub open spec fn nothing_turns_into_a_clock<C>(w: WebV<C>) -> bool {
    &&& forall|m: ModelV|
        no_clock_among(m.components) ==> (#[trigger] (w.out.finish.strings)(m) matches Ok(made)
            ==> no_clock_among(made.0.components))
    &&& forall|m: ModelV, a: Map<Seq<char>, ExprV>, b: Map<Seq<char>, Seq<char>>|
        no_clock_among(m.components) ==> (#[trigger] (w.out.finish.tables)(m, a, b) matches Ok(made)
            ==> no_clock_among(made.components))
}

/// What flattening came through where it came to a model.
proof fn lemma_flattened<C>(w: WebV<C>, list: Seq<ClassDef>, top: Seq<char>) -> (r: (
    ModelV,
    Seq<ConditionalV>,
    FlatV,
))
    requires
        flattened(w, list, top) is Ok,
    ensures
        class_named(w.classes, top) is Some,
        r.0.name == class_named(w.classes, top)->Some_0.name@,
        r.0.description == class_named(w.classes, top)->Some_0.description.deep_view(),
        r.0.experiment == class_named(w.classes, top)->Some_0.experiment.deep_view(),
        flattened(w, list, top) == settled_model(w, r.0, r.1, r.2),
{
    let class = class_named(w.classes, top)->Some_0;
    let acc = gathered_up(w.classes, class, builder_told(w))->Ok_0;
    let roots = roots_of(acc.connection_graph, acc.connects)->Ok_0;
    let connected = counted(acc.connects);
    (assembled(class, acc, roots, connected), branches_answered(acc, roots, connected), acc)
}

/// A flat model carries the name, the description and the experiment of the
/// class it was flattened from.
pub proof fn law_a_model_keeps_its_name<C>(w: WebV<C>, list: Seq<ClassDef>, top: Seq<char>)
    requires
        flattened(w, list, top) is Ok,
    ensures
        ({
            let class = class_named(w.classes, top)->Some_0;
            let model = flattened(w, list, top)->Ok_0.0;
            &&& model.name == class.name@
            &&& model.description == class.description.deep_view()
            &&& model.experiment == class.experiment.deep_view()
        }),
{
    let (m, conditional, acc) = lemma_flattened(w, list, top);
    lemma_settled(w, m, conditional, acc);
}

/// A flat model is one the run can take as it is: no arrow of a machine is left
/// in it and no state that one starts in, and no clock is declared in it, unless
/// strings or tables were to declare one.
pub proof fn law_a_flat_model_has_no_clockwork<C>(w: WebV<C>, list: Seq<ClassDef>, top: Seq<char>)
    requires
        flattened(w, list, top) is Ok,
    ensures
        ({
            let model = flattened(w, list, top)->Ok_0.0;
            &&& model.transitions == Seq::<TransitionV>::empty()
            &&& model.initial_states == Seq::<Seq<char>>::empty()
            &&& nothing_turns_into_a_clock(w) ==> no_clock_among(model.components)
        }),
{
    let (m, conditional, acc) = lemma_flattened(w, list, top);
    lemma_settled(w, m, conditional, acc);
}

}
