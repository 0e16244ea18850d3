//! What a model may ask about its own connections, and the answers.
//!
//! `Connections.isRoot` is answered from how the graph was broken open,
//! `cardinality` from how many `connect` equations named a port, and the
//! rules a connector's declaration made about being connected are held
//! against the same count.
use crate::class::{GraphClause, GraphClauseV};
use crate::expr::{
    expr_view, is_call, kids, lemma_kids_smaller, lemma_views, with_kids, Expr, ExprV,
};
use crate::flat::{
    asserts_by, clauses_by, computes, conditionals_by, equations_by, rewrite_asserts,
    rewrite_clauses, rewrite_conditionals, rewrite_equations, ConditionalEquations, Model,
};
use crate::graph::{choose_roots, roots_of};
use crate::number::{from_count, nearest, Number};
use crate::table::{lemma_entry_of, lemma_is_entered, Table};
use crate::text::{decimal, digits, join3, join4, join5, same, signed, whole};
use vstd::prelude::*;

verus! {

/// What one entry of an annotation says under a name, where it says anything.
pub open spec fn entry_says(entry: ExprV, wanted: Seq<char>) -> Option<Seq<char>> {
    match entry {
        ExprV::NamedArg(name, value) => if name == wanted {
            match *value {
                ExprV::Str(text) => Some(text),
                _ => Some(Seq::empty()),
            }
        } else {
            None
        },
        ExprV::Ref(name) => if name == wanted {
            Some(Seq::empty())
        } else {
            None
        },
        _ => None,
    }
}

/// What an annotation says first under a name, where it says anything.
pub open spec fn says(said: Seq<ExprV>, wanted: Seq<char>) -> Option<Seq<char>>
    decreases said.len(),
{
    if said.len() == 0 {
        None
    } else {
        match entry_says(said[0], wanted) {
            Some(text) => Some(text),
            None => says(said.drop_first(), wanted),
        }
    }
}

/// What an annotation said under a given name, where it said anything: the
/// string it carries, or an empty one where it is a bare word or carries
/// something else.
pub fn annotation_says(said: &Vec<Expr>, wanted: &str) -> (r: Option<String>)
    ensures
        r.deep_view() == says(said.deep_view(), wanted@),
{
    let ghost all = said.deep_view();
    let mut i: usize = 0;
    assert(all.skip(0) =~= all);
    while i < said.len()
        invariant
            i <= said.len(),
            all == said.deep_view(),
            says(all, wanted@) == says(all.skip(i as int), wanted@),
        decreases said.len() - i,
    {
        assert(all.skip(i as int)[0] == all[i as int]);
        assert(all.skip(i as int).drop_first() =~= all.skip(i + 1));
        match &said[i] {
            Expr::NamedArg(name, value) => {
                if same(name.as_str(), wanted) {
                    assert((**value).deep_view() == expr_view(**value));
                    return match &**value {
                        Expr::Str(text) => Some(text.clone()),
                        _ => Some(String::new()),
                    };
                }
            },
            Expr::Ref(name) => {
                if same(name.as_str(), wanted) {
                    return Some(String::new());
                }
            },
            _ => {},
        }
        i = i + 1;
    }
    None
}

/// How many sides of connections name a port.
pub open spec fn times_named(connects: Seq<(Seq<char>, Seq<char>)>, port: Seq<char>) -> nat
    decreases connects.len(),
{
    if connects.len() == 0 {
        0
    } else {
        times_named(connects.drop_last(), port) + (if connects.last().0 == port {
            1nat
        } else {
            0
        }) + (if connects.last().1 == port {
            1nat
        } else {
            0
        })
    }
}

/// Whether a table holds how often every port is named, and no others.
pub open spec fn tallies(
    counts: Map<Seq<char>, u64>,
    connects: Seq<(Seq<char>, Seq<char>)>,
) -> bool {
    forall|port: Seq<char>|
        (#[trigger] counts.contains_key(port) <==> times_named(connects, port) > 0) && (
        counts.contains_key(port) ==> counts[port] == times_named(connects, port))
}

proof fn lemma_times_named(connects: Seq<(Seq<char>, Seq<char>)>, port: Seq<char>)
    ensures
        times_named(connects, port) <= 2 * connects.len(),
    decreases connects.len(),
{
    if connects.len() > 0 {
        lemma_times_named(connects.drop_last(), port);
    }
}

/// Count one more naming of a port.
fn count_one(counts: &mut Table<u64>, port: &String)
    requires
        old(counts).deep_view().contains_key(port@) ==> old(counts).deep_view()[port@] < u64::MAX,
    ensures
        final(counts).deep_view() == old(counts).deep_view().insert(
            port@,
            (if old(counts).deep_view().contains_key(port@) {
                old(counts).deep_view()[port@] + 1
            } else {
                1
            }) as u64,
        ),
{
    let now: u64 = match counts.get(port.as_str()) {
        Some(times) => *times + 1,
        None => 1,
    };
    counts.put(port.clone(), now);
}

/// How many `connect` equations name each connector.
pub fn tally(connects: &Vec<(String, String)>) -> (r: Table<u64>)
    requires
        2 * connects@.len() <= u64::MAX,
    ensures
        tallies(r.deep_view(), connects.deep_view()),
{
    let ghost all = connects.deep_view();
    let mut counts: Table<u64> = Table::new();
    let mut i: usize = 0;
    assert(all.take(0) =~= Seq::empty());
    while i < connects.len()
        invariant
            2 * connects@.len() <= u64::MAX,
            i <= connects.len(),
            all == connects.deep_view(),
            tallies(counts.deep_view(), all.take(i as int)),
        decreases connects.len() - i,
    {
        let ghost before = all.take(i as int);
        let ghost now = all.take(i + 1);
        let ghost was = counts.deep_view();
        assert(now.drop_last() =~= before);
        assert(now.last() == all[i as int]);
        proof {
            let a = all[i as int].0;
            let b = all[i as int].1;
            assert(was.contains_key(a) || !was.contains_key(a));
            assert(was.contains_key(b) || !was.contains_key(b));
            lemma_times_named(before, a);
            lemma_times_named(before, b);
        }
        count_one(&mut counts, &connects[i].0);
        count_one(&mut counts, &connects[i].1);
        proof {
            assert forall|port: Seq<char>|
                (#[trigger] counts.deep_view().contains_key(port) <==> times_named(now, port) > 0)
                    && (counts.deep_view().contains_key(port) ==> counts.deep_view()[port]
                    == times_named(now, port)) by {
                assert(was.contains_key(port) || !was.contains_key(port));
                lemma_times_named(before, port);
            }
        }
        i = i + 1;
    }
    assert(all.take(i as int) =~= all);
    counts
}

/// The port that `cardinality` is asked about, where it is one: a name, or an
/// element of an array by one subscript.
pub open spec fn port_asked(e: ExprV) -> Option<Seq<char>> {
    match e {
        ExprV::Ref(port) => Some(port),
        ExprV::Index(inner, subscripts) => match *inner {
            ExprV::Ref(port) => if subscripts.len() == 1 {
                match subscripts[0] {
                    ExprV::Number(at) => Some(port + "["@ + signed(at.clipped()) + "]"@),
                    _ => None,
                }
            } else {
                None
            },
            _ => None,
        },
        _ => None,
    }
}

/// What is held under a name, or nought.
pub open spec fn count_of(counts: Map<Seq<char>, u64>, port: Seq<char>) -> nat {
    if counts.contains_key(port) {
        counts[port] as nat
    } else {
        0
    }
}

/// What a question about the connections comes to, where the expression is
/// one that can be answered.
pub open spec fn answer_to(
    e: ExprV,
    roots: Map<Seq<char>, bool>,
    counts: Map<Seq<char>, u64>,
) -> Option<ExprV> {
    if is_call(e, "Connections.isRoot"@, 1) || is_call(e, "Connections.rooted"@, 1) {
        match kids(e)[0] {
            ExprV::Ref(node) => Some(
                ExprV::Bool(roots.contains_key(node) && roots[node]),
            ),
            _ => None,
        }
    } else if is_call(e, "cardinality"@, 1) {
        match port_asked(kids(e)[0]) {
            Some(port) => Some(ExprV::Number(nearest(count_of(counts, port)))),
            None => None,
        }
    } else {
        None
    }
}

/// [`answered`] of every child.
pub open spec fn answered_kids(e: ExprV, roots: Map<Seq<char>, bool>, counts: Map<Seq<char>, u64>) -> Seq<ExprV>
    decreases e, 0int,
{
    proof {
        lemma_kids_smaller(e);
    }
    Seq::new(
        kids(e).len(),
        |i: int|
            if 0 <= i < kids(e).len() {
                answered(kids(e)[i], roots, counts)
            } else {
                e
            },
    )
}

/// The expression with every question about the connections answered.
pub open spec fn answered(
    e: ExprV,
    roots: Map<Seq<char>, bool>,
    counts: Map<Seq<char>, u64>,
) -> ExprV
    decreases e, 1int,
{
    match answer_to(e, roots, counts) {
        Some(answer) => answer,
        None => with_kids(e, answered_kids(e, roots, counts)),
    }
}

fn find_port(e: &Expr) -> (r: Option<String>)
    ensures
        r.deep_view() == port_asked(e.deep_view()),
{
    match e {
        Expr::Ref(port) => Some(port.clone()),
        Expr::Index(inner, subscripts) => {
            proof {
                lemma_views(*subscripts);
                assert((**inner).deep_view() == expr_view(**inner));
            }
            match &**inner {
                Expr::Ref(port) => {
                    if subscripts.len() == 1 {
                        assert(subscripts.deep_view()[0] == subscripts@[0].deep_view());
                        match &subscripts[0] {
                            Expr::Number(at) => {
                                let place = whole(at.to_int());
                                Some(join4(port.as_str(), "[", place.as_str(), "]"))
                            },
                            _ => None,
                        }
                    } else {
                        None
                    }
                },
                _ => None,
            }
        },
        _ => None,
    }
}

fn find_answer(e: &Expr, roots: &Table<bool>, counts: &Table<u64>) -> (r: Option<Expr>)
    ensures
        r.deep_view() == answer_to(e.deep_view(), roots.deep_view(), counts.deep_view()),
{
    match e {
        Expr::Call(name, args) => {
            proof {
                lemma_views(*args);
            }
            if args.len() != 1 {
                return None;
            }
            assert(args.deep_view()[0] == args@[0].deep_view());
            if same(name.as_str(), "Connections.isRoot") || same(name.as_str(), "Connections.rooted") {
                return match &args[0] {
                    Expr::Ref(node) => {
                        let yes = match roots.get(node.as_str()) {
                            Some(yes) => *yes,
                            None => false,
                        };
                        Some(Expr::Bool(yes))
                    },
                    _ => None,
                };
            }
            if same(name.as_str(), "cardinality") {
                return match find_port(&args[0]) {
                    Some(port) => {
                        let times: u64 = match counts.get(port.as_str()) {
                            Some(times) => *times,
                            None => 0,
                        };
                        Some(Expr::Number(from_count(times)))
                    },
                    None => None,
                };
            }
            None
        },
        _ => None,
    }
}

/// Answer `Connections.isRoot` and `Connections.rooted` from the roots that
/// were chosen, and `cardinality` from the count of connections.
pub fn answer_graph_queries(expr: &Expr, roots: &Table<bool>, connected: &Table<u64>) -> (r: Expr)
    ensures
        r.deep_view() == answered(expr.deep_view(), roots.deep_view(), connected.deep_view()),
    decreases expr.deep_view(),
{
    if let Some(answer) = find_answer(expr, roots, connected) {
        return answer;
    }
    let ghost chosen = roots.deep_view();
    let ghost counts = connected.deep_view();
    let ghost shape = expr.deep_view();
    let parts = expr.children();
    let mut new: Vec<Expr> = Vec::new();
    let mut i: usize = 0;
    proof {
        lemma_kids_smaller(shape);
    }
    while i < parts.len()
        invariant
            i <= parts.len(),
            shape == expr.deep_view(),
            parts.deep_view() == kids(shape),
            forall|k: int|
                0 <= k < kids(shape).len() ==> (#[trigger] decreases_to!(shape => kids(shape)[k])),
            new.len() == i,
            forall|k: int|
                0 <= k < i ==> (#[trigger] new@[k]).deep_view() == answered(kids(shape)[k], chosen, counts),
            chosen == roots.deep_view(),
            counts == connected.deep_view(),
        decreases parts.len() - i,
    {
        assert(parts.deep_view()[i as int] == parts@[i as int].deep_view());
        assert(decreases_to!(shape => kids(shape)[i as int]));
        let part: &Expr = parts[i];
        new.push(answer_graph_queries(part, roots, connected));
        i = i + 1;
    }
    assert(new.deep_view() =~= answered_kids(shape, chosen, counts));
    expr.with_children(new)
}

/// What the connections answer once they are all in.
#[derive(Debug)]
pub struct GraphAnswers {
    /// Which ports are roots of the overconstrained graph.
    pub roots: Table<bool>,
    /// How many connections named each port.
    pub connected: Table<u64>,
}

/// What a port's declaration asks that did not come about, given how often
/// the port was named.
pub open spec fn rule_broken(port: Seq<char>, said: Seq<ExprV>, times: nat) -> Option<Seq<char>> {
    let must = says(said, "mustBeConnected"@);
    let once = says(said, "mayOnlyConnectOnce"@);
    if must is Some && times == 0 {
        if must->0.len() == 0 {
            Some("`"@ + port + "` must be connected, and nothing connects to it"@)
        } else {
            Some("`"@ + port + "` must be connected: "@ + must->0)
        }
    } else if once is Some && times > 1 {
        if once->0.len() == 0 {
            Some(
                "`"@ + port + "` may only be connected once, and "@ + digits(times)
                    + " connections name it"@,
            )
        } else {
            Some("`"@ + port + "` may only be connected once: "@ + once->0)
        }
    } else {
        None
    }
}

/// The first rule that is broken.
pub open spec fn first_broken(
    rules: Seq<(Seq<char>, Seq<ExprV>)>,
    connects: Seq<(Seq<char>, Seq<char>)>,
) -> Option<Seq<char>>
    decreases rules.len(),
{
    if rules.len() == 0 {
        None
    } else {
        match rule_broken(rules[0].0, rules[0].1, times_named(connects, rules[0].0)) {
            Some(why) => Some(why),
            None => first_broken(rules.drop_first(), connects),
        }
    }
}

/// Whether what the first pass was answered with is what the graph says now.
pub open spec fn agrees(
    already: Map<Seq<char>, bool>,
    roots: Map<Seq<char>, bool>,
) -> bool {
    already == Map::<Seq<char>, bool>::empty() || already == roots
}

/// What keeps the graph from answering.
pub open spec fn graph_trouble(
    clauses: Seq<GraphClauseV>,
    connects: Seq<(Seq<char>, Seq<char>)>,
    already: Map<Seq<char>, bool>,
    rules: Seq<(Seq<char>, Seq<ExprV>)>,
) -> Option<Seq<char>> {
    match roots_of(clauses, connects) {
        Err(why) => Some(why),
        Ok(roots) => if !agrees(already, roots) {
            Some(
                "the model asks `Connections.isRoot` where the answer changes the graph it is asked about"@,
            )
        } else {
            first_broken(rules, connects)
        },
    }
}

/// Whether everything one table holds another holds too.
fn holds_all(one: &Table<bool>, other: &Table<bool>) -> (r: bool)
    ensures
        r == (forall|name: Seq<char>| #[trigger]
            one.deep_view().contains_key(name) ==> other.deep_view().contains_key(name)
                && other.deep_view()[name] == one.deep_view()[name]),
{
    let ghost all = one.entries.deep_view();
    let mut i: usize = 0;
    while i < one.entries.len()
        invariant
            i <= one.entries.len(),
            all == one.entries.deep_view(),
            forall|k: int|
                0 <= k < i ==> other.deep_view().contains_key((#[trigger] all[k]).0)
                    && other.deep_view()[all[k].0] == one.deep_view()[all[k].0],
        decreases one.entries.len() - i,
    {
        let name = one.entries[i].0.as_str();
        proof {
            lemma_is_entered(all, i as int);
        }
        let agree = match (one.get(name), other.get(name)) {
            (Some(a), Some(b)) => *a == *b,
            _ => false,
        };
        if !agree {
            assert(one.deep_view().contains_key(all[i as int].0));
            return false;
        }
        i = i + 1;
    }
    proof {
        assert forall|name: Seq<char>| #[trigger]
            one.deep_view().contains_key(name) implies other.deep_view().contains_key(name)
            && other.deep_view()[name] == one.deep_view()[name] by {
            let k = lemma_entry_of(all, name);
            assert(all[k].0 == name);
        }
    }
    true
}

fn same_roots(one: &Table<bool>, other: &Table<bool>) -> (r: bool)
    ensures
        r == (one.deep_view() == other.deep_view()),
{
    let yes = holds_all(one, other) && holds_all(other, one);
    proof {
        if yes {
            assert(one.deep_view() =~= other.deep_view());
        }
    }
    yes
}

fn broken_rule(port: &String, said: &Vec<Expr>, times: u64) -> (r: Option<String>)
    ensures
        r.deep_view() == rule_broken(port@, said.deep_view(), times as nat),
{
    if let Some(why) = annotation_says(said, "mustBeConnected") {
        if times == 0 {
            return if why.as_str().unicode_len() == 0 {
                Some(join3("`", port.as_str(), "` must be connected, and nothing connects to it"))
            } else {
                Some(join4("`", port.as_str(), "` must be connected: ", why.as_str()))
            };
        }
    }
    if let Some(why) = annotation_says(said, "mayOnlyConnectOnce") {
        if times > 1 {
            return if why.as_str().unicode_len() == 0 {
                let count = decimal(times);
                Some(
                    join5(
                        "`",
                        port.as_str(),
                        "` may only be connected once, and ",
                        count.as_str(),
                        " connections name it",
                    ),
                )
            } else {
                Some(join4("`", port.as_str(), "` may only be connected once: ", why.as_str()))
            };
        }
    }
    None
}

/// The two questions a model may ask about its own connections, and the
/// checks a connector's declaration asked for.
///
/// `already` is what the first pass was answered with, where there was one:
/// a model whose graph changes with the answer has no answer.
pub fn what_the_graph_answers(
    connection_graph: &Vec<GraphClause>,
    connects: &Vec<(String, String)>,
    already: &Table<bool>,
    connect_rules: &Vec<(String, Vec<Expr>)>,
) -> (r: Result<GraphAnswers, String>)
    requires
        2 * connects@.len() <= u64::MAX,
    ensures
        match graph_trouble(
            connection_graph.deep_view(),
            connects.deep_view(),
            already.deep_view(),
            connect_rules.deep_view(),
        ) {
            Some(trouble) => r matches Err(why) && why@ == trouble,
            None => r matches Ok(answers) && Ok::<Map<Seq<char>, bool>, Seq<char>>(
                answers.roots.deep_view(),
            ) == roots_of(connection_graph.deep_view(), connects.deep_view()) && tallies(
                answers.connected.deep_view(),
                connects.deep_view(),
            ),
        },
{
    let roots = match choose_roots(connection_graph, connects) {
        Ok(roots) => roots,
        Err(why) => {
            return Err(why);
        },
    };
    if !already.is_empty() && !same_roots(&roots, already) {
        return Err(
            "the model asks `Connections.isRoot` where the answer changes the graph it is asked about".to_owned(),
        );
    }
    let connected = tally(connects);
    let ghost all = connect_rules.deep_view();
    let ghost joined = connects.deep_view();
    let ghost trouble = graph_trouble(
        connection_graph.deep_view(),
        joined,
        already.deep_view(),
        all,
    );
    let mut i: usize = 0;
    assert(all.skip(0) =~= all);
    assert(trouble == first_broken(all, joined));
    while i < connect_rules.len()
        invariant
            trouble == graph_trouble(connection_graph.deep_view(), joined, already.deep_view(), all),
            trouble == first_broken(all, joined),
            i <= connect_rules.len(),
            all == connect_rules.deep_view(),
            joined == connects.deep_view(),
            tallies(connected.deep_view(), joined),
            first_broken(all, joined) == first_broken(all.skip(i as int), joined),
        decreases connect_rules.len() - i,
    {
        assert(all.skip(i as int)[0] == all[i as int]);
        assert(all.skip(i as int).drop_first() =~= all.skip(i + 1));
        let port = &connect_rules[i].0;
        let times: u64 = match connected.get(port.as_str()) {
            Some(times) => *times,
            None => 0,
        };
        assert(times == times_named(joined, port@)) by {
            assert(connected.deep_view().contains_key(port@) || !connected.deep_view().contains_key(
                port@,
            ));
        }
        if let Some(why) = broken_rule(port, &connect_rules[i].1, times) {
            return Err(why);
        }
        i = i + 1;
    }
    Ok(GraphAnswers { roots, connected })
}

/// The graph's answers put wherever the model asked the question: among the
/// equations, inside the branches of an `if` that travel to the run on their
/// own, and in the assertions and `when` clauses.
pub fn say_what_the_graph_answered(
    model: &mut Model,
    conditional: &mut Vec<ConditionalEquations>,
    roots: &Table<bool>,
    connected: &Table<u64>,
)
    ensures
        ({
            let g = |e: ExprV| answered(e, roots.deep_view(), connected.deep_view());
            &&& final(model).equations.deep_view() == equations_by(
                g,
                old(model).equations.deep_view(),
            )
            &&& final(model).initial_equations.deep_view() == equations_by(
                g,
                old(model).initial_equations.deep_view(),
            )
            &&& final(model).asserts.deep_view() == asserts_by(g, old(model).asserts.deep_view())
            &&& final(model).when_clauses.deep_view() == clauses_by(
                g,
                old(model).when_clauses.deep_view(),
            )
            &&& final(conditional).deep_view() == conditionals_by(g, old(conditional).deep_view())
        }),
        final(model).name == old(model).name,
        final(model).description == old(model).description,
        final(model).components == old(model).components,
        final(model).transitions == old(model).transitions,
        final(model).initial_states == old(model).initial_states,
        final(model).connection_graph == old(model).connection_graph,
        final(model).conditional == old(model).conditional,
        final(model).transports == old(model).transports,
        final(model).experiment == old(model).experiment,
        final(model).functions == old(model).functions,
{
    let ghost g = |e: ExprV| answered(e, roots.deep_view(), connected.deep_view());
    let answer = |e: &Expr| -> (r: Expr)
        ensures
            r.deep_view() == answered(e.deep_view(), roots.deep_view(), connected.deep_view()),
        { answer_graph_queries(e, roots, connected) };
    assert(computes(answer, g));
    rewrite_equations(&mut model.equations, &answer, Ghost(g));
    rewrite_equations(&mut model.initial_equations, &answer, Ghost(g));
    rewrite_conditionals(conditional, &answer, Ghost(g));
    rewrite_asserts(&mut model.asserts, &answer, Ghost(g));
    rewrite_clauses(&mut model.when_clauses, &answer, Ghost(g));
}

}
