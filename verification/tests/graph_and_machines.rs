use oxidelica_flatten::class::{GraphClause, Transition};
use oxidelica_flatten::expr::Expr;
use oxidelica_flatten::graph::choose_roots;
use oxidelica_flatten::groups::grouped;
use oxidelica_flatten::machines::partition;
use oxidelica_flatten::queries::{answer_graph_queries, tally, what_the_graph_answers};
use oxidelica_flatten::table::Table;

fn text(s: &str) -> String {
    s.to_string()
}

fn arrow(from: &str, to: &str, priority: i64) -> Transition {
    Transition {
        from: text(from),
        to: text(to),
        condition: Expr::Bool(true),
        reset: true,
        immediate: true,
        synchronize: false,
        priority,
    }
}

#[test]
fn what_is_linked_shares_a_label() {
    let label = grouped(5, &vec![(0, 2), (3, 4), (2, 0)]);
    assert_eq!(label[0], label[2]);
    assert_eq!(label[3], label[4]);
    assert_ne!(label[0], label[1]);
    assert_ne!(label[0], label[3]);
}

#[test]
fn a_declared_root_is_the_one_root_of_its_part() {
    let clauses = vec![
        GraphClause::Root(text("world.R")),
        GraphClause::Branch(text("world.R"), text("body.R")),
        GraphClause::PotentialRoot(text("body.R"), 0),
    ];
    let roots = choose_roots(&clauses, &vec![]).unwrap();
    assert_eq!(roots.get("world.R"), Some(&true));
    assert_ne!(roots.get("body.R"), Some(&true));
}

#[test]
fn a_part_with_no_declared_root_takes_the_least_priority() {
    let clauses = vec![
        GraphClause::PotentialRoot(text("b.R"), 2),
        GraphClause::PotentialRoot(text("a.R"), 1),
        GraphClause::Branch(text("a.R"), text("b.R")),
    ];
    let roots = choose_roots(&clauses, &vec![]).unwrap();
    assert_eq!(roots.get("a.R"), Some(&true));
    assert_ne!(roots.get("b.R"), Some(&true));
}

#[test]
fn two_roots_in_one_part_are_refused() {
    let clauses = vec![
        GraphClause::Root(text("a.R")),
        GraphClause::Root(text("b.R")),
        GraphClause::Branch(text("a.R"), text("b.R")),
    ];
    let why = choose_roots(&clauses, &vec![]).unwrap_err();
    assert_eq!(why, "the connection graph holding [\"a.R\", \"b.R\"] has more than one root");
}

#[test]
fn a_part_nothing_could_be_the_root_of_is_refused() {
    let clauses = vec![GraphClause::Branch(text("a.R"), text("b.R"))];
    let why = choose_roots(&clauses, &vec![]).unwrap_err();
    assert_eq!(
        why,
        "the connection graph holding `a.R` has no root, so nothing says what the rest of it is measured against"
    );
}

#[test]
fn connections_are_tallied_by_both_ends() {
    let connects = vec![(text("a"), text("b")), (text("a"), text("c"))];
    let tally = tally(&connects);
    assert_eq!(tally.get("a"), Some(&2));
    assert_eq!(tally.get("b"), Some(&1));
    assert_eq!(tally.get("x"), None);
}

#[test]
fn questions_about_the_graph_are_answered() {
    let mut roots: Table<bool> = Table::new();
    roots.put(text("a.R"), true);
    let mut connected: Table<u64> = Table::new();
    connected.put(text("p"), 3);
    let asked = Expr::Call(text("cardinality"), vec![Expr::Ref(text("p"))]);
    let told = answer_graph_queries(&asked, &roots, &connected);
    assert_eq!(format!("{told:?}"), format!("{:?}", Expr::Number(number(3.0))));
    let asked = Expr::Call(text("Connections.isRoot"), vec![Expr::Ref(text("a.R"))]);
    assert!(matches!(answer_graph_queries(&asked, &roots, &connected), Expr::Bool(true)));
    let asked = Expr::Call(text("Connections.isRoot"), vec![Expr::Ref(text("b.R"))]);
    assert!(matches!(answer_graph_queries(&asked, &roots, &connected), Expr::Bool(false)));
}

fn number(value: f64) -> oxidelica_flatten::number::Number {
    oxidelica_flatten::number::Number { bits: value.to_bits() }
}

#[test]
fn a_port_that_may_be_connected_once_is_held_to_it() {
    let rules = vec![(
        text("p"),
        vec![Expr::NamedArg(
            text("mayOnlyConnectOnce"),
            Box::new(Expr::Str(text("it is a plug"))),
        )],
    )];
    let twice = vec![(text("p"), text("a")), (text("b"), text("p"))];
    let why = what_the_graph_answers(&vec![], &twice, &Table::new(), &rules).unwrap_err();
    assert!(why.starts_with("`p` may only be connected once"), "{why}");
    assert!(what_the_graph_answers(&vec![], &twice[..1].to_vec(), &Table::new(), &rules).is_ok());
}

#[test]
fn states_joined_by_arrows_are_one_machine() {
    let arrows = vec![arrow("a", "b", 1), arrow("b", "a", 1), arrow("c", "d", 1)];
    let machines = partition(&arrows, &vec![text("a"), text("c")]).unwrap();
    assert_eq!(machines.len(), 2);
    assert_eq!(machines[0].states, vec!["a", "b"]);
    assert_eq!(machines[0].arrows.len(), 2);
    assert_eq!(machines[1].states, vec!["c", "d"]);
    assert!(machines[0].inside.is_none());
}

#[test]
fn a_machine_starts_in_exactly_one_state() {
    let arrows = vec![arrow("a", "b", 1)];
    assert_eq!(
        partition(&arrows, &vec![]).unwrap_err(),
        "the states [\"a\", \"b\"] are joined by arrows and none of them is where the machine starts - one `initialState` to a machine"
    );
    assert_eq!(
        partition(&arrows, &vec![text("a"), text("b")]).unwrap_err(),
        "the states [\"a\", \"b\"] are one machine, and 2 of them are named as where it starts"
    );
}

#[test]
fn states_share_a_machine_where_arrows_chain_them() {
    let arrows =
        vec![arrow("a", "b", 1), arrow("x", "y", 1), arrow("c", "b", 1), arrow("d", "c", 1)];
    let machines = partition(&arrows, &vec![text("a"), text("x"), text("alone")]).unwrap();
    let of = |state: &str| {
        machines.iter().position(|m| m.states.iter().any(|s| s.as_str() == state)).unwrap()
    };
    assert_eq!(of("a"), of("d"));
    assert_eq!(of("x"), of("y"));
    assert_ne!(of("a"), of("x"));
    assert_ne!(of("a"), of("alone"));
    assert_eq!(machines.len(), 3);
}
