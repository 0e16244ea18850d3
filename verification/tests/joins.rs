use oxidelica_flatten::buses::{expand_buses, names_it, pair_up, Maker};
use oxidelica_flatten::class::{ClassDef, ClassKind, Component};
use oxidelica_flatten::expr::Expr;
use oxidelica_flatten::flat::Flat;
use oxidelica_flatten::info::register;
use oxidelica_flatten::joins::{join_the_connections, paths_in_order};
use oxidelica_flatten::stepping::blank_component;
use oxidelica_flatten::table::Table;

fn text(s: &str) -> String {
    s.to_string()
}

fn component(name: &str, of_type: &str) -> Component {
    Component { name: text(name), of_type: text(of_type), ..blank_component() }
}

fn pin() -> ClassDef {
    let mut pin = ClassDef::empty(ClassKind::Connector, "Pin");
    pin.components.push(component("v", "Real"));
    pin.components.push(Component { flow: true, ..component("i", "Real") });
    pin
}

fn flat(paths: &[(&str, &str)], connects: &[(&str, &str)]) -> Flat {
    let mut acc = Flat::new();
    for (path, class) in paths {
        acc.connectors.put(text(path), text(class));
        for member in ["v", "i"] {
            acc.components.push(component(&format!("{path}.{member}"), "Real"));
        }
    }
    for (a, b) in connects {
        acc.connects.push((text(a), text(b)));
    }
    acc
}

fn show(e: &Expr) -> String {
    match e {
        Expr::Ref(name) => name.clone(),
        Expr::Number(n) => f64::from_bits(n.bits).to_string(),
        Expr::Neg(a) => format!("-{}", show(a)),
        Expr::Bin(op, a, b) => format!("({} {op:?} {})", show(a), show(b)),
        other => format!("{other:?}"),
    }
}

fn equations(acc: &Flat) -> Vec<String> {
    acc.equations.iter().map(|e| format!("{} = {}", show(&e.lhs), show(&e.rhs))).collect()
}

#[test]
fn potentials_are_equal_and_flows_sum_to_nothing() {
    let classes = vec![pin()];
    let registry = register(&classes);
    let mut acc = flat(&[("r.p", "Pin"), ("s.n", "Pin")], &[("r.p", "s.n")]);
    join_the_connections(&registry, &mut acc).unwrap();
    let told = equations(&acc);
    assert!(told.contains(&text("r.p.v = s.n.v")) || told.contains(&text("s.n.v = r.p.v")), "{told:?}");
    assert_eq!(told.iter().filter(|e| e.contains("Add")).count(), 1, "{told:?}");
    assert_eq!(told.len(), 2);
}

#[test]
fn an_unconnected_flow_is_nothing() {
    let classes = vec![pin()];
    let registry = register(&classes);
    let mut acc = flat(&[("r.p", "Pin")], &[]);
    join_the_connections(&registry, &mut acc).unwrap();
    assert_eq!(equations(&acc), vec!["r.p.i = 0"]);
}

#[test]
fn connectors_with_different_members_do_not_join() {
    let mut other = ClassDef::empty(ClassKind::Connector, "Flange");
    other.components.push(component("phi", "Real"));
    let classes = vec![pin(), other];
    let registry = register(&classes);
    let mut acc = flat(&[("a", "Pin"), ("b", "Flange")], &[("a", "b")]);
    let why = join_the_connections(&registry, &mut acc).unwrap_err();
    assert_eq!(
        why,
        "connection set [\"a\", \"b\"] joins `Pin` to `Flange`, which have different members"
    );
}

#[test]
fn one_set_is_drawn_however_its_connections_are_written() {
    let classes = vec![pin()];
    let registry = register(&classes);
    let paths = [("a", "Pin"), ("b", "Pin"), ("c", "Pin")];
    let mut one = flat(&paths, &[("a", "b"), ("b", "c")]);
    let mut two = flat(&paths, &[("a", "b"), ("b", "c"), ("c", "a")]);
    join_the_connections(&registry, &mut one).unwrap();
    join_the_connections(&registry, &mut two).unwrap();
    assert_eq!(equations(&one), equations(&two));
    assert_eq!(one.equations.len(), 3);
}

#[test]
fn paths_come_in_order_and_once() {
    let mut table: Table<String> = Table::new();
    for path in ["b", "a", "c", "a"] {
        table.put(text(path), text("Pin"));
    }
    assert_eq!(paths_in_order(&table), vec!["a", "b", "c"]);
}

#[test]
fn scalars_are_paired_up_one_by_one() {
    let mut acc = Flat::new();
    pair_up(&mut acc, "m.", &vec![text("a[1]"), text("a[2]")], &vec![text("b[1]"), text("b[2]")])
        .unwrap();
    assert_eq!(acc.connects.len(), 2);
    let mut acc = Flat::new();
    assert!(pair_up(&mut acc, "", &vec![text("a")], &vec![text("b"), text("c")]).is_err());
}

#[test]
fn a_model_without_buses_is_left_alone() {
    let classes = vec![pin()];
    let registry = register(&classes);
    let acc = flat(&[("a", "Pin"), ("b", "Pin")], &[("a", "b")]);
    let build = |_: &ClassDef, _: &str, flat: Flat| -> Result<Flat, String> { Ok(flat) };
    let after = expand_buses(&registry, acc, &Maker::new(build, &registry)).unwrap();
    assert_eq!(after.connects, vec![(text("a"), text("b"))]);
    assert_eq!(after.components.len(), 4);
}

#[test]
fn a_bus_takes_the_members_its_connections_name() {
    let mut bus = ClassDef::empty(ClassKind::Connector, "Bus");
    bus.expandable = true;
    let classes = vec![pin(), bus];
    let registry = register(&classes);
    let mut acc = flat(&[("r.p", "Pin")], &[("bus.load", "r.p")]);
    acc.connectors.put(text("bus"), text("Bus"));
    let build = |class: &ClassDef, path: &str, mut flat: Flat| -> Result<Flat, String> {
        for member in &class.components {
            flat.components.push(component(&format!("{path}{}", member.name), &member.of_type));
        }
        Ok(flat)
    };
    let after = expand_buses(&registry, acc, &Maker::new(build, &registry)).unwrap();
    let names: Vec<&str> = after.components.iter().map(|c| c.name.as_str()).collect();
    assert!(names.contains(&"bus.load.v"), "{names:?}");
    assert!(names.contains(&"bus.load.i"), "{names:?}");
    assert_eq!(after.connectors.get("bus.load"), Some(&text("Pin")));
}

#[test]
fn a_reference_names_exactly_one_variable() {
    assert!(names_it(&Expr::Ref(text("bus.load")), "bus.load"));
    assert!(!names_it(&Expr::Ref(text("bus.load")), "bus"));
}

#[test]
fn connections_may_be_written_in_any_order_and_either_way_round() {
    let classes = vec![pin()];
    let registry = register(&classes);
    let paths = [("a.p", "Pin"), ("b.p", "Pin"), ("c.p", "Pin"), ("d.p", "Pin")];
    let told = |connects: &[(&str, &str)]| {
        let mut acc = flat(&paths, connects);
        join_the_connections(&registry, &mut acc).unwrap();
        equations(&acc)
    };
    let one = told(&[("a.p", "b.p"), ("b.p", "c.p")]);
    assert_eq!(one, told(&[("c.p", "b.p"), ("a.p", "b.p")]));
    assert_eq!(one, told(&[("b.p", "a.p"), ("c.p", "b.p"), ("b.p", "c.p")]));
    assert_ne!(one, told(&[("a.p", "b.p")]));
}
