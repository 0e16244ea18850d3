use oxidelica_flatten::arguments::order_builtin_arguments;
use oxidelica_flatten::class::{
    Causality, ClassDef, ClassKind, Component, Extends, Redeclare, Scope, Variability,
};
use oxidelica_flatten::expr::Expr;
use oxidelica_flatten::info::register;
use oxidelica_flatten::inheritance::{
    check_redeclare, descends_from_external_object, extends_class, inherited_class,
};
use oxidelica_flatten::restrictions::{
    nothing_reaches_inside, what_a_class_may_hold, with_bases,
};
use oxidelica_flatten::scoping::{bind_outers, collect_inners};
use oxidelica_flatten::stepping::blank_component;

fn text(s: &str) -> String {
    s.to_string()
}

fn class(kind: ClassKind, name: &str) -> ClassDef {
    ClassDef::empty(kind, name)
}

fn component(name: &str, of_type: &str) -> Component {
    Component { name: text(name), of_type: text(of_type), ..blank_component() }
}

fn extends(base: &str) -> Extends {
    Extends {
        base: text(base),
        modifiers: vec![],
        redeclares: vec![],
        broken: vec![],
        from_base: false,
    }
}

fn named(name: &str, value: Expr) -> Expr {
    Expr::NamedArg(text(name), Box::new(value))
}

fn reference(name: &str) -> Expr {
    Expr::Ref(text(name))
}

fn trouble(classes: &Vec<ClassDef>) -> Option<String> {
    let registry = register(classes);
    what_a_class_may_hold(classes, &registry).err()
}

#[test]
fn a_package_holds_only_classes_and_constants() {
    let mut package = class(ClassKind::Package, "P");
    package.components.push(Component {
        variability: Variability::Constant,
        ..component("c", "Real")
    });
    package.components.push(Component {
        variability: Variability::Parameter,
        ..component("k", "Real")
    });
    assert_eq!(
        trouble(&vec![package]),
        Some(text("`P.k` is a parameter in a package; a package may hold only classes and constants"))
    );
    let mut package = class(ClassKind::Package, "P");
    package.components.push(component("x", "Real"));
    assert_eq!(
        trouble(&vec![package]),
        Some(text("`P.x` is a variable in a package; a package may hold only classes and constants"))
    );
    assert_eq!(trouble(&vec![class(ClassKind::Package, "P")]), None);
}

#[test]
fn a_connector_of_a_block_has_a_direction() {
    let mut pin = class(ClassKind::Connector, "Pin");
    pin.components.push(component("v", "Real"));
    let mut block = class(ClassKind::Block, "B");
    block.components.push(component("p", "Pin"));
    assert_eq!(
        trouble(&vec![pin, block]),
        Some(text("`B.p` is a connector of a `block` and nothing says which way it goes; a block's connectors are `input` or `output`, written on the declaration, on the connector or on every variable it holds"))
    );
    let mut pin = class(ClassKind::Connector, "Pin");
    pin.components.push(component("v", "Real"));
    let mut block = class(ClassKind::Block, "B");
    block.components.push(Component { causality: Causality::Input, ..component("p", "Pin") });
    assert_eq!(trouble(&vec![pin, block]), None);
}

#[test]
fn an_output_of_a_block_is_settled_inside() {
    let mut block = class(ClassKind::Block, "B");
    block.components.push(Component { causality: Causality::Output, ..component("y", "Real") });
    let told = trouble(&vec![block]).unwrap();
    assert!(told.starts_with("`B.y` is an output of a `block` and nothing in the block settles it"));
    let mut block = class(ClassKind::Block, "B");
    block.components.push(Component {
        causality: Causality::Output,
        binding: Some(Expr::Bool(true)),
        ..component("y", "Real")
    });
    assert_eq!(trouble(&vec![block]), None);
}

#[test]
fn a_protected_declaration_is_not_reached_from_outside() {
    let mut inner = class(ClassKind::Model, "Inner");
    inner.components.push(Component { protected: true, ..component("hidden", "Real") });
    inner.components.push(component("open", "Real"));
    let mut outer = class(ClassKind::Model, "Outer");
    outer.components.push(component("m", "Inner"));
    outer.asserts.push((reference("m.open"), text("")));
    let classes = vec![inner, outer];
    let registry = register(&classes);
    assert!(nothing_reaches_inside(&registry, &classes[1], &vec![]).is_ok());
    let mut outer = class(ClassKind::Model, "Outer");
    outer.components.push(component("m", "Inner"));
    outer.asserts.push((reference("m.hidden"), text("")));
    let mut inner = class(ClassKind::Model, "Inner");
    inner.components.push(Component { protected: true, ..component("hidden", "Real") });
    let classes = vec![inner, outer];
    let registry = register(&classes);
    let why = nothing_reaches_inside(&registry, &classes[1], &vec![]).unwrap_err();
    assert!(why.contains("reaches a `protected` declaration of `Inner`"), "{why}");
}

#[test]
fn arguments_given_by_name_are_put_in_order() {
    let told = order_builtin_arguments(
        "subSample",
        vec![reference("u"), named("factor", reference("T"))],
    )
    .unwrap();
    assert_eq!(format!("{told:?}"), format!("{:?}", vec![reference("u"), reference("T")]));
    let why = order_builtin_arguments("subSample", vec![named("speed", reference("x"))]).unwrap_err();
    assert!(why.starts_with("`subSample` has no argument called `speed`; it takes "), "{why}");
    assert_eq!(
        order_builtin_arguments(
            "subSample",
            vec![named("factor", reference("T")), reference("u")],
        )
        .unwrap_err(),
        "`subSample` was given an argument by position after one given by name"
    );
    assert_eq!(
        order_builtin_arguments(
            "subSample",
            vec![
                reference("u"),
                named("factor", reference("T")),
                named("factor", reference("S")),
            ],
        )
        .unwrap_err(),
        "`subSample` was given `factor` twice"
    );
}

#[test]
fn a_redeclaration_fits_what_it_replaces() {
    let mut good = class(ClassKind::Model, "Good");
    good.extends.push(extends("Interface"));
    let classes = vec![
        class(ClassKind::Model, "Interface"),
        good,
        class(ClassKind::Model, "Bad"),
        class(ClassKind::Model, "Holder"),
    ];
    let registry = register(&classes);
    let redeclare = |of_type: &str| Redeclare {
        name: text("part"),
        of_type: text(of_type),
        modifiers: vec![],
        class_level: false,
    };
    let fixed = component("part", "Interface");
    assert_eq!(
        check_redeclare(&registry, &classes[3], &fixed, &redeclare("Good")).unwrap_err(),
        "`part` of `Holder` is redeclared but not declared replaceable"
    );
    let part = Component {
        replaceable: true,
        constrained_by: Some(text("Interface")),
        ..component("part", "Interface")
    };
    assert!(check_redeclare(&registry, &classes[3], &part, &redeclare("Good")).is_ok());
    assert_eq!(
        check_redeclare(&registry, &classes[3], &part, &redeclare("Bad")).unwrap_err(),
        "`Bad` cannot replace `part`: it does not extend `Interface`"
    );
    assert!(extends_class(&registry, "Good", "Interface", 0));
    assert!(!extends_class(&registry, "Bad", "Interface", 0));
    assert!(inherited_class(&registry, &classes[1], "Nothing", 0).is_none());
    assert!(!descends_from_external_object(&registry, &classes[1], 0));
}

#[test]
fn an_outer_points_at_the_inner_above_it() {
    let mut body = class(ClassKind::Model, "Body");
    body.components.push(Component { scope: Scope::Outer, ..component("world", "World") });
    let mut top = class(ClassKind::Model, "Top");
    top.components.push(Component { scope: Scope::Inner, ..component("world", "World") });
    top.components.push(component("body", "Body"));
    let classes = vec![class(ClassKind::Model, "World"), body, top];
    let registry = register(&classes);
    let mut inners = Vec::new();
    collect_inners(&registry, &classes[2], "", &mut inners, 0);
    assert_eq!(inners.len(), 1);
    assert_eq!(inners[0].1.path, "world");
    let bound = bind_outers(&registry, &classes[1], &inners).unwrap();
    assert_eq!(bound.get("world"), Some(&text("world")));
    assert_eq!(
        bind_outers(&registry, &classes[1], &vec![]).unwrap_err(),
        "`outer World world` in `Body` has no `inner` declaration above it"
    );
}

#[test]
fn a_base_that_two_bases_share_is_visited_once() {
    let mut a = class(ClassKind::Model, "A");
    a.extends = vec![extends("B"), extends("C")];
    let mut b = class(ClassKind::Model, "B");
    b.extends = vec![extends("D")];
    let mut c = class(ClassKind::Model, "C");
    c.extends = vec![extends("D")];
    let classes = vec![a, b, c, class(ClassKind::Model, "D")];
    let registry = register(&classes);
    let mut list: Vec<&ClassDef> = vec![];
    with_bases(&registry, &classes[0], 0, &mut list);
    let names: Vec<&str> = list.iter().map(|c| c.name.as_str()).collect();
    assert_eq!(names, vec!["A", "B", "D", "C"]);
}
