use oxidelica_flatten::class::{
    ClassAlias, ClassDef, ClassKind, Component, Extends, Scope, Variability, WILDCARD_IMPORT,
};
use oxidelica_flatten::expr::Expr;
use oxidelica_flatten::info::{class_info, register};
use oxidelica_flatten::lookup::{
    find_class, lookup, lookup_plainly, names_a_connector, part, Registry,
};
use oxidelica_flatten::number::one;
use oxidelica_flatten::stepping::blank_component;

fn class(kind: ClassKind, name: &str) -> ClassDef {
    ClassDef::empty(kind, name)
}

fn extends(base: &str) -> Extends {
    Extends {
        base: base.to_string(),
        modifiers: vec![],
        redeclares: vec![],
        broken: vec![],
        from_base: false,
    }
}

fn alias(name: &str, target: &str) -> ClassAlias {
    ClassAlias {
        name: name.to_string(),
        target: target.to_string(),
        redeclaration: false,
        replaceable: false,
        constrained_by: None,
        modifiers: vec![],
        connector: false,
    }
}

fn component(name: &str, of_type: &str) -> Component {
    Component { name: name.to_string(), of_type: of_type.to_string(), ..blank_component() }
}

fn import(local: &str, target: &str) -> (String, String) {
    (local.to_string(), target.to_string())
}

fn found<'a>(
    registry: &Registry<'a>,
    name: &str,
    scope: &str,
    imports: &Vec<(String, String)>,
) -> Option<&'a str> {
    lookup(registry, name, scope, imports).map(|c| c.name.as_str())
}

#[test]
fn a_name_is_walked_out_of_the_enclosing_packages() {
    let classes = vec![
        class(ClassKind::Package, "A"),
        class(ClassKind::Package, "A.B"),
        class(ClassKind::Model, "A.M"),
        class(ClassKind::Model, "A.B.M"),
        class(ClassKind::Model, "G"),
    ];
    let registry = register(&classes);
    let none = vec![];
    assert_eq!(found(&registry, "M", "A.B.X", &none), Some("A.B.M"));
    assert_eq!(found(&registry, "M", "A.C", &none), Some("A.M"));
    assert_eq!(found(&registry, "G", "A.B", &none), Some("G"));
    assert_eq!(found(&registry, "B.M", "A", &none), Some("A.B.M"));
    assert_eq!(found(&registry, "Nothing", "A.B", &none), None);
}

#[test]
fn a_leading_dot_means_the_global_name_only() {
    let classes = vec![class(ClassKind::Model, "M"), class(ClassKind::Model, "A.M")];
    let registry = register(&classes);
    let imports = vec![import("M", "A.M")];
    assert_eq!(found(&registry, ".M", "A", &imports), Some("M"));
    assert_eq!(found(&registry, ".A.M", "A", &imports), Some("A.M"));
    assert_eq!(found(&registry, ".B", "A", &imports), None);
}

#[test]
fn an_import_outranks_what_the_packages_declare() {
    let classes = vec![class(ClassKind::Model, "A.M"), class(ClassKind::Model, "L.M")];
    let registry = register(&classes);
    assert_eq!(found(&registry, "M", "A", &vec![]), Some("A.M"));
    assert_eq!(found(&registry, "M", "A", &vec![import("M", "L.M")]), Some("L.M"));
    assert_eq!(found(&registry, "Q.M", "A", &vec![import("Q", "L")]), Some("L.M"));
}

#[test]
fn a_package_opened_wholesale_comes_last() {
    let classes = vec![class(ClassKind::Model, "L.M"), class(ClassKind::Model, "A.K")];
    let registry = register(&classes);
    let opened = vec![import(WILDCARD_IMPORT, "L")];
    assert_eq!(found(&registry, "M", "A", &opened), Some("L.M"));
    assert_eq!(found(&registry, "K", "A", &opened), Some("A.K"));
}

#[test]
fn an_encapsulated_package_is_a_wall() {
    let mut wall = class(ClassKind::Package, "A.W");
    wall.encapsulated = true;
    let classes = vec![class(ClassKind::Model, "A.M"), wall, class(ClassKind::Model, "A.W.K")];
    let registry = register(&classes);
    assert_eq!(found(&registry, "M", "A.W.K", &vec![]), None);
    assert_eq!(found(&registry, "K", "A.W.K", &vec![]), Some("A.W.K"));
}

#[test]
fn a_member_is_found_through_a_base_and_an_alias() {
    let mut derived = class(ClassKind::Package, "D");
    derived.extends.push(extends("Base"));
    let mut holder = class(ClassKind::Package, "P");
    holder.class_aliases.push(alias("Medium", "D"));
    let classes = vec![
        class(ClassKind::Package, "Base"),
        class(ClassKind::Model, "Base.M"),
        derived,
        holder,
    ];
    let registry = register(&classes);
    assert_eq!(found(&registry, "D.M", "", &vec![]), Some("Base.M"));
    assert_eq!(found(&registry, "Medium", "P", &vec![]), Some("D"));
    assert_eq!(
        lookup_plainly(&registry, "M", "Base.K").map(|c| c.name.as_str()),
        Some("Base.M")
    );
    assert!(lookup_plainly(&registry, "M", "D").is_none());
}

#[test]
fn the_last_class_of_a_name_is_the_one() {
    let mut second = class(ClassKind::Block, "M");
    second.partial = true;
    let classes = vec![class(ClassKind::Model, "M"), second];
    let registry = register(&classes);
    assert!(find_class(&registry, "M").unwrap().partial);
    assert!(find_class(&registry, "N").is_none());
}

#[test]
fn names_are_parted_at_the_first_dot() {
    assert_eq!(part("a.b.c"), ("a".to_string(), Some("b.c".to_string())));
    assert_eq!(part("a"), ("a".to_string(), None));
}

#[test]
fn a_class_is_summed_up_for_a_drawing() {
    let mut base = class(ClassKind::Model, "Base");
    base.components.push(component("p", "Pin"));
    let mut m = class(ClassKind::Model, "M");
    m.description = Some("a model".to_string());
    m.extends.push(extends("Base"));
    let mut r = component("R", "Real");
    r.variability = Variability::Parameter;
    r.binding = Some(Expr::Number(one()));
    m.components.push(r);
    let mut world = component("world", "Pin");
    world.scope = Scope::Outer;
    m.components.push(world);
    m.components.push(component("x", "Real"));
    let classes = vec![class(ClassKind::Connector, "Pin"), base, m];
    let info = class_info(&classes, "M").unwrap();
    assert_eq!(info.ports, vec!["p"]);
    assert_eq!(info.parameters.len(), 1);
    assert_eq!(info.parameters[0].0, "R");
    assert!(info.parameters[0].1.is_some());
    assert_eq!(info.description, Some("a model".to_string()));
    assert!(info.instantiable);
    assert!(class_info(&classes, "Unknown").is_none());
    assert!(!class_info(&classes, "Pin").unwrap().instantiable);
}

#[test]
fn connectors_are_told_by_their_names() {
    let mut package = class(ClassKind::Package, "L");
    package.class_aliases.push(ClassAlias { connector: true, ..alias("Out", "Complex") });
    package.class_aliases.push(alias("Plain", "Complex"));
    let classes = vec![package, class(ClassKind::Record, "Complex"), class(ClassKind::Model, "L.M")];
    let registry = register(&classes);
    assert!(names_a_connector(&registry, "Out", "L.M", &vec![]));
    assert!(names_a_connector(&registry, "L.Out", "", &vec![]));
    assert!(names_a_connector(&registry, "O", "", &vec![import("O", "L.Out")]));
    assert!(!names_a_connector(&registry, "Plain", "L.M", &vec![]));
    assert!(!names_a_connector(&registry, "Out", "Complex", &vec![]));
}

#[test]
fn a_summary_begins_with_the_bases() {
    let parameter = |name: &str| Component {
        name: name.to_string(),
        of_type: "Real".to_string(),
        variability: Variability::Parameter,
        ..blank_component()
    };
    let mut b = ClassDef::empty(ClassKind::Model, "B");
    b.components.push(parameter("first"));
    let mut c = ClassDef::empty(ClassKind::Model, "C");
    c.components.push(parameter("second"));
    let mut a = ClassDef::empty(ClassKind::Model, "A");
    for base in ["B", "C"] {
        a.extends.push(Extends {
            base: base.to_string(),
            modifiers: vec![],
            redeclares: vec![],
            broken: vec![],
            from_base: false,
        });
    }
    a.components.push(parameter("own"));
    let info = class_info(&[a, b, c], "A").unwrap();
    let names: Vec<&str> = info.parameters.iter().map(|(name, _)| name.as_str()).collect();
    assert_eq!(names, vec!["first", "second", "own"]);
}

#[test]
fn a_class_is_summed_up_as_its_bases_and_then_itself() {
    let extending = |base: &str| Extends {
        base: base.to_string(),
        modifiers: vec![],
        redeclares: vec![],
        broken: vec![],
        from_base: false,
    };
    let holding = |class: &str, name: &str| {
        let mut c = ClassDef::empty(ClassKind::Model, class);
        c.components.push(Component {
            variability: Variability::Parameter,
            ..component(name, "Real")
        });
        c
    };
    let a = holding("A", "a");
    let mut b = holding("B", "b");
    b.extends.push(extending("A"));
    let c = holding("C", "c");
    let mut d = holding("D", "d");
    d.extends.push(extending("B"));
    d.extends.push(extending("C"));
    let classes = [a, b, c, d];
    let names = |class: &str| -> Vec<String> {
        let info = class_info(&classes, class).unwrap();
        info.parameters.iter().map(|p| p.0.clone()).collect()
    };
    assert_eq!(names("D"), vec!["a", "b", "c", "d"]);
    let mut by_bases = names("B");
    by_bases.extend(names("C"));
    by_bases.push("d".to_string());
    assert_eq!(names("D"), by_bases);
}
