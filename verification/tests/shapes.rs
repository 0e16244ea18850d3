use oxidelica_flatten::class::{
    Causality, ClassDef, ClassKind, Component, EquationItem, Extends, Variability, WhenAction,
    WhenBranch, WhenClause,
};
use oxidelica_flatten::constants::{
    class_constant_is_boolean, gather_package_constants, substitute_class_constants, Inliner,
    Knowing,
};
use oxidelica_flatten::expr::{BinOp, Expr};
use oxidelica_flatten::flat::Model;
use oxidelica_flatten::functions::{
    by_element, carried_by_the_run, declared_outputs, function_components, spread_out,
    with_inherited_components,
};
use oxidelica_flatten::info::register;
use oxidelica_flatten::names::{
    element_name, flat_name, index_tuples, pick_from_list, prefix_expr, substitute_end, substitute_refs,
    without_dots, Naming,
};
use oxidelica_flatten::number::Number;
use oxidelica_flatten::operators::{operator_function, operator_symbol, relation_symbol};
use oxidelica_flatten::records::{record_fields_of, scalar_record_fields};
use oxidelica_flatten::shapes::{array_length, dimension_value, levels_down, nested};
use oxidelica_flatten::sizes::{measure, settle_sizes};
use oxidelica_flatten::slices::{element_read, known_shapes, settle_member_slices, whole_shape};
use oxidelica_flatten::spreading::{array_element, numbers_of_one, Spreading};
use oxidelica_flatten::stepping::blank_component;
use oxidelica_flatten::sums::{Arith, Sums};
use oxidelica_flatten::table::Table;
use oxidelica_flatten::value::Value;

fn text(s: &str) -> String {
    s.to_string()
}

fn n(value: f64) -> Number {
    Number { bits: value.to_bits() }
}

fn lit(value: f64) -> Expr {
    Expr::Number(n(value))
}

fn reference(name: &str) -> Expr {
    Expr::Ref(text(name))
}

fn call(name: &str, args: Vec<Expr>) -> Expr {
    Expr::Call(text(name), args)
}

fn component(name: &str, of_type: &str) -> Component {
    Component { name: text(name), of_type: text(of_type), ..blank_component() }
}

fn extends(base: &str) -> Extends {
    Extends {
        base: text(base),
        modifiers: vec![],
        redeclares: vec![],
        broken: vec![],
        from_base: false,
    }
}

fn show<T: std::fmt::Debug>(value: &T) -> String {
    format!("{value:?}")
}

fn work(op: Arith, a: Number, b: Number) -> Number {
    let (x, y) = (f64::from_bits(a.bits), f64::from_bits(b.bits));
    n(match op {
        Arith::Add => x + y,
        Arith::Sub => x - y,
        Arith::Mul => x * y,
        Arith::Div => x / y,
        _ => x,
    })
}

fn answer(_: &str, _: &Vec<Number>) -> Option<Vec<Number>> {
    None
}

fn plain(name: &str) -> String {
    text(name)
}

type Arithmetic = Sums<
    fn(Arith, Number, Number) -> Number,
    fn(&str, &Vec<Number>) -> Option<Vec<Number>>,
    fn(&str) -> String,
>;

fn sums() -> Arithmetic {
    Sums::new(
        work,
        answer,
        plain,
    )
}

fn sizes(list: &[(&str, &[i64])]) -> Table<Vec<i64>> {
    let mut table = Table::new();
    for (name, shape) in list {
        table.put(text(name), shape.to_vec());
    }
    table
}

fn model(equations: Vec<(Expr, Expr)>) -> Model {
    Model {
        name: text("M"),
        description: None,
        components: vec![],
        equations: equations
            .into_iter()
            .map(|(lhs, rhs)| EquationItem { lhs, rhs, origin: String::new() })
            .collect(),
        initial_equations: vec![],
        asserts: vec![],
        transitions: vec![],
        initial_states: vec![],
        connection_graph: vec![],
        when_clauses: vec![],
        conditional: vec![],
        transports: vec![],
        experiment: None,
        functions: vec![],
    }
}

#[test]
fn an_array_has_as_many_index_tuples_as_elements() {
    assert_eq!(index_tuples(&vec![2, 3]).len(), 6);
    assert_eq!(index_tuples(&vec![]), vec![Vec::<i64>::new()]);
    assert!(index_tuples(&vec![2, 0]).is_empty());
}

#[test]
fn names_are_prefixed_and_outers_are_bound() {
    let mut outers: Table<String> = Table::new();
    outers.put(text("world"), text("top.world"));
    let naming = Naming { prefix: text("a.b."), outers, minted: vec![text("fixed")] };
    assert_eq!(flat_name("x", &naming), "a.b.x");
    assert_eq!(flat_name("world.g", &naming), "top.world.g");
    assert_eq!(flat_name("fixed", &naming), "fixed");
    assert_eq!(show(&prefix_expr(&reference("x"), &naming)), show(&reference("a.b.x")));
    assert_eq!(without_dots("a.b.."), "a.b");
}

#[test]
fn references_are_substituted() {
    let mut map: Table<Expr> = Table::new();
    map.put(text("x"), lit(2.0));
    let e = Expr::Bin(BinOp::Add, Box::new(reference("x")), Box::new(reference("y")));
    let told = substitute_refs(&e, &map);
    assert_eq!(
        show(&told),
        show(&Expr::Bin(BinOp::Add, Box::new(lit(2.0)), Box::new(reference("y"))))
    );
    assert_eq!(show(&substitute_refs(&e, &Table::new())), show(&e));
    assert_eq!(show(&substitute_end(&Expr::EndSubscript, n(4.0))), show(&lit(4.0)));
}

#[test]
fn an_element_is_picked_from_a_list_written_out() {
    let list = vec![Expr::Array(vec![lit(1.0), lit(2.0)]), Expr::Array(vec![lit(3.0), lit(4.0)])];
    assert_eq!(show(&pick_from_list(&list, &vec![2, 1])), show(&Some(lit(3.0))));
    assert!(pick_from_list(&list, &vec![3, 1]).is_none());
}

#[test]
fn a_dimension_is_told_by_folding_and_by_measuring() {
    let consts: Table<Number> = Table::new();
    let known = sizes(&[("A", &[2, 3])]);
    assert_eq!(dimension_value(&sums(), &lit(4.0), &consts, &known), Some(4));
    assert_eq!(
        dimension_value(&sums(), &call("size", vec![reference("A"), lit(2.0)]), &consts, &known),
        Some(3)
    );
    assert_eq!(dimension_value(&sums(), &lit(1.5), &consts, &known), None);
    assert_eq!(dimension_value(&sums(), &lit(-1.0), &consts, &known), None);
    assert_eq!(dimension_value(&sums(), &Expr::ColonSubscript, &consts, &known), None);
}

#[test]
fn sizes_are_settled_once_every_shape_is_known() {
    let known = sizes(&[("A", &[2, 3])]);
    assert_eq!(
        show(&measure(&call("size", vec![reference("A"), lit(1.0)]), &known)),
        show(&lit(2.0))
    );
    let mut m = model(vec![(reference("n"), call("size", vec![reference("A"), lit(2.0)]))]);
    settle_sizes(&mut m, &vec![(text("A"), vec![2, 3])]);
    assert_eq!(show(&m.equations[0].rhs), show(&lit(3.0)));
}

#[test]
fn whole_arrays_are_written_out_element_by_element() {
    let shapes = vec![(text("v"), vec![2])];
    let known = known_shapes(&shapes);
    assert_eq!(known.get("v"), Some(&vec![2]));
    let e = Expr::Bin(BinOp::Mul, Box::new(lit(2.0)), Box::new(reference("v")));
    let _ = whole_shape(&e, &known);
    assert_eq!(element_read(&lit(1.0), &known), None);
    let mut m = model(vec![(reference("x"), lit(1.0))]);
    settle_member_slices(&mut m, &shapes);
    assert_eq!(m.equations.len(), 1);
    assert_eq!(show(&m.equations[0].rhs), show(&lit(1.0)));
}

#[test]
fn a_value_is_nested_into_a_shape_and_read_back_by_level() {
    let value = nested(&vec![2, 2], &lit(7.0));
    assert_eq!(value.shape(), vec![2, 2]);
    let mut rows = Vec::new();
    levels_down(&value, 1, &mut rows);
    assert_eq!(rows.len(), 2);
    let mut scalars = Vec::new();
    value.flatten_into(&mut scalars);
    assert_eq!(scalars.len(), 4);
    assert!(matches!(value.into_expr(), Expr::Array(_)));
}

#[test]
fn the_length_of_a_written_array_is_seen() {
    let list = Expr::Array(vec![lit(1.0), lit(2.0), lit(3.0)]);
    assert_eq!(array_length(&sums(), &list, 0), Some(3));
    assert_eq!(array_length(&sums(), &reference("x"), 0), None);
}

#[test]
fn a_modifier_is_spread_over_an_array() {
    let spread = Spreading::new(
        |e: &Expr| -> Result<Value, String> {
            match e {
                Expr::Ref(name) if name == "ks" => Ok(Value::Array(vec![
                    Value::Scalar(reference("ks[1]")),
                    Value::Scalar(reference("ks[2]")),
                ])),
                _ => Err(text("no")),
            }
        },
    );
    let list = Expr::Array(vec![lit(1.0), lit(2.0)]);
    assert_eq!(show(&array_element(&spread, &list, 1, 2)), show(&lit(2.0)));
    assert_eq!(show(&array_element(&spread, &list, 1, 3)), show(&list));
    assert_eq!(show(&array_element(&spread, &reference("ks"), 0, 2)), show(&reference("ks[1]")));
    assert_eq!(show(&array_element(&spread, &lit(5.0), 0, 2)), show(&lit(5.0)));
}

#[test]
fn the_numbers_of_a_record_are_counted() {
    let mut inner = ClassDef::empty(ClassKind::Record, "Inner");
    inner.components.push(component("a", "Real"));
    inner.components.push(component("b", "Real"));
    let mut power = ClassDef::empty(ClassKind::Type, "Power");
    power.alias_of = Some((text("Real"), vec![]));
    let mut outer = ClassDef::empty(ClassKind::Record, "Outer");
    outer.components.push(Component { dimensions: vec![lit(3.0)], ..component("i", "Inner") });
    outer.components.push(component("p", "Power"));
    let mut open = ClassDef::empty(ClassKind::Record, "Open");
    open.components.push(Component { dimensions: vec![reference("n")], ..component("x", "Real") });
    let classes = vec![inner, power, outer, open];
    let registry = register(&classes);
    assert_eq!(numbers_of_one(&sums(), &registry, &classes[2], 0), Some(7));
    assert_eq!(numbers_of_one(&sums(), &registry, &classes[3], 0), None);
    assert_eq!(numbers_of_one(&sums(), &registry, &classes[2], 33), None);
}

#[test]
fn what_a_function_declares_comes_with_what_it_inherits() {
    let mut base = ClassDef::empty(ClassKind::Function, "Base");
    base.components.push(Component { causality: Causality::Input, ..component("u", "Real") });
    base.components.push(Component { causality: Causality::Output, ..component("y", "Real") });
    let mut f = ClassDef::empty(ClassKind::Function, "f");
    f.extends.push(extends("Base"));
    f.components.push(Component { causality: Causality::Input, ..component("k", "Real") });
    let classes = vec![base, f];
    let registry = register(&classes);
    let names = |list: Vec<Component>| -> Vec<String> { list.into_iter().map(|c| c.name).collect() };
    assert_eq!(names(function_components(&registry, &classes[1], 0)), vec!["u", "y", "k"]);
    let mut all = names(with_inherited_components(&registry, &classes[1]));
    all.sort();
    assert_eq!(all, vec!["k", "u", "y"]);
    assert_eq!(declared_outputs(&registry, &classes[1]), vec!["y"]);
}

#[test]
fn the_fields_of_a_record_come_once_each() {
    let mut base = ClassDef::empty(ClassKind::Record, "Base");
    base.components.push(component("a", "Real"));
    let mut r = ClassDef::empty(ClassKind::Record, "R");
    r.extends.push(extends("Base"));
    r.components.push(component("a", "Real"));
    r.components.push(component("b", "Real"));
    let mut f = ClassDef::empty(ClassKind::Function, "f");
    f.components.push(Component { causality: Causality::Input, ..component("r", "R") });
    let classes = vec![base, r, f];
    let registry = register(&classes);
    assert_eq!(record_fields_of(&registry, &classes[1], 0), vec!["a", "b"]);
    assert_eq!(scalar_record_fields(&registry, &classes[2], &classes[2].components[0]).len(), 2);
}

#[test]
fn an_array_is_written_by_its_elements() {
    let mut out: Table<Expr> = Table::new();
    let value = Expr::Array(vec![lit(1.0), lit(2.0)]);
    by_element("v", &value, &mut vec![], &mut out);
    assert_eq!(show(out.get("v[2]").unwrap()), show(&lit(2.0)));
    let spread = spread_out("v", &vec![2], 0, &mut vec![]);
    assert_eq!(show(&spread), show(&Expr::Array(vec![reference("v[1]"), reference("v[2]")])));
    assert!(carried_by_the_run(&vec![reference("x"), lit(1.0)]));
    let rows = |widths: &[usize]| {
        Expr::Array(widths.iter().map(|w| Expr::Array(vec![lit(0.0); *w])).collect())
    };
    assert!(carried_by_the_run(&vec![rows(&[2, 2])]));
    assert!(!carried_by_the_run(&vec![rows(&[2, 1])]));
    assert!(!carried_by_the_run(&vec![Expr::MatrixRows(vec![])]));
}

#[test]
fn operators_are_found_by_their_symbols() {
    assert_eq!(operator_symbol(BinOp::Add), "+");
    assert_eq!(operator_symbol(BinOp::Pow), "^");
    assert_eq!(relation_symbol(oxidelica_flatten::expr::RelOp::Eq), "==");
    let mut add = ClassDef::empty(ClassKind::Function, "Complex.'+'.add");
    add.components.push(Component { causality: Causality::Input, ..component("a", "Complex") });
    add.components.push(Component { causality: Causality::Input, ..component("b", "Complex") });
    let classes = vec![
        ClassDef::empty(ClassKind::Record, "Complex"),
        ClassDef::empty(ClassKind::Operator, "Complex.'+'"),
        add,
    ];
    let registry = register(&classes);
    assert_eq!(
        operator_function(&registry, "Complex", "+", 2).map(|f| f.name.as_str()),
        Some("Complex.'+'.add")
    );
    assert!(operator_function(&registry, "Complex", "+", 3).is_none());
    assert!(operator_function(&registry, "Complex", "*", 2).is_none());
}

#[test]
fn the_constants_of_packages_are_put_in() {
    let mut base = ClassDef::empty(ClassKind::Package, "Base");
    base.components.push(Component {
        variability: Variability::Constant,
        binding: Some(lit(3.0)),
        ..component("n", "Integer")
    });
    base.components.push(Component {
        variability: Variability::Constant,
        binding: Some(Expr::Bool(true)),
        ..component("on", "Boolean")
    });
    let mut p = ClassDef::empty(ClassKind::Package, "P");
    p.extends.push(extends("Base"));
    let classes = vec![base, p];
    let registry = register(&classes);
    let mut out = Vec::new();
    gather_package_constants(&registry, &classes[1], 0, &mut out);
    assert!(out.iter().any(|(name, value)| name == "n" && value.is_some()));
    assert!(class_constant_is_boolean(&registry, "P.on", "", &vec![], 0));
    assert!(!class_constant_is_boolean(&registry, "P.n", "", &vec![], 0));
    let h = Inliner::new(
        |_: &ClassDef, _: &Vec<Expr>, _: usize| -> Option<Expr> { None },
    );
    let mark = None;
    let q = Knowing { registry: &registry, mark: &mark, settling: false };
    let told =
        substitute_class_constants(&h, &sums(), &q, &reference("P.n"), "M", &vec![], &vec![]);
    assert_eq!(show(&told), show(&lit(3.0)));
    let told = substitute_class_constants(
        &h,
        &sums(),
        &q,
        &reference("n"),
        "P.M",
        &vec![],
        &vec![text("n")],
    );
    assert_eq!(show(&told), show(&reference("n")));
}

#[test]
fn arrays_that_disagree_have_no_shape_between_them() {
    let known = known_shapes(&vec![(text("a"), vec![2]), (text("b"), vec![3])]);
    let sum = |l: &str, r: &str| {
        Expr::Bin(BinOp::Add, Box::new(reference(l)), Box::new(reference(r)))
    };
    assert_eq!(whole_shape(&sum("a", "b"), &known), Vec::<Vec<i64>>::new());
    assert_eq!(whole_shape(&sum("a", "a"), &known), vec![vec![2], vec![2]]);
    assert_eq!(whole_shape(&sum("a", "x"), &known), vec![vec![2]]);
    assert_eq!(
        whole_shape(&Expr::Call(text("sum"), vec![reference("a")]), &known),
        Vec::<Vec<i64>>::new()
    );
}

#[test]
fn a_size_at_an_event_is_answered_too() {
    let size = || Expr::Call(text("size"), vec![reference("A"), lit(2.0)]);
    let mut m = model(vec![(
        Expr::Index(Box::new(reference("x")), vec![size()]),
        lit(1.0),
    )]);
    m.when_clauses.push(WhenClause {
        branches: vec![WhenBranch {
            condition: size(),
            actions: vec![WhenAction::Assign(text("n"), size())],
        }],
        origin: String::new(),
    });
    settle_sizes(&mut m, &vec![(text("A"), vec![2, 3])]);
    let branch = &m.when_clauses[0].branches[0];
    assert_eq!(show(&branch.condition), show(&lit(3.0)));
    assert_eq!(show(&branch.actions[0]), show(&WhenAction::Assign(text("n"), lit(3.0))));
    let indexed = Expr::Index(Box::new(reference("x")), vec![lit(3.0)]);
    assert_eq!(show(&m.equations[0].lhs), show(&indexed));
}

#[test]
fn subscripts_are_read_back_as_they_were_written() {
    let known = known_shapes(&vec![(text("A"), vec![2, 30])]);
    let name = element_name("A", &vec![2, 17]);
    assert_eq!(name, "A[2,17]");
    assert_eq!(element_read(&reference(&name), &known), Some(vec![2, 17]));
}
