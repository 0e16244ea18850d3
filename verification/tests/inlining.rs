use oxidelica_flatten::bodies::Answer;
use oxidelica_flatten::calls::{
    gather_calls, gather_calls_in_statements, names_read, programs_used, qualified_calls,
    qualified_in, records_as_arrays, Standpoint,
};
use oxidelica_flatten::class::{
    Causality, ClassDef, ClassKind, Component, EquationItem, ExternalCall, Extends, Statement,
    StatementBranch,
};
use oxidelica_flatten::expr::{BinOp, Expr};
use oxidelica_flatten::flat::Model;
use oxidelica_flatten::info::register;
use oxidelica_flatten::inlining::{
    body_written_elsewhere, check_inverse, holds_a_name, inline_function, inline_function_checks,
    inline_function_outputs, is_real, numbered_outputs, numbers_in, outside_this_language,
    walkable, Inlined, Inlining, Unfolding,
};
use oxidelica_flatten::lookup::Registry;
use oxidelica_flatten::number::Number;
use oxidelica_flatten::stepping::blank_component;
use oxidelica_flatten::sums::{Arith, Sums};
use oxidelica_flatten::table::Table;

fn text(s: &str) -> String {
    s.to_string()
}

fn n(value: f64) -> Number {
    Number { bits: value.to_bits() }
}

fn lit(value: f64) -> Expr {
    Expr::Number(n(value))
}

fn reference(name: &str) -> Expr {
    Expr::Ref(text(name))
}

fn call(name: &str, args: Vec<Expr>) -> Expr {
    Expr::Call(text(name), args)
}

fn component(name: &str, of_type: &str, causality: Causality) -> Component {
    Component { name: text(name), of_type: text(of_type), causality, ..blank_component() }
}

fn function(name: &str) -> ClassDef {
    let mut f = ClassDef::empty(ClassKind::Function, name);
    f.components.push(component("u", "Real", Causality::Input));
    f.components.push(component("y", "Real", Causality::Output));
    f
}

fn show<T: std::fmt::Debug>(value: &T) -> String {
    format!("{value:?}")
}

fn work(op: Arith, a: Number, b: Number) -> Number {
    let (x, y) = (f64::from_bits(a.bits), f64::from_bits(b.bits));
    n(match op {
        Arith::Add => x + y,
        Arith::Sub => x - y,
        Arith::Mul => x * y,
        _ => x,
    })
}

fn answer(_: &str, _: &Vec<Number>) -> Option<Vec<Number>> {
    None
}

fn plain(name: &str) -> String {
    text(name)
}

fn body(
    class: &ClassDef,
    args: &Vec<Expr>,
    _: &Vec<Vec<i64>>,
    _: usize,
) -> Result<Answer, String> {
    if class.name == "loops" {
        return Err(text("endless"));
    }
    if class.name == "left" {
        return Err(text("left early"));
    }
    if class.name == "wrong" {
        return Err(text("wrong"));
    }
    if class.name == "silent" {
        return Ok(Answer { outputs: vec![], checks: vec![(reference("c"), text("no"))], aside: vec![] });
    }
    let value = args.iter().cloned().reduce(|a, b| Expr::Bin(BinOp::Add, Box::new(a), Box::new(b)));
    Ok(Answer {
        outputs: vec![(text("y"), value.unwrap_or(lit(0.0)))],
        checks: vec![(reference("ok"), text("checked"))],
        aside: if class.name == "calling" {
            vec![(reference("deeper"), text("checked within"))]
        } else {
            vec![]
        },
    })
}

fn put(e: &Expr, _: &str, _: &Vec<(String, String)>) -> Expr {
    match e {
        Expr::Ref(name) if name == "nState" => lit(2.0),
        other => other.clone(),
    }
}

fn no_class(_: &ClassDef) -> bool {
    false
}

fn no_expr(_: &Expr) -> bool {
    false
}

fn endless(why: &str) -> bool {
    why == "endless"
}

fn leaves(why: &str) -> bool {
    why == "left early"
}

fn sketch(_: &Expr) -> String {
    text("?")
}

fn outside(called: &str, _: &Vec<u64>) -> Option<u64> {
    if called == "generator" {
        Some(3)
    } else {
        None
    }
}

fn written(called: &str) -> bool {
    called == "generator" || called == "picky"
}

fn again(
    class: &ClassDef,
    args: &Vec<Expr>,
    shapes: &Vec<Vec<i64>>,
    depth: usize,
) -> Result<Inlined, String> {
    let mut answer = body(class, args, shapes, depth)?;
    Ok(Inlined { value: answer.outputs.remove(0).1, aside: answer.checks })
}

type Body = fn(&ClassDef, &Vec<Expr>, &Vec<Vec<i64>>, usize) -> Result<Answer, String>;
type Hands = Inlining<
    Body,
    fn(&Expr, &str, &Vec<(String, String)>) -> Expr,
    fn(&ClassDef) -> bool,
    fn(&Expr) -> bool,
    fn(&str) -> bool,
    fn(&str) -> bool,
    fn(&Expr) -> String,
    fn(&str, &Vec<u64>) -> Option<u64>,
    fn(&str) -> bool,
    fn(&ClassDef, &Vec<Expr>, &Vec<Vec<i64>>, usize) -> Result<Inlined, String>,
>;
type Arithmetic = Sums<
    fn(Arith, Number, Number) -> Number,
    fn(&str, &Vec<Number>) -> Option<Vec<Number>>,
    fn(&str) -> String,
>;

fn hands() -> Hands {
    Inlining::new(
        body,
        put,
        no_class,
        no_expr,
        endless,
        leaves,
        sketch,
        outside,
        written,
        again,
    )
}

fn sums() -> Arithmetic {
    Sums::new(
        work,
        answer,
        plain,
    )
}

fn unfolding<'q, 'a>(registry: &'q Registry<'a>) -> Unfolding<'q, 'a> {
    Unfolding { registry, most: 4, settling: false }
}

fn model(equations: Vec<(Expr, Expr)>) -> Model {
    Model {
        name: text("M"),
        description: None,
        components: vec![],
        equations: equations
            .into_iter()
            .map(|(lhs, rhs)| EquationItem { lhs, rhs, origin: String::new() })
            .collect(),
        initial_equations: vec![],
        asserts: vec![],
        transitions: vec![],
        initial_states: vec![],
        connection_graph: vec![],
        when_clauses: vec![],
        conditional: vec![],
        transports: vec![],
        experiment: None,
        functions: vec![],
    }
}

#[test]
fn a_call_comes_to_its_first_output() {
    let classes = vec![function("f")];
    let registry = register(&classes);
    let q = unfolding(&registry);
    let told = inline_function(
        &hands(),
        &sums(),
        &q,
        &classes[0],
        &vec![reference("x")],
        &vec![vec![]],
        0,
        0,
    )
    .unwrap();
    assert_eq!(show(&told.value), show(&reference("x")));
    assert_eq!(told.aside.len(), 1);
}

#[test]
fn a_call_too_deep_or_endless_is_left_standing() {
    let classes = vec![function("f"), function("loops"), function("left"), function("wrong")];
    let registry = register(&classes);
    let q = unfolding(&registry);
    let args = vec![reference("x")];
    let inline = |class: &ClassDef, nested: usize| {
        inline_function(&hands(), &sums(), &q, class, &args, &vec![vec![]], 0, nested)
    };
    assert_eq!(show(&inline(&classes[0], 5).unwrap().value), show(&call("f", args.clone())));
    assert_eq!(show(&inline(&classes[1], 0).unwrap().value), show(&call("loops", args.clone())));
    assert_eq!(show(&inline(&classes[2], 0).unwrap().value), show(&call("left", args.clone())));
    assert_eq!(inline(&classes[3], 0).unwrap_err(), "wrong");
}

#[test]
fn a_function_may_say_how_to_differentiate_itself() {
    let mut f = function("f");
    f.derivative = Some(text("f_der"));
    let mut der = function("f_der");
    der.components.push(component("du", "Real", Causality::Input));
    let classes = vec![f, der];
    let registry = register(&classes);
    let q = unfolding(&registry);
    let told = inline_function(
        &hands(),
        &sums(),
        &q,
        &classes[0],
        &vec![reference("x")],
        &vec![vec![]],
        0,
        0,
    )
    .unwrap();
    match told.value {
        Expr::WithDerivative(value, rule, seeds) => {
            assert_eq!(show(&*value), show(&reference("x")));
            assert!(matches!(*rule, Expr::Bin(BinOp::Add, _, _)));
            assert_eq!(seeds.len(), 1);
            assert_eq!(seeds[0].0, "$seed0");
        }
        other => panic!("{other:?}"),
    }
    let mut f = function("f");
    f.derivative = Some(text("missing"));
    let classes = vec![f];
    let registry = register(&classes);
    let q = unfolding(&registry);
    let why = inline_function(
        &hands(),
        &sums(),
        &q,
        &classes[0],
        &vec![reference("x")],
        &vec![vec![]],
        0,
        0,
    )
    .unwrap_err();
    assert_eq!(why, "`f` says its derivative is `missing`, and there is no such function");
}

#[test]
fn a_derivative_takes_as_much_as_it_should() {
    let mut f = function("f");
    f.derivative = Some(text("f_der"));
    let classes = vec![f, function("f_der")];
    let registry = register(&classes);
    let q = unfolding(&registry);
    let why = inline_function(
        &hands(),
        &sums(),
        &q,
        &classes[0],
        &vec![reference("x")],
        &vec![vec![]],
        0,
        0,
    )
    .unwrap_err();
    assert_eq!(
        why,
        "`f_der` is the derivative of `f`, so it takes 2 inputs - what `f` takes, and then one derivative for each - but it takes 1"
    );
}

#[test]
fn every_output_is_given_back() {
    let classes = vec![function("f"), function("silent"), function("calling")];
    let registry = register(&classes);
    let q = unfolding(&registry);
    let told =
        inline_function_outputs(&hands(), &sums(), &q, &classes[0], &vec![lit(1.0)], &vec![], 0)
            .unwrap();
    assert_eq!(told.outputs.len(), 1);
    assert_eq!(
        inline_function_outputs(&hands(), &sums(), &q, &classes[1], &vec![], &vec![], 0)
            .map(|a| a.outputs.len())
            .unwrap_err(),
        "function `silent` declares no output"
    );
    let (checks, aside) =
        inline_function_checks(&hands(), &sums(), &q, &classes[1], &vec![], &vec![], 0).unwrap();
    assert_eq!(checks.len(), 1);
    assert!(aside.is_empty());
    let (checks, aside) =
        inline_function_checks(&hands(), &sums(), &q, &classes[2], &vec![lit(1.0)], &vec![], 0)
            .unwrap();
    assert_eq!(checks[0].1, "checked");
    assert_eq!(aside[0].1, "checked within");
}

#[test]
fn what_a_body_calls_is_set_aside_before_its_own_checks() {
    let classes = vec![function("calling")];
    let registry = register(&classes);
    let q = unfolding(&registry);
    let told =
        inline_function(&hands(), &sums(), &q, &classes[0], &vec![lit(1.0)], &vec![], 0, 0).unwrap();
    let said: Vec<&str> = told.aside.iter().map(|(_, message)| message.as_str()).collect();
    assert_eq!(said, vec!["checked within", "checked"]);
}

#[test]
fn constants_are_put_in_only_while_a_parameter_is_settled() {
    let classes = vec![function("f")];
    let registry = register(&classes);
    for settling in [false, true] {
        let q = Unfolding { registry: &registry, most: 4, settling };
        let told = inline_function_outputs(
            &hands(),
            &sums(),
            &q,
            &classes[0],
            &vec![reference("nState")],
            &vec![],
            0,
        )
        .unwrap();
        let expected = if settling { lit(2.0) } else { reference("nState") };
        assert_eq!(show(&told.outputs[0].1), show(&expected));
    }
    assert!(holds_a_name(&call("f", vec![reference("x")])));
    assert!(!holds_a_name(&call("f", vec![lit(1.0)])));
}

#[test]
fn a_body_the_run_walks_carries_numbers() {
    let mut long = function("long");
    long.components[1].dimensions.push(reference("n"));
    let mut known = function("known");
    known.components[1].dimensions.push(reference("nState"));
    let mut worded = function("worded");
    worded.components.push(component("s", "String", Causality::Acausal));
    let quiet = ClassDef::empty(ClassKind::Function, "quiet");
    let mut mixed = function("mixed");
    mixed.components.push(Component {
        dimensions: vec![lit(2.0)],
        ..component("z", "Real", Causality::Output)
    });
    let classes = vec![function("f"), long, known, worded, quiet, mixed];
    let registry = register(&classes);
    let q = unfolding(&registry);
    let trouble = |i: usize| walkable(&hands(), &sums(), &q, &classes[i]);
    assert_eq!(trouble(0), None);
    assert_eq!(
        trouble(1),
        Some(text("`long` is called where nothing could inline it, so the run walks its body - and it answers with `y`, whose length is not one the compiler can see"))
    );
    assert_eq!(trouble(2), None);
    assert_eq!(
        trouble(3),
        Some(text("`worded` is called where nothing could inline it, so the run walks its body - and `s` is a String, which no step carries"))
    );
    assert_eq!(
        trouble(4),
        Some(text("`quiet` is called where nothing could inline it, so the run walks its body - and a body walked at run time answers with something, not nothing"))
    );
    assert_eq!(
        trouble(5),
        Some(text("`mixed` is called where nothing could inline it, so the run walks its body - and it answers with 2 things, of which `z` is an array: the run lays the answers end to end, and cannot say where one of unknown length leaves off"))
    );
}

#[test]
fn what_a_function_says_of_its_inverse_is_checked() {
    let with = |solved: &str, by: &str, handed: &[&str]| {
        let mut f = function("f");
        f.inverse.push((text(solved), text(by), handed.iter().map(|a| text(a)).collect()));
        let classes = vec![f, function("g")];
        let registry = register(&classes);
        check_inverse(&registry, &classes[0])
    };
    assert_eq!(with("u", "g", &["y"]), None);
    assert_eq!(
        with("u", "h", &["y"]),
        Some(text("`f` says `h` inverts it, and there is no such function"))
    );
    assert_eq!(
        with("y", "g", &["y"]),
        Some(text("`f` says its inverse solves for `y`, which is not one of its inputs"))
    );
    assert_eq!(
        with("u", "g", &["w"]),
        Some(text("the inverse of `f` is handed `w`, which `f` neither takes nor gives"))
    );
}

#[test]
fn a_type_is_real_through_its_aliases() {
    let mut volt = ClassDef::empty(ClassKind::Type, "Volt");
    volt.alias_of = Some((text("Real"), vec![]));
    let mut count = ClassDef::empty(ClassKind::Type, "Count");
    count.alias_of = Some((text("Integer"), vec![]));
    let mut ring = ClassDef::empty(ClassKind::Type, "Ring");
    ring.alias_of = Some((text("Ring"), vec![]));
    let classes = vec![volt, count, ring];
    let registry = register(&classes);
    assert!(is_real(&registry, "Real", "", &vec![], 32));
    assert!(is_real(&registry, "Volt", "", &vec![], 32));
    assert!(!is_real(&registry, "Count", "", &vec![], 32));
    assert!(!is_real(&registry, "Ring", "", &vec![], 32));
}

#[test]
fn a_body_outside_the_language_is_named_where_it_is_refused() {
    let mut f = function("f");
    f.external = true;
    let mut g = function("g");
    g.external = true;
    g.external_call = Some(ExternalCall {
        called: text("c_func"),
        arguments: vec![reference("u"), lit(1.0)],
        language: Some(text("C")),
    });
    let classes = vec![f, g];
    let registry = register(&classes);
    let q = unfolding(&registry);
    assert_eq!(
        outside_this_language(&hands(), &sums(), &q, &classes[0]),
        "`f` has a body written outside Modelica, which this compiler cannot run"
    );
    assert_eq!(
        outside_this_language(&hands(), &sums(), &q, &classes[1]),
        "`g` is `c_func(u, ?)` in C, written outside Modelica; this compiler has none of its own for that name, and no outside library was given"
    );
}

#[test]
fn a_body_written_outside_answers_by_its_places() {
    let mut external = function("e");
    external.external = true;
    external.external_call =
        Some(ExternalCall { called: text("generator"), arguments: vec![], language: None });
    external.components.push(Component {
        dimensions: vec![reference("nState")],
        ..component("stateOut", "Real", Causality::Output)
    });
    let mut builtin = function("b");
    builtin.builtin = Some(text("asin"));
    let mut picky = function("p");
    picky.external = true;
    picky.external_call =
        Some(ExternalCall { called: text("picky"), arguments: vec![], language: None });
    let mut table = function("t");
    table.external = true;
    table.external_call = Some(ExternalCall {
        called: text("ModelicaStandardTables_CombiTable2D_minimumAbscissa"),
        arguments: vec![],
        language: None,
    });
    table.components[1].dimensions.push(lit(2.0));
    let classes = vec![external, builtin, picky, table, function("f")];
    let registry = register(&classes);
    let q = unfolding(&registry);
    let args = vec![reference("x")];
    let shapes: Vec<Vec<i64>> = vec![vec![]];
    let consts: Table<Number> = Table::new();
    let told =
        |i: usize| body_written_elsewhere(&hands(), &sums(), &q, &classes[i], &args, &shapes, &consts);
    let made = call("generator", args.clone());
    let place = |k: f64| Expr::Index(Box::new(made.clone()), vec![lit(k)]);
    let outputs = told(0).unwrap().unwrap();
    assert_eq!(show(&outputs[0]), show(&(text("y"), place(1.0))));
    assert_eq!(
        show(&outputs[1]),
        show(&(text("stateOut"), Expr::Array(vec![place(2.0), place(3.0)])))
    );
    assert_eq!(show(&told(1).unwrap().unwrap()), show(&vec![(text("y"), call("asin", args.clone()))]));
    assert_eq!(
        told(2).unwrap_err(),
        "`picky` is written here, and not for what it was handed: 1 argument(s) of 1 number(s) in all"
    );
    let outputs = told(3).unwrap().unwrap();
    assert!(matches!(&outputs[0].1, Expr::Array(items) if items.len() == 2));
    assert!(told(4).unwrap().is_none());
    assert_eq!(
        numbered_outputs(&hands(), &sums(), &q, &classes[0], &consts, &Table::new(), &made, 5)
            .unwrap_err(),
        "`e` answers with 3 number(s), and the body written here answers with 5"
    );
    assert_eq!(numbers_in(&Expr::Array(vec![lit(1.0), Expr::Array(vec![lit(2.0), lit(3.0)])])), 3);
}

#[test]
fn calls_are_gathered_under_the_names_they_are_known_by() {
    let classes = vec![function("P.f"), ClassDef::empty(ClassKind::Record, "P.R")];
    let copies_held = vec![function("copy")];
    let registry = register(&classes);
    let copies = register(&copies_held);
    let imports = vec![];
    let p = Standpoint { registry: &registry, copies: &copies, scope: "P", imports: &imports };
    let mut out = Vec::new();
    let inner = call("f", vec![call("copy", vec![])]);
    let expr = Expr::Index(Box::new(inner), vec![call("f", vec![])]);
    gather_calls(&p, &expr, &mut out);
    gather_calls(&p, &call("R", vec![]), &mut out);
    assert_eq!(out, vec!["P.f", "copy"]);
    let body = vec![
        Statement::Assign(text("y"), vec![call("f", vec![])], lit(1.0)),
        Statement::Call(text("f"), vec![]),
        Statement::If(vec![StatementBranch {
            condition: Some(call("f", vec![])),
            body: vec![Statement::While(call("f", vec![]), vec![Statement::Break])],
        }]),
    ];
    let mut out = Vec::new();
    gather_calls_in_statements(&p, &body, &mut out);
    assert_eq!(out, vec!["P.f", "P.f", "P.f", "P.f"]);
    assert_eq!(
        show(&qualified_in(&p, &Expr::Neg(Box::new(call("f", vec![reference("x")]))))),
        show(&Expr::Neg(Box::new(call("P.f", vec![reference("x")]))))
    );
}

#[test]
fn records_are_carried_as_arrays() {
    let mut state = ClassDef::empty(ClassKind::Record, "State");
    state.components.push(component("p", "Real", Causality::Acausal));
    state.components.push(component("T", "Real", Causality::Acausal));
    let classes = vec![state];
    let copies_held: Vec<ClassDef> = vec![];
    let registry = register(&classes);
    let copies = register(&copies_held);
    let imports = vec![];
    let p = Standpoint { registry: &registry, copies: &copies, scope: "f", imports: &imports };
    let mut list = vec![
        component("state", "State", Causality::Input),
        component("k", "Real", Causality::Input),
    ];
    let renamed = records_as_arrays(&p, &mut list);
    assert_eq!(list[0].of_type, "Real");
    assert_eq!(show(&list[0].dimensions), show(&vec![lit(2.0)]));
    assert!(list[1].dimensions.is_empty());
    assert_eq!(show(renamed.get("state.T").unwrap()), show(&reference("state[2]")));
    let body = vec![Statement::Assign(text("state.p"), vec![], reference("state.T"))];
    let told = qualified_calls(&p, &renamed, &body);
    assert_eq!(
        show(&told),
        show(&vec![Statement::Assign(text("state[1]"), vec![], reference("state[2]"))])
    );
}

#[test]
fn a_body_is_carried_once_with_what_it_calls() {
    let mut f = function("f");
    f.algorithm.push(Statement::Assign(text("y"), vec![], call("g", vec![reference("u")])));
    let mut g = function("g");
    g.extends.push(Extends {
        base: text("f"),
        modifiers: vec![],
        redeclares: vec![],
        broken: vec![],
        from_base: false,
    });
    g.algorithm.push(Statement::Assign(text("y"), vec![], call("f", vec![reference("u")])));
    let classes = vec![f, g];
    let copies_held: Vec<ClassDef> = vec![];
    let registry = register(&classes);
    let copies = register(&copies_held);
    let q = unfolding(&registry);
    let flat = model(vec![(reference("a"), call("f", vec![reference("t")]))]);
    let programs = programs_used(&hands(), &sums(), &q, &copies, &flat).unwrap();
    let names: Vec<&str> = programs.iter().map(|p| p.class.name.as_str()).collect();
    assert_eq!(names, vec!["f", "g"]);
    assert_eq!(programs[0].components.len(), 2);
    assert_eq!(programs[0].algorithm.len(), 1);
    let none = programs_used(&hands(), &sums(), &q, &copies, &model(vec![])).unwrap();
    assert!(none.is_empty());
}

#[test]
fn a_body_that_cannot_be_walked_is_refused() {
    let mut f = function("f");
    f.components.push(component("s", "String", Causality::Input));
    let classes = vec![f];
    let copies_held: Vec<ClassDef> = vec![];
    let registry = register(&classes);
    let copies = register(&copies_held);
    let q = unfolding(&registry);
    let flat = model(vec![(reference("a"), call("f", vec![]))]);
    assert!(programs_used(&hands(), &sums(), &q, &copies, &flat).is_err());
}

#[test]
fn the_names_a_body_reads_come_in_order_and_once() {
    let mut f = function("f");
    f.components[1].binding = Some(reference("k"));
    f.algorithm.push(Statement::Assign(
        text("y"),
        vec![reference("i")],
        Expr::Bin(BinOp::Add, Box::new(reference("u")), Box::new(reference("k"))),
    ));
    assert_eq!(names_read(&f), vec!["i", "k", "u"]);
}
