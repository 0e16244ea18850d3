use oxidelica_flatten::bodies::{worked_body, Asking, Walked, Walking};
use oxidelica_flatten::class::{
    Causality, ClassDef, ClassKind, Component, EquationItem, ForBody, ForEquation, Statement,
    Transition, WhenAction,
};
use oxidelica_flatten::clockwork::{Beat, Clockwork, Ticking};
use oxidelica_flatten::equations::flatten_equations;
use oxidelica_flatten::expr::{BinOp, Expr};
use oxidelica_flatten::flat::{Carried, Flat, Model};
use oxidelica_flatten::folding::const_eval;
use oxidelica_flatten::grids::{on_the_grid, Drawing, Extrapolation, Grid, Smoothness, Wanted};
use oxidelica_flatten::info::register;
use oxidelica_flatten::inlining::Inlined;
use oxidelica_flatten::instantiate::{
    instantiate, nothing_yet, Building, Built, Course, Env, Floor, Ground,
};
use oxidelica_flatten::names::Naming;
use oxidelica_flatten::number::Number;
use oxidelica_flatten::partitions::partition_clocks;
use oxidelica_flatten::reading::{Flow, Here, Ran, Reading};
use oxidelica_flatten::resolving::{resolve, Hands, Place};
use oxidelica_flatten::rounds::unroll;
use oxidelica_flatten::stepping::{blank_component, build_state_machines};
use oxidelica_flatten::sums::{Arith, Sums};
use oxidelica_flatten::table::Table;
use oxidelica_flatten::value::Value;

fn text(s: &str) -> String {
    s.to_string()
}

fn n(value: f64) -> Number {
    Number { bits: value.to_bits() }
}

fn lit(value: f64) -> Expr {
    Expr::Number(n(value))
}

fn reference(name: &str) -> Expr {
    Expr::Ref(text(name))
}

fn show<T: std::fmt::Debug>(value: &T) -> String {
    format!("{value:?}")
}

fn component(name: &str, of_type: &str) -> Component {
    Component { name: text(name), of_type: text(of_type), ..blank_component() }
}

fn equation(lhs: Expr, rhs: Expr) -> EquationItem {
    EquationItem { lhs, rhs, origin: String::new() }
}

fn work(op: Arith, a: Number, b: Number) -> Number {
    let (x, y) = (f64::from_bits(a.bits), f64::from_bits(b.bits));
    n(match op {
        Arith::Add => x + y,
        Arith::Sub => x - y,
        Arith::Mul => x * y,
        Arith::Div => x / y,
        Arith::Floor => x.floor(),
        _ => x,
    })
}

fn answer(_: &str, _: &Vec<Number>) -> Option<Vec<Number>> {
    None
}

fn plain(name: &str) -> String {
    text(name)
}

type Arithmetic = Sums<
    fn(Arith, Number, Number) -> Number,
    fn(&str, &Vec<Number>) -> Option<Vec<Number>>,
    fn(&str) -> String,
>;

fn sums() -> Arithmetic {
    Sums::new(
        work,
        answer,
        plain,
    )
}

fn naming(prefix: &str) -> Naming {
    Naming { prefix: text(prefix), outers: Table::new(), minted: vec![] }
}

fn here(prefix: &str) -> Here {
    Here {
        scope: text("M"),
        imports: vec![],
        naming: naming(prefix),
        consts: Table::new(),
        sizes: Table::new(),
        records: Table::new(),
    }
}

fn model() -> Model {
    Model {
        name: text("M"),
        description: None,
        components: vec![component("x", "Real")],
        equations: vec![equation(reference("x"), lit(1.0))],
        initial_equations: vec![],
        asserts: vec![],
        transitions: vec![],
        initial_states: vec![],
        connection_graph: vec![],
        when_clauses: vec![],
        conditional: vec![],
        transports: vec![],
        experiment: None,
        functions: vec![],
    }
}

fn grid(smoothness: Smoothness, extrapolation: Extrapolation) -> Grid {
    Grid {
        rows: vec![
            vec![n(0.0), n(1.0), n(2.0)],
            vec![n(1.0), n(10.0), n(20.0)],
            vec![n(2.0), n(30.0), n(40.0)],
        ],
        smoothness,
        extrapolation,
    }
}

fn read_grid(g: &Grid, u1: f64, u2: f64) -> Result<Option<f64>, String> {
    let h = Drawing::new(
        |_: &Vec<Number>, values: &Vec<Number>| -> Vec<Number> {
            vec![n(0.0); values.len()]
        },
        |value: Number| -> String { f64::from_bits(value.bits).to_string() },
    );
    let read = on_the_grid(&h, &sums(), g, &lit(u1), &lit(u2), Wanted::Value)?;
    Ok(const_eval(&read.written, &Table::new(), &sums()).map(|v| f64::from_bits(v.bits)))
}

#[test]
fn a_grid_is_read_between_its_points() {
    let g = grid(Smoothness::Linear, Extrapolation::LastTwoPoints);
    assert_eq!(read_grid(&g, 1.0, 1.0), Ok(Some(10.0)));
    assert_eq!(read_grid(&g, 2.0, 2.0), Ok(Some(40.0)));
    assert_eq!(read_grid(&g, 1.5, 1.5), Ok(Some(25.0)));
    assert_eq!(read_grid(&g, 3.0, 1.0), Ok(Some(50.0)));
}

#[test]
fn a_held_grid_stays_at_its_last_point() {
    let g = grid(Smoothness::Linear, Extrapolation::HoldLastPoint);
    assert_eq!(read_grid(&g, 5.0, 1.0), Ok(Some(30.0)));
    assert_eq!(read_grid(&g, 0.0, 2.0), Ok(Some(20.0)));
}

#[test]
fn loop_variables_and_calls_are_worked_out() {
    let classes: Vec<ClassDef> = vec![];
    let registry = register(&classes);
    let mut loop_vars: Table<Number> = Table::new();
    loop_vars.put(text("i"), n(2.0));
    let consts: Table<Number> = Table::new();
    let sizes: Table<Vec<i64>> = Table::new();
    let imports = vec![];
    let standing = vec![];
    let mark = None;
    let p = Place {
        loop_vars: &loop_vars,
        consts: &consts,
        sizes: &sizes,
        registry: &registry,
        scope: "M",
        imports: &imports,
        standing: &standing,
        mark: &mark,
        no_bottom: "no bottom",
    };
    let arithmetic = sums();
    let h = Hands::new(
        &arithmetic,
        |_: &Expr| -> String { text("?") },
        |value: Number| -> String { f64::from_bits(value.bits).to_string() },
        |_: &str| -> bool { true },
        |_: &ClassDef, _: &Option<String>, _: &Vec<Expr>, _: &Vec<Vec<i64>>, _: usize| -> Result<Inlined, String> {
            Err(text("no body"))
        },
    );
    let mut aside = vec![];
    assert_eq!(
        show(&resolve(&reference("i"), &p, &h, 0, &mut aside)),
        show(&Ok::<Expr, String>(lit(2.0)))
    );
    assert_eq!(
        show(&resolve(&reference("x"), &p, &h, 0, &mut aside)),
        show(&Ok::<Expr, String>(reference("x")))
    );
    let element = Expr::Index(Box::new(reference("v")), vec![reference("i")]);
    assert_eq!(
        show(&resolve(&element, &p, &h, 0, &mut aside)),
        show(&Ok::<Expr, String>(reference("v[2]")))
    );
    assert!(aside.is_empty());
}

#[test]
fn what_bodies_check_is_kept_though_the_expression_fails() {
    let classes = vec![
        ClassDef::empty(ClassKind::Function, "safe"),
        ClassDef::empty(ClassKind::Function, "wrong"),
    ];
    let registry = register(&classes);
    let (loop_vars, consts) = (Table::new(), Table::new());
    let sizes: Table<Vec<i64>> = Table::new();
    let (imports, standing, mark) = (vec![], vec![], None);
    let p = Place {
        loop_vars: &loop_vars,
        consts: &consts,
        sizes: &sizes,
        registry: &registry,
        scope: "M",
        imports: &imports,
        standing: &standing,
        mark: &mark,
        no_bottom: "no bottom",
    };
    let arithmetic = sums();
    let h = Hands::new(
        &arithmetic,
        |_: &Expr| -> String { text("?") },
        |value: Number| -> String { f64::from_bits(value.bits).to_string() },
        |_: &str| -> bool { false },
        |class: &ClassDef, _: &Option<String>, args: &Vec<Expr>, _: &Vec<Vec<i64>>, _: usize| -> Result<Inlined, String> {
            if class.name == "wrong" {
                return Err(text("no body"));
            }
            Ok(Inlined { value: args[0].clone(), aside: vec![(args[0].clone(), text("safe"))] })
        },
    );
    let safe = |e: Expr| Expr::Call(text("safe"), vec![e]);
    let mut aside = vec![];
    let both = Expr::Bin(
        BinOp::Add,
        Box::new(safe(reference("a"))),
        Box::new(safe(safe(reference("b")))),
    );
    let told = resolve(&both, &p, &h, 0, &mut aside).unwrap();
    assert_eq!(
        show(&told),
        show(&Expr::Bin(BinOp::Add, Box::new(reference("a")), Box::new(reference("b"))))
    );
    let checked: Vec<String> = aside.iter().map(|(e, _)| show(e)).collect();
    assert_eq!(checked, vec![show(&reference("a")), show(&reference("b")), show(&reference("b"))]);
    let mut aside = vec![];
    let fails = Expr::Bin(
        BinOp::Add,
        Box::new(safe(reference("a"))),
        Box::new(Expr::Call(text("wrong"), vec![safe(reference("b"))])),
    );
    assert_eq!(resolve(&fails, &p, &h, 0, &mut aside).unwrap_err(), "no body");
    assert_eq!(aside.len(), 2);
}

fn spread(
    e: &Expr,
    vars: &Table<Number>,
    _: &Table<Number>,
    _: &Table<String>,
) -> Result<(Value, Vec<(Expr, String)>), String> {
    let value = match e {
        Expr::Range(_, _, _) => {
            Value::Array((1..=3).map(|i| Value::Scalar(lit(i as f64))).collect())
        }
        Expr::Ref(name) => match vars.get(name) {
            Some(value) => Value::Scalar(Expr::Number(*value)),
            None => Value::Scalar(e.clone()),
        },
        Expr::Call(name, args) if name == "checked" => {
            return Ok((Value::Scalar(args[0].clone()), vec![(args[0].clone(), text("checked"))]));
        }
        other => Value::Scalar(other.clone()),
    };
    Ok((value, vec![]))
}

fn unfold(
    value: Value,
    _: &Table<Number>,
    _: &Table<Number>,
    _: &Table<String>,
) -> Result<(Value, Vec<(Expr, String)>), String> {
    Ok((value, vec![]))
}

fn pair(a: &Value, b: &Value, origin: &str) -> Result<Vec<EquationItem>, String> {
    Ok(vec![EquationItem { lhs: a.into_expr(), rhs: b.into_expr(), origin: text(origin) }])
}

fn run(_: &Vec<&Statement>) -> Result<Ran, String> {
    Ok(Ran { flow: Flow::Normal, written: Table::new(), order: vec![], checks: vec![], aside: vec![] })
}

type Lines = Reading<
    fn(&Expr, bool) -> Expr,
    fn(&Expr, &Table<Number>, &Table<Number>, &Table<String>) -> Result<(Value, Vec<(Expr, String)>), String>,
    fn(Value, &Table<Number>, &Table<Number>, &Table<String>) -> Result<(Value, Vec<(Expr, String)>), String>,
    fn(&Value, &Value, &str) -> Result<Vec<EquationItem>, String>,
    fn(&Expr) -> String,
    fn(Option<&Expr>) -> String,
    fn(&Vec<&Statement>) -> Result<Ran, String>,
    fn(&ClassDef, &Vec<Expr>, &Vec<Vec<i64>>) -> Result<(Vec<(String, Expr)>, Vec<(Expr, String)>), String>,
    fn(&ClassDef, &Vec<Expr>, &Vec<Vec<i64>>) -> Result<(Vec<(Expr, String)>, Vec<(Expr, String)>), String>,
    fn(&str) -> bool,
    fn(&ClassDef) -> bool,
>;

fn reading() -> Lines {
    Reading::new(
        |e, _| e.clone(),
        spread,
        unfold,
        pair,
        |e| format!("{e:?}"),
        |e| format!("{e:?}"),
        run,
        |_, _, _| Err(text("no outputs")),
        |_, _, _| Ok((vec![], vec![])),
        |_| false,
        |_| false,
    )
}

fn each(variable: &str, body: Vec<ForBody>) -> ForEquation {
    ForEquation {
        variable: text(variable),
        range: Some(Expr::Range(Box::new(lit(1.0)), None, Box::new(lit(3.0)))),
        body,
    }
}

#[test]
fn a_loop_states_its_equations_once_a_round() {
    let l = each("i", vec![ForBody::Equation(equation(reference("x"), reference("i")))]);
    let acc = unroll(
        &reading(),
        &sums(),
        &here(""),
        Flat::new(),
        &l,
        &Table::new(),
        &Table::new(),
    )
    .unwrap();
    assert_eq!(acc.equations.len(), 3);
    assert_eq!(show(&acc.equations[2].rhs), show(&lit(3.0)));
    assert!(acc.rest.aside.is_empty());
    let l = each(
        "i",
        vec![ForBody::Equation(equation(
            reference("x"),
            Expr::Call(text("checked"), vec![reference("y")]),
        ))],
    );
    let acc = unroll(
        &reading(),
        &sums(),
        &here(""),
        Flat::new(),
        &l,
        &Table::new(),
        &Table::new(),
    )
    .unwrap();
    assert_eq!(acc.rest.aside.len(), 3);
    assert_eq!(show(&acc.equations[0].rhs), show(&reference("y")));
    let nested = each("i", vec![ForBody::Nested(each(
        "j",
        vec![ForBody::Equation(equation(reference("x"), reference("j")))],
    ))]);
    let acc = unroll(
        &reading(),
        &sums(),
        &here(""),
        Flat::new(),
        &nested,
        &Table::new(),
        &Table::new(),
    )
    .unwrap();
    assert_eq!(acc.equations.len(), 9);
}

#[test]
fn what_a_class_states_is_gathered() {
    let mut class = ClassDef::empty(ClassKind::Model, "M");
    class.equations.push(equation(reference("x"), lit(1.0)));
    class.initial_equations.push(equation(reference("x"), lit(0.0)));
    class.asserts.push((Expr::Bool(true), text("holds")));
    let classes: Vec<ClassDef> = vec![];
    let registry = register(&classes);
    let acc = flatten_equations(
        &reading(),
        &sums(),
        &registry,
        &here(""),
        Flat::new(),
        &class,
        &vec![],
        &vec![],
        &mut vec![],
    )
    .unwrap();
    assert_eq!(acc.equations.len(), 1);
    assert_eq!(acc.initial_equations.len(), 1);
    assert_eq!(acc.asserts.len(), 1);
}

#[test]
fn a_body_is_run_over_its_arguments() {
    let mut f = ClassDef::empty(ClassKind::Function, "f");
    f.components.push(Component { causality: Causality::Input, ..component("u", "Real") });
    f.components.push(Component { causality: Causality::Output, ..component("y", "Real") });
    f.algorithm.push(Statement::Assign(text("y"), vec![], reference("u")));
    let classes = vec![f];
    let registry = register(&classes);
    let h = Walking::new(
        |_: &ClassDef, e: &Expr| -> Expr { e.clone() },
        |_: &ClassDef, _: &str| -> Option<Expr> { None },
        |_: &ClassDef, _: &Table<Number>, _: &Table<Number>, sizes: Table<Vec<i64>>| -> Table<Vec<i64>> {
            sizes
        },
        |_: &ClassDef, _: &Expr, _: &Table<Expr>, _: &Table<Number>, _: &Table<Vec<i64>>, _: usize| -> Option<Number> {
            None
        },
        |_: &ClassDef, e: &Expr, _: &Table<Number>, _: &Table<Vec<i64>>, _: usize| -> Result<(Value, Vec<(Expr, String)>), String> {
            Ok((Value::Scalar(e.clone()), vec![]))
        },
        |_: &ClassDef, list: &Vec<Statement>, mut bindings: Table<Expr>, _: &Table<Number>, _: &Table<Vec<i64>>, _: usize| -> Result<Walked, String> {
            for statement in list {
                if let Statement::Assign(name, _, Expr::Ref(from)) = statement {
                    let value = bindings.get(from).unwrap().clone();
                    bindings.put(name.clone(), value);
                }
            }
            Ok(Walked { flow: Flow::Normal, bindings, checks: vec![], aside: vec![] })
        },
        |_: &ClassDef, _: &Component| -> Option<Vec<String>> { None },
        |_: &ClassDef, _: &Component| -> Vec<String> { vec![] },
        |_: &ClassDef, _: &Component| -> Vec<(String, Vec<i64>)> { vec![] },
        |_: &ClassDef| -> Vec<String> { vec![] },
        |_: &ClassDef, _: &Vec<Expr>, _: &Vec<Vec<i64>>, _: &Table<Number>| -> Result<Option<Vec<(String, Expr)>>, String> {
            Ok(None)
        },
    );
    let mark = None;
    let consts = Table::new();
    let q = Asking { class: &classes[0], mark: &mark, consts: &consts, landed: "", depth: 0 };
    let told = worked_body(
        &h,
        &sums(),
        &registry,
        &q,
        &vec![reference("a")],
        &vec![vec![]],
        "no bottom",
    )
    .unwrap();
    assert_eq!(show(&told.outputs), show(&vec![(text("y"), reference("a"))]));
    assert!(told.checks.is_empty());
    let why = worked_body(&h, &sums(), &registry, &q, &vec![], &vec![], "no bottom").err().unwrap();
    assert!(why.contains("`u`"), "{why}");
}

#[test]
fn a_class_is_instantiated_and_the_stamp_put_back() {
    let mut m = ClassDef::empty(ClassKind::Model, "M");
    m.components.push(component("x", "Real"));
    let classes = vec![m];
    let registry = register(&classes);
    let h = Building::new(
        |e: &Expr, _: &str, _: &Vec<(String, String)>, _: &Vec<String>| -> Expr { e.clone() },
        |_: &ClassDef, _: &Table<Number>, _: &Vec<(String, Expr)>| -> Table<Vec<i64>> {
            Table::new()
        },
        |_: &Expr, _: &Table<String>| -> Option<String> { None },
        |e: &Expr, _: &Table<Number>, _: &str, _: &Vec<(String, String)>| -> (Result<Expr, String>, Vec<(Expr, String)>) {
            (Ok(e.clone()), vec![])
        },
        |e: &Expr, _: &Table<String>, _: &Table<Number>| -> Result<Expr, String> { Ok(e.clone()) },
        |_: &ClassDef, _: &Vec<(String, String)>| -> Option<String> { None },
        |class: &ClassDef, _: &Env, _: &Floor, mut course: Course, built: Built| -> Result<(Course, Built), String> {
            for c in &class.components {
                course.flat.components.push(c.clone());
            }
            Ok((course, built))
        },
        |_: &ClassDef, _: &Env, _: &Here, _: &Table<Vec<i64>>, _: &Built, course: Course| -> Result<(Course, Vec<bool>), String> {
            Ok((course, vec![]))
        },
        |e: &Expr, _: &Here| -> Result<(Expr, Vec<(Expr, String)>), String> {
            Ok((e.clone(), vec![]))
        },
    );
    let minted = vec![];
    let q = Ground { registry: &registry, minted: &minted, twice: false };
    let (overrides, redeclares, inners, broken, mark) = (vec![], vec![], vec![], vec![], None);
    let (handed_shapes, outer_sizes) = (Table::new(), Table::new());
    let env = Env {
        overrides: &overrides,
        handed_shapes: &handed_shapes,
        outer_sizes: &outer_sizes,
        redeclares: &redeclares,
        inners: &inners,
        broken: &broken,
        inside_a_parameter: false,
        mark: &mark,
    };
    let course = instantiate(&h, &sums(), &q, &classes[0], "", &env, nothing_yet(), 0).unwrap();
    assert_eq!(course.flat.components.len(), 1);
    assert_eq!(course.flat.origin, "");
    let why = instantiate(&h, &sums(), &q, &classes[0], "", &env, nothing_yet(), 33).unwrap_err();
    assert_eq!(why, "instantiation deeper than 32 levels at `M` (recursive classes?)");
}

#[test]
fn a_model_with_no_clock_has_nothing_lifted_out() {
    let h = Clockwork::new(
        |c: u8, _: &Expr, _: &Table<Number>| -> Result<(u8, Option<usize>), String> { Ok((c, None)) },
        |c: u8, _: &str, _: usize| -> u8 { c },
        |_: &u8, _: &str| -> Option<usize> { None },
        |c: u8, _: &Expr, _: &Table<usize>, _: &Table<Number>, found: Vec<usize>| -> Result<(u8, Vec<usize>), String> {
            Ok((c, found))
        },
        |c: u8, _: &Vec<usize>, _: &str| -> Result<(u8, Option<usize>), String> { Ok((c, None)) },
        |_: &u8, _: usize| -> Ticking {
            Ticking {
                beat: Beat::Waiting,
                interval: None,
                every_nth: 1,
                solver: None,
                one_stage: false,
                described: String::new(),
            }
        },
        |_: &u8, a: usize, b: usize| -> bool { a == b },
        |_: &u8, name: &str, _: usize, _: usize| -> String { text(name) },
        |_: &u8, _: &Table<usize>, _: Option<usize>, e: &Expr| -> Expr { e.clone() },
        |_: &u8, _: usize, states: &Vec<(String, Expr)>, _: &Expr| -> Vec<(String, Expr)> {
            states.iter().map(|(a, b)| (a.clone(), b.clone())).collect()
        },
        |_: &u8, _: usize| -> Expr { lit(0.0) },
        |lifted: &Vec<(usize, Vec<(String, Expr)>)>| -> Result<Vec<usize>, String> {
            Ok((0..lifted.len()).collect())
        },
        |_: Vec<(String, Expr)>| -> Result<Vec<WhenAction>, String> { Ok(vec![]) },
        |_: &Expr, _: &Table<usize>| -> Option<String> { None },
        |_: &EquationItem| -> Option<(String, bool)> { None },
        |_: &Expr| -> Vec<String> { vec![] },
        |e: &Expr, _: &str| -> Expr { e.clone() },
        |_: &str, e: &Expr| -> Expr { e.clone() },
        |i: usize| -> String { format!("$ticks{i}") },
        |i: usize| -> String { format!("$last{i}") },
        |_: &u8| -> (Option<usize>, usize, Option<Number>) { (None, 0, None) },
    );
    let mut called = model();
    called.functions.push(Carried { name: text("f"), components: vec![], algorithm: vec![] });
    let told = partition_clocks(called, &h, 0u8, &sums()).unwrap();
    assert_eq!(told.equations.len(), 1);
    assert!(told.when_clauses.is_empty());
    assert_eq!(told.functions.len(), 1);
    assert_eq!(told.functions[0].name, "f");
    let mut machine = model();
    machine.initial_states.push(text("a"));
    let why = partition_clocks(machine, &h, 0u8, &sums()).unwrap_err();
    assert!(why.starts_with("a state machine runs on a clock, and this model declares 0"), "{why}");
}

#[test]
fn a_state_machine_becomes_equations_on_its_clock() {
    let mut m = model();
    m.initial_states.push(text("a"));
    m.transitions.push(Transition {
        from: text("a"),
        to: text("b"),
        condition: reference("go"),
        reset: true,
        immediate: true,
        synchronize: false,
        priority: 1,
    });
    m.equations.push(equation(
        reference("a.y"),
        Expr::Bin(BinOp::Add, Box::new(lit(1.0)), Box::new(lit(1.0))),
    ));
    let mut clock_of: Table<usize> = Table::new();
    assert_eq!(
        build_state_machines(&mut m, Some(0), 1, Some(n(0.1)), &mut clock_of).unwrap_err(),
        "`a` is named as a state but is not a component with anything in it"
    );
    m.components.push(component("a.y", "Real"));
    m.components.push(component("b.y", "Real"));
    build_state_machines(&mut m, Some(0), 1, Some(n(0.1)), &mut clock_of).unwrap();
    assert!(m.components.len() > 3);
    assert!(m.equations.len() >= 2);
    assert!(!clock_of.is_empty());
    let mut m = model();
    m.initial_states.push(text("a"));
    assert!(build_state_machines(&mut m, None, 2, None, &mut clock_of).is_err());
    assert_eq!(m.components.len(), 1);
}

#[test]
fn a_machine_without_a_clock_leaves_the_model_alone() {
    let mut m = model();
    m.functions.push(Carried { name: text("f"), components: vec![], algorithm: vec![] });
    m.initial_states.push(text("a"));
    let before = show(&m);
    let mut clock_of: Table<usize> = Table::new();
    assert_eq!(
        build_state_machines(&mut m, None, 0, None, &mut clock_of).unwrap_err(),
        "a state machine runs on a clock, and this model declares 0 of them"
    );
    assert_eq!(show(&m), before);
    assert_eq!(m.functions[0].name, "f");
    assert!(clock_of.is_empty());
}

#[test]
fn a_slope_past_a_held_edge_is_nothing() {
    let g = Grid {
        rows: vec![
            vec![n(0.0), n(0.0), n(1.0)],
            vec![n(0.0), n(10.0), n(20.0)],
            vec![n(1.0), n(30.0), n(40.0)],
        ],
        smoothness: Smoothness::Linear,
        extrapolation: Extrapolation::HoldLastPoint,
    };
    let h = Drawing::new(
        |_: &Vec<Number>, values: &Vec<Number>| -> Vec<Number> { vec![n(0.0); values.len()] },
        |value: Number| -> String { f64::from_bits(value.bits).to_string() },
    );
    let slope = |wanted: Wanted, u1: f64, u2: f64| {
        let read = on_the_grid(&h, &sums(), &g, &lit(u1), &lit(u2), wanted).unwrap();
        const_eval(&read.written, &Table::new(), &sums()).map(|v| f64::from_bits(v.bits))
    };
    assert_eq!(slope(Wanted::SlopeDown, 2.0, 0.0), Some(0.0));
    assert_eq!(slope(Wanted::SlopeDown, 0.5, 0.0), Some(20.0));
    assert_eq!(slope(Wanted::SlopeAcross, 0.0, -1.0), Some(0.0));
    assert_eq!(slope(Wanted::SlopeAcross, 0.0, 0.5), Some(10.0));
    assert_eq!(slope(Wanted::SlopeAcross, 2.0, 0.5), Some(10.0));
}
