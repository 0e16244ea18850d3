use oxidelica_flatten::bodies::Walked;
use oxidelica_flatten::buses::Maker;
use oxidelica_flatten::class::{
    Causality, ClassDef, ClassKind, Component, Deselect, EquationItem, Extends, IfBranch,
    IfEquation, Statement, Variability, WhenAction, WhenBranch, WhenClause,
};
use oxidelica_flatten::clockwork::{Beat, Ticking};
use oxidelica_flatten::expr::{BinOp, Expr};
use oxidelica_flatten::flat::{Flat, Model};
use oxidelica_flatten::flattening::{build_the_model, built_in_classes, flatten};
use oxidelica_flatten::info::register;
use oxidelica_flatten::instantiate::{Built, Course, Env, Floor};
use oxidelica_flatten::number::Number;
use oxidelica_flatten::outside::{
    Adding, Clocks, Engine, Finish, Footing, Language, Outside, Parts, Works,
};
use oxidelica_flatten::reading::{Flow, Here, Ran};
use oxidelica_flatten::stepping::{blank_component, build_state_machines};
use oxidelica_flatten::sums::Arith;
use oxidelica_flatten::table::Table;
use oxidelica_flatten::value::Value;
use oxidelica_flatten::tree::build_tree;
use oxidelica_flatten::web::{inline_here, Web};

/// The clocks of a model, each by its name.
#[derive(Clone, Debug, PartialEq)]
struct Ticked(Vec<String>);

struct Own;

impl Parts for Own {
    type Work = fn(Arith, Number, Number) -> Number;
    type Answer = fn(&str, &Vec<Number>) -> Option<Vec<Number>>;
    type Plain = fn(&str) -> String;
    type Recursive = fn(&ClassDef) -> bool;
    type Unbounded = fn(&Expr) -> bool;
    type Endless = fn(&str) -> bool;
    type Leaves = fn(&str) -> bool;
    type Undecided = fn(&str) -> bool;
    type Show = fn(&Expr) -> String;
    type Spell = fn(Number) -> String;
    type Begin = fn(Option<&Expr>) -> String;
    type Answers = fn(&str, &Vec<u64>) -> Option<u64>;
    type Written = fn(&str) -> bool;
    type Filed = fn(&Expr, usize, &Vec<(String, Expr)>) -> Option<i64>;
    type Measured = fn(&Expr, &Table<Number>, &Table<Vec<i64>>, &str, &Vec<(String, String)>, &Footing) -> Option<Vec<i64>>;
    type Filled = fn(&ClassDef, &str) -> Option<Expr>;
    type Settle = fn(&ClassDef, &Expr, &Table<Expr>, &Table<Number>, &Table<Vec<i64>>, usize, &Footing) -> Option<Number>;
    type Expand = fn(&Expr, &Table<Number>, &Table<Number>, &Table<Vec<i64>>, &str, &Vec<(String, String)>, &Table<String>, usize, &Footing) -> Result<(Value, Vec<(Expr, String)>), String>;
    type Unfold = fn(Value, &Table<Number>, &Table<Number>, &Table<String>, &Here, &Footing) -> Result<(Value, Vec<(Expr, String)>), String>;
    type Pair = fn(&Value, &Value, &str) -> Result<Vec<EquationItem>, String>;
    type WalkBody = fn(&ClassDef, &Vec<Statement>, Table<Expr>, &Table<Number>, &Table<Vec<i64>>, usize, &Footing) -> Result<Walked, String>;
    type Run = fn(&Vec<&Statement>, &Here, &Table<Vec<i64>>, &Footing) -> Result<Ran, String>;
    type Landed = fn(&ClassDef) -> String;
    type Text = fn(&Expr, &Table<String>) -> Option<String>;
    type Fold = fn(&Expr, &Table<String>, &Table<Number>) -> Result<Expr, String>;
    type Kept = fn(&ClassDef, &Vec<(String, String)>) -> Option<String>;
    type Build = fn(&ClassDef, &Env, &Floor, Course, Built) -> Result<(Course, Built), String>;
    type Verify = fn(&Model) -> Result<(), String>;
    type Strings = fn(Model) -> Result<(Model, Table<String>), String>;
    type Tables = fn(Model, &Table<Expr>, &Table<String>) -> Result<Model, String>;
    type Inputs = fn(&Vec<(String, String)>, &Model) -> Result<(), String>;
    type Copies = fn(&Model) -> Vec<ClassDef>;
    type Clocks = Ticked;
    type ReadClock = fn(Ticked, &Expr, &Table<Number>) -> Result<(Ticked, Option<usize>), String>;
    type PutName = fn(Ticked, &str, usize) -> Ticked;
    type ByName = fn(&Ticked, &str) -> Option<usize>;
    type Touched = fn(Ticked, &Expr, &Table<usize>, &Table<Number>, Vec<usize>) -> Result<(Ticked, Vec<usize>), String>;
    type Meet = fn(Ticked, &Vec<usize>, &str) -> Result<(Ticked, Option<usize>), String>;
    type Ticks = fn(&Ticked, usize) -> Ticking;
    type Agree = fn(&Ticked, usize, usize) -> bool;
    type Clash = fn(&Ticked, &str, usize, usize) -> String;
    type AtTick = fn(&Ticked, &Table<usize>, Option<usize>, &Expr) -> Expr;
    type Stride = fn(&Ticked, usize, &Vec<(String, Expr)>, &Expr) -> Vec<(String, Expr)>;
    type Elapsed = fn(&Ticked, usize) -> Expr;
    type Order = fn(&Vec<(usize, Vec<(String, Expr)>)>) -> Result<Vec<usize>, String>;
    type Arrange = fn(Vec<(String, Expr)>) -> Result<Vec<WhenAction>, String>;
    type Unheld = fn(&Expr, &Table<usize>) -> Option<String>;
    type Assigned = fn(&EquationItem) -> Option<(String, bool)>;
    type Within = fn(&Expr) -> Vec<String>;
    type FirstTick = fn(&Expr, &str) -> Expr;
    type After = fn(&str, &Expr) -> Expr;
    type Counter = fn(usize) -> String;
    type Last = fn(usize) -> String;
    type Sole = fn(&Ticked) -> (Option<usize>, usize, Option<Number>);
    type Fresh = fn() -> Ticked;
}

fn text(s: &str) -> String {
    s.to_string()
}

fn n(value: f64) -> Number {
    Number { bits: value.to_bits() }
}

fn lit(value: f64) -> Expr {
    Expr::Number(n(value))
}

fn reference(name: &str) -> Expr {
    Expr::Ref(text(name))
}

fn show<T: std::fmt::Debug>(value: &T) -> String {
    format!("{value:?}")
}

fn component(name: &str, of_type: &str) -> Component {
    Component { name: text(name), of_type: text(of_type), ..blank_component() }
}

fn equation(lhs: Expr, rhs: Expr) -> EquationItem {
    EquationItem { lhs, rhs, origin: String::new() }
}

fn sums() -> Adding<Own> {
    Adding::<Own>::new(
        |op, a, b| {
            let (x, y) = (f64::from_bits(a.bits), f64::from_bits(b.bits));
            n(match op {
                Arith::Add => x + y,
                Arith::Sub => x - y,
                Arith::Mul => x * y,
                Arith::Div => x / y,
                _ => x,
            })
        },
        |_, _| None,
        |name| name.to_string(),
    )
}

fn language() -> Language<Own> {
    Language::<Own>::new(
        |_| false,
        |_| false,
        |why| why.starts_with("endless"),
        |why| why.starts_with("left early"),
        |_| false,
        |e| show(e),
        |value| f64::from_bits(value.bits).to_string(),
        |first| show(&first),
        |_, _| None,
        |_| false,
    )
}

/// An expression with the loop variables in view put in. A call of `checked` is
/// worth its argument, and checks it; one of `deeply` checks what is checked.
fn expand(
    e: &Expr,
    vars: &Table<Number>,
    _: &Table<Number>,
    _: &Table<Vec<i64>>,
    _: &str,
    _: &Vec<(String, String)>,
    _: &Table<String>,
    _: usize,
    _: &Footing,
) -> Result<(Value, Vec<(Expr, String)>), String> {
    match e {
        Expr::Ref(name) => {
            if let Some(value) = vars.get(name) {
                return Ok((Value::Scalar(Expr::Number(*value)), vec![]));
            }
        }
        Expr::Call(name, args) if name == "checked" => {
            let check = (args[0].clone(), text("checked"));
            return Ok((Value::Scalar(args[0].clone()), vec![check]));
        }
        Expr::Call(name, args) if name == "deeply" => {
            let check = (Expr::Call(text("checked"), vec![args[0].clone()]), text("deeply"));
            return Ok((Value::Scalar(args[0].clone()), vec![check]));
        }
        _ => {}
    }
    Ok((Value::Scalar(e.clone()), vec![]))
}

/// Run assignments and checks one after another, reading what earlier ones
/// bound.
fn walk(
    _: &ClassDef,
    list: &Vec<Statement>,
    mut bindings: Table<Expr>,
    _: &Table<Number>,
    _: &Table<Vec<i64>>,
    _: usize,
    _: &Footing,
) -> Result<Walked, String> {
    let mut checks = vec![];
    for statement in list {
        match statement {
            Statement::Assign(name, _, value) => {
                let value = read(value, &bindings);
                bindings.put(name.clone(), value);
            }
            Statement::Assert(condition, message) => {
                checks.push((read(condition, &bindings), message.clone()));
            }
            _ => {}
        }
    }
    Ok(Walked { flow: Flow::Normal, bindings, checks, aside: vec![] })
}

fn read(e: &Expr, bindings: &Table<Expr>) -> Expr {
    match e {
        Expr::Ref(name) => bindings.get(name).cloned().unwrap_or(e.clone()),
        Expr::Bin(op, a, b) => {
            Expr::Bin(*op, Box::new(read(a, bindings)), Box::new(read(b, bindings)))
        }
        _ => e.clone(),
    }
}

fn engine() -> Engine<Own> {
    Engine::<Own>::new(
        |_, _, _| None,
        |_, _, _, _, _, _| None,
        |_, _| None,
        |_, _, _, _, _, _, _| None,
        expand,
        |value, _, _, _, _, _| Ok((value, vec![])),
        |lhs, rhs, origin| match (lhs, rhs) {
            (Value::Scalar(a), Value::Scalar(b)) => Ok(vec![EquationItem {
                lhs: a.clone(),
                rhs: b.clone(),
                origin: origin.to_string(),
            }]),
            _ => Err(text("not scalars")),
        },
        walk,
        |_, _, _, _| {
            Ok(Ran {
                flow: Flow::Normal,
                written: Table::new(),
                order: vec![],
                checks: vec![],
                aside: vec![],
            })
        },
        |_| text("here"),
    )
}

/// Every component of a class under its path, and those a `break` names left
/// out.
fn build(
    class: &ClassDef,
    env: &Env,
    floor: &Floor,
    mut course: Course,
    mut built: Built,
) -> Result<(Course, Built), String> {
    if class.name == "Broken" {
        return Err(text("cannot be built"));
    }
    for c in &class.components {
        let left_out = env.broken.iter().position(|b| match b {
            Deselect::Component(name) => *name == c.name,
            _ => false,
        });
        if let Some(at) = left_out {
            built.broke[at] = true;
            continue;
        }
        let name = format!("{}{}", floor.stand.naming.prefix, c.name);
        course.flat.components.push(Component { name, ..c.clone() });
    }
    Ok((course, built))
}

fn works() -> Works<Own> {
    Works::<Own>::new(
        |_, _| None,
        |e, _, _| Ok(e.clone()),
        |_, _| None,
        build,
    )
}

fn finish() -> Finish<Own> {
    Finish::<Own>::new(
        |model| {
            if model.equations.len() > model.components.len() {
                Err(text("too many equations"))
            } else {
                Ok(())
            }
        },
        |mut model| {
            model.name = text("renamed");
            Ok((model, Table::new()))
        },
        |model, _, _| Ok(model),
        |unsupplied, _| match unsupplied.first() {
            Some((name, _)) => Err(format!("`{name}` is given nothing")),
            None => Ok(()),
        },
        |_| vec![],
    )
}

fn ticking() -> Ticking {
    Ticking {
        beat: Beat::Every { first: n(0.0), interval: n(1.0) },
        interval: None,
        every_nth: 1,
        solver: None,
        one_stage: false,
        described: text("every second"),
    }
}

fn outside() -> Outside<Own> {
    Outside::<Own>::new(
        sums(),
        language(),
        engine(),
        works(),
        finish(),
        Clocks::<Own>::new(
            |mut c, _, _| {
                c.0.push(text("clock"));
                let last = c.0.len() - 1;
                Ok((c, Some(last)))
            },
            |c, _, _| c,
            |_, _| Some(0),
            |c, _, _, _, found| Ok((c, found)),
            |c, found, _| Ok((c, found.first().copied())),
            |_, _| ticking(),
            |_, a, b| a == b,
            |_, name, _, _| name.to_string(),
            |_, _, _, e| e.clone(),
            |_, _, states, _| states.iter().map(|(a, b)| (a.clone(), b.clone())).collect(),
            |_, _| lit(1.0),
            |lifted| Ok((0..lifted.len()).collect()),
            |actions| Ok(actions.into_iter().map(|(a, b)| WhenAction::Assign(a, b)).collect()),
            |_, _| None,
            |_| None,
            |_| vec![],
            |e, _| e.clone(),
            |_, by| by.clone(),
            |index| format!("$count{index}"),
            |index| format!("$last{index}"),
            |_| (Some(0), 1, Some(n(1.0))),
        ),
        || Ticked(vec![]),
        4,
        text("has no bottom"),
    )
}

fn run(classes: Vec<ClassDef>, top: &str) -> Result<Model, String> {
    flatten(&classes, top, &outside())
}

fn small() -> ClassDef {
    let mut m = ClassDef::empty(ClassKind::Model, "M");
    m.description = Some(text("small"));
    m.components.push(component("x", "Real"));
    m.equations.push(equation(reference("x"), lit(1.0)));
    m
}

fn extending(base: &str) -> Extends {
    Extends {
        base: text(base),
        modifiers: vec![],
        redeclares: vec![],
        broken: vec![],
        from_base: false,
    }
}

#[test]
fn a_small_model_is_flattened() {
    let model = run(vec![small()], "M").unwrap();
    assert_eq!(model.name, "M");
    assert_eq!(model.description, Some(text("small")));
    assert_eq!(model.components.len(), 1);
    assert_eq!(model.components[0].name, "x");
    assert_eq!(model.equations.len(), 1);
    assert_eq!(show(&model.equations[0].rhs), show(&lit(1.0)));
    assert!(model.functions.is_empty());
    assert!(model.conditional.is_empty());
}

#[test]
fn an_unknown_class_is_refused() {
    assert_eq!(run(vec![small()], "N").unwrap_err(), "unknown class `N`");
}

#[test]
fn the_first_step_that_fails_is_reported() {
    let broken = ClassDef::empty(ClassKind::Model, "Broken");
    assert_eq!(run(vec![broken], "Broken").unwrap_err(), "cannot be built");
    let mut m = small();
    m.equations.push(equation(reference("x"), lit(2.0)));
    assert_eq!(run(vec![m], "M").unwrap_err(), "too many equations");
    let mut package = ClassDef::empty(ClassKind::Package, "P");
    package.components.push(component("x", "Real"));
    assert!(run(vec![small(), package], "M").unwrap_err().starts_with("`P.x` is a variable"));
}

#[test]
fn what_a_class_inherits_stands_once() {
    let mut d = ClassDef::empty(ClassKind::Model, "D");
    d.components.push(component("shared", "Real"));
    d.equations.push(equation(reference("shared"), lit(3.0)));
    let mut b = ClassDef::empty(ClassKind::Model, "B");
    b.extends.push(extending("D"));
    let mut c = ClassDef::empty(ClassKind::Model, "C");
    c.extends.push(extending("D"));
    let mut a = small();
    a.extends.push(extending("B"));
    a.extends.push(extending("C"));
    let model = run(vec![d, b, c, a], "M").unwrap();
    let names: Vec<&str> = model.components.iter().map(|c| c.name.as_str()).collect();
    assert_eq!(names, vec!["shared", "x"]);
    assert_eq!(model.equations.len(), 2);
}

#[test]
fn every_break_has_to_match() {
    let mut a = ClassDef::empty(ClassKind::Model, "A");
    a.extends.push(Extends { broken: vec![Deselect::Component(text("x"))], ..extending("M") });
    let mut m = small();
    m.equations.clear();
    assert_eq!(run(vec![m, a], "A").unwrap().components.len(), 0);
    let mut a = ClassDef::empty(ClassKind::Model, "A");
    a.extends.push(Extends { broken: vec![Deselect::Component(text("y"))], ..extending("M") });
    assert_eq!(
        run(vec![small(), a], "A").unwrap_err(),
        "`break y` matches nothing in `M`"
    );
}

/// `twice(u)` doubles what it is handed.
fn twice() -> ClassDef {
    let mut f = ClassDef::empty(ClassKind::Function, "twice");
    f.components.push(Component { causality: Causality::Input, ..component("u", "Real") });
    f.components.push(Component { causality: Causality::Output, ..component("y", "Real") });
    f.algorithm.push(Statement::Assign(
        text("y"),
        vec![],
        Expr::Bin(BinOp::Mul, Box::new(lit(2.0)), Box::new(reference("u"))),
    ));
    f
}

#[test]
fn a_constant_of_a_package_is_put_in_with_its_calls_worked_out() {
    let mut p = ClassDef::empty(ClassKind::Package, "P");
    p.components.push(Component {
        variability: Variability::Constant,
        binding: Some(Expr::Call(text("twice"), vec![lit(3.0)])),
        ..component("k", "Real")
    });
    let mut m = small();
    m.equations[0].rhs = reference("P.k");
    let model = run(vec![p, twice(), m], "M").unwrap();
    assert_eq!(show(&model.equations[0].rhs), show(&lit(6.0)));
}

/// `safe(u)` is what it is handed, and checks it.
fn safe() -> ClassDef {
    let mut f = ClassDef::empty(ClassKind::Function, "safe");
    f.components.push(Component { causality: Causality::Input, ..component("u", "Real") });
    f.components.push(Component { causality: Causality::Output, ..component("y", "Real") });
    f.algorithm.push(Statement::Assert(reference("u"), text("u is fit")));
    f.algorithm.push(Statement::Assign(text("y"), vec![], reference("u")));
    f
}

fn filling(target: &str, handed: Expr) -> EquationItem {
    equation(
        Expr::Tuple(vec![Some(reference(target))]),
        Expr::Call(text("safe"), vec![handed]),
    )
}

fn checks_of(model: &Model) -> Vec<(String, String)> {
    model.asserts.iter().map(|(condition, message)| (show(condition), message.clone())).collect()
}

#[test]
fn what_a_called_body_checks_the_model_checks() {
    let mut m = small();
    m.equations = vec![filling("x", reference("z"))];
    let model = run(vec![safe(), m], "M").unwrap();
    assert_eq!(show(&model.equations[0].rhs), show(&reference("z")));
    assert_eq!(checks_of(&model), vec![(show(&reference("z")), text("u is fit"))]);
    let mut m = small();
    m.components.push(component("w", "Real"));
    m.components.push(component("v", "Real"));
    m.equations = vec![
        filling("x", reference("z")),
        filling("w", reference("z")),
        filling("v", reference("y")),
    ];
    let model = run(vec![safe(), m], "M").unwrap();
    assert_eq!(
        checks_of(&model),
        vec![
            (show(&reference("z")), text("u is fit")),
            (show(&reference("y")), text("u is fit")),
        ]
    );
}

#[test]
fn what_a_body_called_for_a_parameter_checks_the_model_checks() {
    let mut m = small();
    m.components.push(Component {
        variability: Variability::Parameter,
        binding: Some(Expr::Call(text("safe"), vec![lit(4.0)])),
        ..component("k", "Real")
    });
    let model = run(vec![safe(), m], "M").unwrap();
    assert_eq!(checks_of(&model), vec![(show(&lit(4.0)), text("u is fit"))]);
}

#[test]
fn a_check_that_sets_others_aside_is_followed_to_the_end() {
    let mut m = small();
    m.equations[0].rhs = Expr::Call(text("deeply"), vec![reference("z")]);
    let model = run(vec![m], "M").unwrap();
    assert_eq!(
        checks_of(&model),
        vec![
            (show(&reference("z")), text("deeply")),
            (show(&reference("z")), text("checked")),
        ]
    );
}

#[test]
fn a_check_the_model_makes_already_is_not_made_again() {
    let mut m = small();
    m.asserts.push((reference("z"), text("u is fit")));
    m.equations = vec![filling("x", reference("z"))];
    let model = run(vec![safe(), m], "M").unwrap();
    assert_eq!(checks_of(&model), vec![(show(&reference("z")), text("u is fit"))]);
}

#[test]
fn what_a_body_called_at_an_event_checks_the_model_checks() {
    let mut m = small();
    m.when_clauses.push(WhenClause {
        branches: vec![WhenBranch {
            condition: reference("c"),
            actions: vec![
                WhenAction::TupleAssign(
                    vec![Some(text("x"))],
                    Expr::Call(text("safe"), vec![reference("z")]),
                ),
                WhenAction::Assert(reference("a"), text("at the event")),
            ],
        }],
        origin: String::new(),
    });
    let model = run(vec![safe(), m], "M").unwrap();
    assert_eq!(checks_of(&model), vec![(show(&reference("z")), text("u is fit"))]);
    assert_eq!(
        show(&model.when_clauses[0].branches[0].actions[1]),
        show(&WhenAction::Assert(reference("a"), text("at the event")))
    );
}

#[test]
fn a_check_at_an_event_is_named_in_full_once() {
    let mut inner = ClassDef::empty(ClassKind::Model, "Inner");
    inner.when_clauses.push(WhenClause {
        branches: vec![WhenBranch {
            condition: reference("c"),
            actions: vec![WhenAction::Assert(reference("ok"), text("held"))],
        }],
        origin: String::new(),
    });
    let outside = outside();
    let classes = vec![inner];
    let registry = register(&classes);
    let web = Web { out: &outside, registry: &registry };
    let flat = build_tree(&web, &classes[0], "part.", Flat::new()).unwrap();
    let branch = &flat.when_clauses[0].branches[0];
    assert_eq!(show(&branch.condition), show(&reference("part.c")));
    assert_eq!(
        show(&branch.actions[0]),
        show(&WhenAction::Assert(reference("part.ok"), text("held")))
    );
}

#[test]
fn a_parameter_is_worked_out_through_a_call() {
    let mut m = small();
    m.components.push(Component {
        variability: Variability::Parameter,
        binding: Some(Expr::Call(text("twice"), vec![lit(4.0)])),
        annotations: vec![Expr::NamedArg(text("Evaluate"), Box::new(Expr::Bool(true)))],
        ..component("k", "Real")
    });
    assert!(run(vec![twice(), m], "M").is_ok());
}

#[test]
fn a_body_still_called_travels_with_the_model() {
    let mut m = small();
    m.equations[0].rhs = Expr::Call(text("twice"), vec![reference("x")]);
    let model = run(vec![twice(), m], "M").unwrap();
    assert_eq!(model.functions.len(), 1);
    assert_eq!(model.functions[0].name, "twice");
    assert_eq!(model.functions[0].components.len(), 2);
    assert_eq!(model.functions[0].algorithm.len(), 1);
}

#[test]
fn a_call_has_to_hand_over_every_argument() {
    let outside = outside();
    let mut idle = twice();
    idle.name = text("idle");
    idle.algorithm.clear();
    let classes = vec![twice(), idle];
    let registry = register(&classes);
    let web = Web { out: &outside, registry: &registry };
    let on = Footing { mark: None, nested: 0, settling: false };
    let none: Table<Number> = Table::new();
    let told = inline_here(&web, &on, &none, &classes[0], &vec![lit(3.0)], &vec![vec![]], 0);
    let product = Expr::Bin(BinOp::Mul, Box::new(lit(2.0)), Box::new(lit(3.0)));
    assert_eq!(show(&told.unwrap().value), show(&product));
    assert_eq!(
        inline_here(&web, &on, &none, &classes[0], &vec![], &vec![], 0).unwrap_err(),
        "function `twice` is missing its argument `u`"
    );
    assert_eq!(
        inline_here(&web, &on, &none, &classes[1], &vec![lit(3.0)], &vec![vec![]], 0).unwrap_err(),
        "function `idle` never assigns its output `y`"
    );
    let deep = Footing { mark: None, nested: 5, settling: false };
    let told = inline_here(&web, &deep, &none, &classes[0], &vec![lit(3.0)], &vec![vec![]], 0);
    assert_eq!(show(&told.unwrap().value), show(&Expr::Call(text("twice"), vec![lit(3.0)])));
}

#[test]
fn a_branch_silent_about_a_variable_leaves_it_what_it_had() {
    let branch = |condition: Option<Expr>, target: &str, value: f64| IfBranch {
        condition,
        equations: vec![equation(reference(target), lit(value))],
        connects: vec![],
        asserts: vec![],
        calls: vec![],
        loops: vec![],
        whens: vec![],
        graph: vec![],
    };
    let mut m = small();
    m.when_clauses.push(WhenClause {
        branches: vec![WhenBranch {
            condition: reference("c"),
            actions: vec![WhenAction::Choice(IfEquation {
                branches: vec![
                    branch(Some(reference("p")), "y", 1.0),
                    branch(Some(reference("q")), "z", 2.0),
                ],
                initial: false,
            })],
        }],
        origin: String::new(),
    });
    let model = run(vec![m], "M").unwrap();
    let pre = |name: &str| Expr::Call(text("pre"), vec![reference(name)]);
    let chosen = |c: &str, a: Expr, b: Expr| {
        Expr::If(Box::new(reference(c)), Box::new(a), Box::new(b))
    };
    let actions = &model.when_clauses[0].branches[0].actions;
    let z = chosen("p", pre("z"), chosen("q", lit(2.0), pre("z")));
    let y = chosen("p", lit(1.0), chosen("q", pre("y"), pre("y")));
    assert_eq!(show(&actions[0]), show(&WhenAction::Assign(text("y"), y)));
    assert_eq!(show(&actions[1]), show(&WhenAction::Assign(text("z"), z)));
}

#[test]
fn an_else_that_is_not_the_last_branch_is_refused() {
    let branch = |condition: Option<Expr>| IfBranch {
        condition,
        equations: vec![],
        connects: vec![],
        asserts: vec![],
        calls: vec![],
        loops: vec![],
        whens: vec![],
        graph: vec![],
    };
    let mut m = small();
    m.if_equations.push(IfEquation {
        branches: vec![branch(None), branch(Some(reference("p")))],
        initial: false,
    });
    assert_eq!(
        run(vec![m], "M").unwrap_err(),
        "an `else` of `M` is not the last of its branches"
    );
}

#[test]
fn a_flat_model_declares_no_clock() {
    let mut m = small();
    m.components.push(Component {
        binding: Some(Expr::Call(text("Clock"), vec![lit(1.0)])),
        ..component("c", "Clock")
    });
    let model = run(vec![m], "M").unwrap();
    assert!(model.components.iter().all(|c| c.of_type != "Clock"));
    assert!(model.components.iter().any(|c| c.name == "x"));
    assert!(model.transitions.is_empty());
    assert!(model.initial_states.is_empty());
    assert_eq!(model.name, "M");
}

#[test]
fn a_parameter_that_asks_to_be_evaluated_has_to_be() {
    let mut m = small();
    m.components.push(Component {
        variability: Variability::Parameter,
        annotations: vec![Expr::NamedArg(text("Evaluate"), Box::new(Expr::Bool(true)))],
        ..component("k", "Real")
    });
    assert_eq!(
        run(vec![m], "M").unwrap_err(),
        "`k` asks to be evaluated before the run, and its value is not one the compiler can work out"
    );
}

#[test]
fn the_language_supplies_two_classes() {
    let built_in = built_in_classes();
    assert_eq!(built_in[0].name, "StateSelect");
    assert_eq!(built_in[0].enumeration, vec!["never", "avoid", "default", "prefer", "always"]);
    assert_eq!(built_in[1].name, "ExternalObject");
    assert!(built_in[1].partial);
    let mut own = ClassDef::empty(ClassKind::Model, "ExternalObject");
    own.components.push(component("mine", "Real"));
    let model = run(vec![own], "ExternalObject").unwrap();
    assert_eq!(model.components[0].name, "mine");
}

#[test]
fn a_call_nobody_answers_for_is_reported() {
    let mut m = small();
    m.equations[0].rhs = Expr::Call(text("ModelicaStrings_length"), vec![]);
    let why = run(vec![m], "M").unwrap_err();
    assert!(why.contains("ModelicaStrings_length"), "{why}");
}

#[test]
fn a_model_is_built_twice_where_it_asks_about_its_own_graph() {
    let class = small();
    let classes = vec![small()];
    let registry = register(&classes);
    let asking = |_: &ClassDef, _: &str, mut flat: Flat| -> Result<Flat, String> {
        if !flat.answered {
            flat.graph_asked = true;
        }
        flat.origin = text("built");
        Ok(flat)
    };
    let acc = build_the_model(&registry, &class, &Maker::new(asking, &registry)).unwrap();
    assert!(acc.answered);
    assert_eq!(acc.origin, "built");
}

#[test]
fn a_model_without_machines_is_left_alone() {
    let mut model = run(vec![small()], "M").unwrap();
    let mut clock_of: Table<usize> = Table::new();
    build_state_machines(&mut model, None, 0, None, &mut clock_of).unwrap();
    assert_eq!(model.components.len(), 1);
    assert!(clock_of.is_empty());
}
