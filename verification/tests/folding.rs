use oxidelica_flatten::expr::{BinOp, Expr, RelOp};
use oxidelica_flatten::folding::{const_eval, find_outermost, flat_numbers};
use oxidelica_flatten::number::Number;
use oxidelica_flatten::sums::{Arith, Sums};
use oxidelica_flatten::table::Table;

fn n(value: f64) -> Number {
    Number { bits: value.to_bits() }
}

fn lit(value: f64) -> Expr {
    Expr::Number(n(value))
}

fn work(op: Arith, a: Number, b: Number) -> Number {
    let (x, y) = (f64::from_bits(a.bits), f64::from_bits(b.bits));
    n(match op {
        Arith::Add => x + y,
        Arith::Sub => x - y,
        Arith::Mul => x * y,
        Arith::Div => x / y,
        Arith::Pow => x.powf(y),
        Arith::Sqrt => x.sqrt(),
        Arith::Floor => x.floor(),
        Arith::Ceil => x.ceil(),
        Arith::Trunc => x.trunc(),
        Arith::Exp => x.exp(),
        Arith::Sin => x.sin(),
        _ => x,
    })
}

fn value(expr: &Expr, env: &Table<Number>) -> Option<f64> {
    let sums = Sums::new(
        work,
        |_: &str, _: &Vec<Number>| -> Option<Vec<Number>> { None },
        |name: &str| -> String {
            name.strip_prefix("Modelica.Math.").unwrap_or(name).to_string()
        },
    );
    const_eval(expr, env, &sums).map(|v| f64::from_bits(v.bits))
}

fn bin(op: BinOp, a: Expr, b: Expr) -> Expr {
    Expr::Bin(op, Box::new(a), Box::new(b))
}

fn call(name: &str, args: Vec<Expr>) -> Expr {
    Expr::Call(name.to_string(), args)
}

#[test]
fn arithmetic_is_folded() {
    let env = Table::new();
    assert_eq!(value(&bin(BinOp::Add, lit(1.0), lit(2.5)), &env), Some(3.5));
    assert_eq!(value(&bin(BinOp::Pow, lit(2.0), lit(10.0)), &env), Some(1024.0));
    assert_eq!(value(&Expr::Neg(Box::new(lit(4.0))), &env), Some(-4.0));
    assert_eq!(value(&Expr::Bool(true), &env), Some(1.0));
    assert_eq!(value(&Expr::Str("x".to_string()), &env), None);
}

#[test]
fn names_are_worth_what_the_environment_says() {
    let mut env = Table::new();
    env.put("k".to_string(), n(7.0));
    assert_eq!(value(&Expr::Ref("k".to_string()), &env), Some(7.0));
    assert_eq!(value(&Expr::Ref("x".to_string()), &env), None);
    assert_eq!(value(&bin(BinOp::Mul, Expr::Ref("x".to_string()), lit(0.0)), &env), None);
}

#[test]
fn choices_take_the_branch_that_holds() {
    let env = Table::new();
    let less = Expr::Rel(RelOp::Lt, Box::new(lit(1.0)), Box::new(lit(2.0)));
    let choice = Expr::If(Box::new(less), Box::new(lit(10.0)), Box::new(lit(20.0)));
    assert_eq!(value(&choice, &env), Some(10.0));
}

#[test]
fn operators_of_the_language_are_worked() {
    let env = Table::new();
    assert_eq!(value(&call("sqrt", vec![lit(9.0)]), &env), Some(3.0));
    assert_eq!(value(&call("Modelica.Math.exp", vec![lit(0.0)]), &env), Some(1.0));
    assert_eq!(value(&call("abs", vec![lit(-2.0)]), &env), Some(2.0));
    assert_eq!(value(&call("max", vec![lit(1.0), lit(3.0)]), &env), Some(3.0));
    assert_eq!(value(&call("min", vec![lit(1.0), lit(3.0)]), &env), Some(1.0));
    assert_eq!(value(&call("mod", vec![lit(7.0), lit(3.0)]), &env), Some(1.0));
    assert_eq!(value(&call("div", vec![lit(-7.0), lit(2.0)]), &env), Some(-3.0));
    assert_eq!(value(&call("unheard", vec![lit(1.0)]), &env), None);
}

#[test]
fn the_numbers_of_a_list_are_read_off() {
    let sums = Sums::new(
        work,
        |_: &str, _: &Vec<Number>| -> Option<Vec<Number>> { None },
        |name: &str| -> String { name.to_string() },
    );
    let list = Expr::Array(vec![lit(1.0), Expr::Array(vec![lit(2.0), lit(3.0)])]);
    assert_eq!(
        flat_numbers(&list, &Table::new(), &sums),
        Some(vec![n(1.0), n(2.0), n(3.0)])
    );
    assert_eq!(find_outermost(true, &vec![n(1.0), n(5.0), n(2.0)]), n(5.0));
    assert_eq!(find_outermost(false, &vec![n(1.0), n(5.0), n(-2.0)]), n(-2.0));
}

#[test]
fn a_value_stays_what_it_is_where_more_names_are_known() {
    let e = bin(BinOp::Add, Expr::Ref("a".to_string()), lit(1.0));
    let mut env: Table<Number> = Table::new();
    env.put("a".to_string(), n(2.0));
    assert_eq!(value(&e, &env), Some(3.0));
    env.put("b".to_string(), n(7.0));
    assert_eq!(value(&e, &env), Some(3.0));
    assert_eq!(value(&Expr::Ref("c".to_string()), &env), None);
}
