use oxidelica_flatten::expr::{BinOp, Expr};
use oxidelica_flatten::number::{
    from_count, from_int, half, larger, minus_one, one, smaller, truth, zero, Number,
};
use oxidelica_flatten::sameness::are_alike;
use oxidelica_flatten::text::{
    clear_end, comes_before, decimal, ends, head_of, join_all, one_digit, read_int, split_all,
    split_first, split_last, starts, tail_of, trim, whole, without_head,
};

fn n(value: f64) -> Number {
    Number { bits: value.to_bits() }
}

fn pair(a: &str, b: &str) -> Option<(String, String)> {
    Some((a.to_string(), b.to_string()))
}

#[test]
fn a_text_is_cut_at_the_last_dot_and_joins_back() {
    assert_eq!(split_last("a.b.c", '.'), pair("a.b", "c"));
    assert_eq!(split_last("abc", '.'), None);
    let (head, tail) = split_last("Modelica.Units.SI", '.').unwrap();
    assert_eq!(format!("{head}.{tail}"), "Modelica.Units.SI");
}

#[test]
fn a_text_is_cut_at_the_first_dot_and_joins_back() {
    assert_eq!(split_first("a.b.c", '.'), pair("a", "b.c"));
    assert_eq!(split_first("", '.'), None);
    assert_eq!(split_first(".x", '.'), pair("", "x"));
    let (head, tail) = split_first("r1.p.v", '.').unwrap();
    assert_eq!(format!("{head}.{tail}"), "r1.p.v");
}

#[test]
fn heads_and_tails_of_names() {
    assert_eq!(head_of("r1.p.v", '.'), "r1");
    assert_eq!(head_of("v", '.'), "v");
    assert_eq!(tail_of("r1.p.v", '.'), "v");
    assert_eq!(tail_of("v", '.'), "v");
    assert!(starts("model.x", "model."));
    assert!(!starts("mod", "model"));
    assert!(ends("a.b", ".b"));
    assert!(!ends("b", ".b"));
    assert_eq!(without_head("$seed1", "$seed"), Some("1".to_string()));
    assert_eq!(without_head("seed1", "$seed"), None);
}

#[test]
fn numbers_are_written_in_decimal() {
    assert_eq!(decimal(0), "0");
    assert_eq!(decimal(10203), "10203");
    assert_eq!(decimal(u64::MAX), u64::MAX.to_string());
    assert_eq!(whole(-7), "-7");
    assert_eq!(whole(i64::MIN), i64::MIN.to_string());
    assert_eq!(one_digit(7), "7");
}

#[test]
fn integers_are_read_back_from_text() {
    assert_eq!(read_int("42"), Some(42));
    assert_eq!(read_int("-3"), Some(-3));
    assert_eq!(read_int("+3"), Some(3));
    assert_eq!(read_int(""), None);
    assert_eq!(read_int("-"), None);
    assert_eq!(read_int("4x"), None);
    assert_eq!(read_int("9223372036854775807"), Some(i64::MAX));
    assert_eq!(read_int("9223372036854775808"), None);
    assert_eq!(read_int("-9223372036854775808"), Some(i64::MIN));
}

#[test]
fn lists_of_text_are_split_and_joined() {
    assert_eq!(split_all("a,b,,c", ','), vec!["a", "b", "", "c"]);
    assert_eq!(split_all("", ','), vec![""]);
    let items: Vec<String> = vec!["a".to_string(), "b".to_string()];
    assert_eq!(join_all(&items, ", "), "a, b");
    assert_eq!(join_all(&Vec::new(), ", "), "");
    assert_eq!(trim("  x y "), "x y");
    assert_eq!(clear_end("x]]", ']'), "x");
}

#[test]
fn texts_stand_in_a_strict_order() {
    assert!(comes_before("a", "b"));
    assert!(comes_before("a", "ab"));
    assert!(!comes_before("a", "a"));
    assert!(comes_before("Z", "a"));
    assert!(!comes_before("b", "ab"));
    for (a, b) in [("x.y", "x_y"), ("r", "r1"), ("", "a")] {
        assert_eq!(comes_before(a, b), a < b);
        assert_eq!(comes_before(b, a), b < a);
    }
}

#[test]
fn counts_and_integers_are_the_nearest_doubles() {
    for value in [0u64, 1, 2, 3, 1000, (1 << 53) - 1, 1 << 53, (1 << 53) + 1, u64::MAX] {
        assert_eq!(from_count(value).bits, (value as f64).to_bits());
    }
    for value in [0i64, -1, 7, -(1 << 53) - 1, i64::MIN, i64::MAX] {
        assert_eq!(from_int(value).bits, (value as f64).to_bits());
    }
    assert_eq!(zero().bits, 0.0f64.to_bits());
    assert_eq!(half().bits, 0.5f64.to_bits());
    assert_eq!(one().bits, 1.0f64.to_bits());
    assert_eq!(minus_one().bits, (-1.0f64).to_bits());
    assert_eq!(truth(true), one());
    assert_eq!(truth(false), zero());
}

#[test]
fn doubles_are_cut_down_to_integers_as_a_cast_does() {
    for value in [
        0.0, -0.0, 0.9, -0.9, 1.5, -1.5, 4503599627370497.5, 1e18, 1e19, -1e19, f64::NAN,
        f64::INFINITY, f64::NEG_INFINITY, 5e-324, 9.3e18,
    ] {
        assert_eq!(n(value).to_int(), value as i64, "{value}");
        assert_eq!(n(value).to_count(), value as u64, "{value}");
    }
}

#[test]
fn doubles_are_compared_by_their_worth() {
    let values = [-2.0, -0.0, 0.0, 5e-324, 1.0, 2.5, f64::INFINITY, f64::NEG_INFINITY, f64::NAN];
    for a in values {
        for b in values {
            assert_eq!(n(a).less(n(b)), a < b, "{a} {b}");
            assert_eq!(n(a).equals(n(b)), a == b, "{a} {b}");
        }
        assert_eq!(n(a).is_whole(), a.fract() == 0.0, "{a}");
        assert_eq!(n(a).finite(), a.is_finite());
        assert_eq!(n(a).negated().bits, (-a).to_bits());
        assert_eq!(n(a).without_sign().bits, a.abs().to_bits());
        assert_eq!(n(a).is_zero(), a == 0.0);
    }
    assert_eq!(smaller(n(1.0), n(2.0)), n(1.0));
    assert_eq!(larger(n(1.0), n(2.0)), n(2.0));
}

#[test]
fn small_counts_are_read_back_exactly() {
    for value in [0u64, 1, 7, 1 << 30, (1 << 53) - 1] {
        assert_eq!(from_count(value).to_count(), value);
        assert_eq!(from_count(value).to_int(), value as i64);
        assert!(from_count(value).is_whole());
        assert!(!from_count(value).less(zero()));
    }
}

#[test]
fn expressions_are_the_same_form_and_parts() {
    let name = |s: &str| Expr::Ref(s.to_string());
    let lit = |value: f64| Expr::Number(Number { bits: value.to_bits() });
    let sum = |a: Expr, b: Expr| Expr::Bin(BinOp::Add, Box::new(a), Box::new(b));
    assert!(are_alike(&sum(name("a"), lit(1.0)), &sum(name("a"), lit(1.0))));
    assert!(!are_alike(&sum(name("a"), lit(1.0)), &sum(name("a"), lit(2.0))));
    assert!(!are_alike(&sum(name("a"), lit(1.0)), &sum(lit(1.0), name("a"))));
    assert!(!are_alike(&name("a"), &Expr::Str("a".to_string())));
    assert!(are_alike(&lit(0.0), &lit(-0.0)));
    assert!(!are_alike(&lit(f64::NAN), &lit(f64::NAN)));
    let tuple = |first: bool| {
        let a = Some(name("a"));
        Expr::Tuple(if first { vec![a, None] } else { vec![None, a] })
    };
    assert!(are_alike(&tuple(true), &tuple(true)));
    assert!(!are_alike(&tuple(true), &tuple(false)));
    let rows = |split: usize| {
        let mut one = vec![name("a"), name("b"), name("c")];
        let two = one.split_off(split);
        Expr::MatrixRows(vec![one, two])
    };
    assert!(are_alike(&rows(1), &rows(1)));
    assert!(!are_alike(&rows(1), &rows(2)));
    let call = |f: &str, args: Vec<Expr>| Expr::Call(f.to_string(), args);
    assert!(are_alike(&call("f", vec![name("a")]), &call("f", vec![name("a")])));
    assert!(!are_alike(&call("f", vec![name("a")]), &call("g", vec![name("a")])));
    assert!(!are_alike(&call("f", vec![name("a")]), &call("f", vec![name("a"), name("a")])));
    let named = |n: &str| {
        Expr::WithDerivative(
            Box::new(name("a")),
            Box::new(name("b")),
            vec![(n.to_string(), name("c"))],
        )
    };
    assert!(are_alike(&named("x"), &named("x")));
    assert!(!are_alike(&named("x"), &named("y")));
}
