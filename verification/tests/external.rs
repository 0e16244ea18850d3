use oxidelica_flatten::expr::Expr;
use oxidelica_flatten::external::{
    answered_here, compare, hash_string, number_of, ranked, resource_asked, substring, Reader,
};
use oxidelica_flatten::number::Number;
use oxidelica_flatten::sums::{Arith, Sums};
use oxidelica_flatten::table::Table;

fn n(value: f64) -> Number {
    Number { bits: value.to_bits() }
}

fn worth(number: Number) -> f64 {
    f64::from_bits(number.bits)
}

fn work(op: Arith, a: Number, b: Number) -> Number {
    let (x, y) = (worth(a), worth(b));
    n(match op {
        Arith::Add => x + y,
        Arith::Sub => x - y,
        Arith::Mul => x * y,
        Arith::Trunc => x.trunc(),
        _ => x,
    })
}

#[test]
fn the_names_answered_for_are_few() {
    assert!(answered_here("ModelicaStrings_compare"));
    assert!(answered_here("ModelicaStandardTables_CombiTable1D_getValue"));
    assert!(!answered_here("ModelicaInternal_print"));
}

#[test]
fn texts_are_compared_with_and_without_case() {
    assert_eq!(worth(compare("a", "b", true)), 1.0);
    assert_eq!(worth(compare("b", "b", true)), 2.0);
    assert_eq!(worth(compare("b", "a", true)), 3.0);
    assert_eq!(worth(compare("Table", "table", true)), 1.0);
    assert_eq!(worth(compare("Table", "tABLE", false)), 2.0);
    assert_eq!(worth(compare("\u{c4}", "\u{e4}", false)), 2.0);
    assert_eq!(ranked("a", "b"), 1);
}

#[test]
fn texts_are_hashed_to_signed_words() {
    assert_eq!(worth(hash_string("")), worth(hash_string("")));
    assert_ne!(hash_string("a"), hash_string("b"));
    let value = worth(hash_string("a longer text than a word"));
    assert!(value >= -2147483648.0 && value <= 2147483647.0);
    assert_eq!(value.fract(), 0.0);
}

#[test]
fn a_part_of_a_text_is_cut_out_by_its_places() {
    let sums = Sums::new(
        work,
        |_: &str, _: &Vec<Number>| -> Option<Vec<Number>> { None },
        |name: &str| -> String { name.to_string() },
    );
    assert_eq!(substring("abcdef", n(2.0), n(4.0), &sums), "bcd");
    assert_eq!(substring("abc", n(1.0), n(3.0), &sums), "abc");
    let read = Reader::new(|e: &Expr| -> Option<String> {
        match e {
            Expr::Str(text) => Some(text.clone()),
            _ => None,
        }
    });
    let args = vec![Expr::Str("four".to_string())];
    assert_eq!(
        number_of("ModelicaStrings_length", &args, &read, &Table::new(), &sums).map(worth),
        Some(4.0)
    );
    assert_eq!(number_of("nobody", &args, &read, &Table::new(), &sums), None);
}

#[test]
fn a_resource_names_a_library_and_a_path() {
    assert_eq!(
        resource_asked("modelica://Modelica.Blocks/Resources/x.txt"),
        Some(("Modelica".to_string(), "Resources/x.txt".to_string()))
    );
    assert_eq!(resource_asked("modelica://Modelica"), None);
    assert_eq!(resource_asked("file://x/y"), None);
}
