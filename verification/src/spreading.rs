//! Values spread over the elements of an array, and how many numbers a record
//! holds.
use crate::class::{ClassDef, MAX_DEPTH};
use crate::expr::{told, Expr, ExprV};
use crate::folding::{const_eval, evaluated};
use crate::inlining::{put_together, together};
use crate::lookup::{lookup, meaning, Registry};
use crate::names::{is_primitive, is_primitive_name};
use crate::number::{zero, Number};
use crate::sums::{is_steady, sums_of, Arith, Sums, SumsV};
use crate::table::Table;
use crate::value::{lemma_values, written_out, Value, ValueV};
use vstd::prelude::*;

verus! {

/// What spreading a value leans on, handed in by whoever knows: `expand` is
/// what an expression stands for where the value was written.
pub struct Spreading<A1> {
    pub expand: A1,
    /// What they answer, mathematically.
    pub model: Ghost<SpreadingV>,
}

/// The same, mathematically.
pub ghost struct SpreadingV {
    pub expand: spec_fn(ExprV) -> Result<ValueV, Seq<char>>,
}

/// Whether each of them may be asked anything, and answers as `m` says.
pub open spec fn spreading_true_to<
    A1: Fn(&Expr) -> Result<Value, String>,
>(
    expand: A1,
    m: SpreadingV,
) -> bool {
    &&& forall|e: &Expr| #[trigger] call_requires(expand, (e,))
    &&& forall|e: &Expr, r: Result<Value, String>| #[trigger]
        call_ensures(expand, (e,), r) ==> told(r) == (m.expand)(e.deep_view())
}

/// Whether each of them may be asked anything, and answers as its model says.
pub open spec fn spreading_true<
    A1: Fn(&Expr) -> Result<Value, String>,
>(s: Spreading<A1>) -> bool {
    spreading_true_to(s.expand, s.model@)
}

/// What they answer, mathematically.
pub open spec fn spreading_of<
    A1: Fn(&Expr) -> Result<Value, String>,
>(s: Spreading<A1>) -> SpreadingV {
    s.model@
}

impl<
    A1: Fn(&Expr) -> Result<Value, String>,
> Spreading<A1> {
    /// The bundle of such functions, where there is anything they answer at all.
    pub fn new(expand: A1) -> (r: Self)
        requires
            exists|m: SpreadingV| #[trigger] spreading_true_to(expand, m),
        ensures
            spreading_true(r),
            r.expand == expand,
    {
        Spreading {
            expand,
            model: Ghost(choose|m: SpreadingV| #[trigger] spreading_true_to(expand, m)),
        }
    }

    pub fn do_expand(&self, e: &Expr) -> (r: Result<Value, String>)
        requires
            spreading_true(*self),
        ensures
            told(r) == (spreading_of(*self).expand)(e.deep_view()),
    {
        let f = &self.expand;
        f(e)
    }
}

/// One element's slice of a value spread over so many elements: a list of the
/// right length is handed out one entry to each, and anything else reaches
/// every element whole.
pub open spec fn element_slice(h: SpreadingV, value: ExprV, position: int, count: nat) -> ExprV {
    if value is Array && value->Array_0.len() == count {
        value->Array_0[position]
    } else {
        match (h.expand)(value) {
            Ok(ValueV::Array(items)) => if items.len() == count {
                written_out(items[position])
            } else {
                value
            },
            _ => value,
        }
    }
}

/// One element's slice of a modifier value spread over an array.
///
/// A value written as a list of the right length is handed out one entry per
/// element; a name has to be measured, and the slice is then taken along the
/// outermost dimension. Anything that does not come to one value per element
/// is handed over whole.
pub fn array_element<
    A1: Fn(&Expr) -> Result<Value, String>,
>(
    h: &Spreading<A1>,
    value: &Expr,
    position: usize,
    count: usize,
) -> (r: Expr)
    requires
        spreading_true(*h),
        position < count,
    ensures
        r.deep_view() == element_slice(
            spreading_of(*h),
            value.deep_view(),
            position as int,
            count as nat,
        ),
{
    if let Expr::Array(items) = value {
        proof {
            crate::expr::lemma_views(*items);
        }
        assert(items.deep_view().len() == items@.len());
        if items.len() == count {
            assert(items.deep_view()[position as int] == items@[position as int].deep_view());
            return items[position].clone();
        }
    }
    match h.do_expand(value) {
        Ok(Value::Array(items)) => {
            proof {
                lemma_values(items);
            }
            assert(items.deep_view().len() == items@.len());
            if items.len() == count {
                assert(items.deep_view()[position as int] == items@[position as int].deep_view());
                items[position].into_expr()
            } else {
                value.clone()
            }
        },
        _ => value.clone(),
    }
}

/// A spread value that is a list of one entry to each element gives every
/// element its own, and all of them together are the list.
pub proof fn law_a_list_is_handed_out(h: SpreadingV, items: Seq<ExprV>)
    ensures
        Seq::new(
            items.len(),
            |i: int| element_slice(h, ExprV::Array(items), i, items.len()),
        ) == items,
{
    assert(Seq::new(
        items.len(),
        |i: int| element_slice(h, ExprV::Array(items), i, items.len()),
    ) =~= items);
}

/// A product of two counts, as far as a count goes.
pub open spec fn times(a: u64, b: u64) -> u64 {
    if a * b > u64::MAX {
        u64::MAX
    } else {
        (a * b) as u64
    }
}

fn multiply(a: u64, b: u64) -> (r: u64)
    ensures
        r == times(a, b),
{
    assert(a * b <= 0xFFFF_FFFF_FFFF_FFFF * 0xFFFF_FFFF_FFFF_FFFF) by (nonlinear_arith)
        requires
            0 <= a <= 0xFFFF_FFFF_FFFF_FFFF,
            0 <= b <= 0xFFFF_FFFF_FFFF_FFFF,
    ;
    let wide: u128 = a as u128 * b as u128;
    if wide > u64::MAX as u128 {
        u64::MAX
    } else {
        wide as u64
    }
}

/// How many elements the first `n` dimensions make, where each is a length
/// written as a number.
pub open spec fn elements_made(dimensions: Seq<ExprV>, v: SumsV, n: nat) -> Option<u64>
    decreases n,
{
    if n == 0 || n > dimensions.len() {
        Some(1)
    } else {
        match elements_made(dimensions, v, (n - 1) as nat) {
            None => None,
            Some(before) => match evaluated(dimensions[n - 1], Map::empty(), v) {
                None => None,
                Some(length) => if length.below(zero()) || !length.is_integral() {
                    None
                } else {
                    Some(times(before, length.counted() as u64))
                },
            },
        }
    }
}

/// How many numbers one value of a field's type holds.
pub open spec fn numbers_of_type(
    classes: Seq<&ClassDef>,
    of: ClassDef,
    named: Seq<char>,
    v: SumsV,
    depth: nat,
) -> Option<u64>
    decreases MAX_DEPTH + 1 - depth, 0nat,
{
    if is_primitive_name(named) {
        Some(1)
    } else {
        match meaning(classes, named, of.name@, of.imports.deep_view()) {
            None => None,
            Some(inside) => if inside.alias_of is Some || inside.enumeration@.len() > 0 {
                Some(1)
            } else if depth > MAX_DEPTH {
                None
            } else {
                numbers_of_record(classes, inside, v, depth + 1)
            },
        }
    }
}

/// How many numbers one record of a class holds.
pub open spec fn numbers_of_record(
    classes: Seq<&ClassDef>,
    of: ClassDef,
    v: SumsV,
    depth: nat,
) -> Option<u64>
    decreases MAX_DEPTH + 1 - depth, of.components@.len() + 2,
{
    if depth > MAX_DEPTH {
        None
    } else {
        numbers_of_fields(classes, of, v, depth, of.components@.len())
    }
}

/// How many numbers the first `n` fields of a class hold: each as many times
/// over as its own dimensions say.
pub open spec fn numbers_of_fields(
    classes: Seq<&ClassDef>,
    of: ClassDef,
    v: SumsV,
    depth: nat,
    n: nat,
) -> Option<u64>
    decreases MAX_DEPTH + 1 - depth, n + 1,
{
    if n == 0 || n > of.components@.len() {
        Some(0)
    } else {
        match numbers_of_fields(classes, of, v, depth, (n - 1) as nat) {
            None => None,
            Some(before) => {
                let field = of.components@[n - 1];
                match elements_made(field.dimensions.deep_view(), v, field.dimensions@.len()) {
                    None => None,
                    Some(many) => match numbers_of_type(classes, of, field.of_type@, v, depth) {
                        None => None,
                        Some(each) => Some(together(before, times(many, each))),
                    },
                }
            },
        }
    }
}

proof fn lemma_unmade(dimensions: Seq<ExprV>, v: SumsV, n: nat, all: nat)
    requires
        n <= all <= dimensions.len(),
        elements_made(dimensions, v, n) is None,
    ensures
        elements_made(dimensions, v, all) is None,
    decreases all - n,
{
    if n < all {
        lemma_unmade(dimensions, v, n + 1, all);
    }
}

proof fn lemma_uncounted(
    classes: Seq<&ClassDef>,
    of: ClassDef,
    v: SumsV,
    depth: nat,
    n: nat,
    all: nat,
)
    requires
        n <= all <= of.components@.len(),
        numbers_of_fields(classes, of, v, depth, n) is None,
    ensures
        numbers_of_fields(classes, of, v, depth, all) is None,
    decreases all - n,
{
    if n < all {
        lemma_uncounted(classes, of, v, depth, n + 1, all);
    }
}

fn count_elements<
    W: Fn(Arith, Number, Number) -> Number,
    O: Fn(&str, &Vec<Number>) -> Option<Vec<Number>>,
    N: Fn(&str) -> String,
>(sums: &Sums<W, O, N>, dimensions: &Vec<Expr>) -> (r: Option<u64>)
    requires
        is_steady(*sums),
    ensures
        r == elements_made(dimensions.deep_view(), sums_of(*sums), dimensions@.len()),
{
    let ghost dv = dimensions.deep_view();
    let ghost v = sums_of(*sums);
    assert(dv.len() == dimensions@.len());
    let none: Table<Number> = Table::new();
    let mut many: u64 = 1;
    let mut i: usize = 0;
    while i < dimensions.len()
        invariant
            i <= dimensions.len(),
            is_steady(*sums),
            v == sums_of(*sums),
            dv == dimensions.deep_view(),
            dv.len() == dimensions@.len(),
            none.deep_view() == Map::<Seq<char>, Number>::empty(),
            elements_made(dv, v, i as nat) == Some(many),
        decreases dimensions.len() - i,
    {
        assert(dv[i as int] == dimensions@[i as int].deep_view());
        let length = match const_eval(&dimensions[i], &none, sums) {
            Some(length) => length,
            None => {
                proof {
                    lemma_unmade(dv, v, (i + 1) as nat, dv.len());
                }
                return None;
            },
        };
        if length.less(zero()) || !length.is_whole() {
            proof {
                lemma_unmade(dv, v, (i + 1) as nat, dv.len());
            }
            return None;
        }
        many = multiply(many, length.to_count());
        i = i + 1;
    }
    Some(many)
}

fn count_type<
    W: Fn(Arith, Number, Number) -> Number,
    O: Fn(&str, &Vec<Number>) -> Option<Vec<Number>>,
    N: Fn(&str) -> String,
>(
    sums: &Sums<W, O, N>,
    registry: &Registry,
    of: &ClassDef,
    named: &str,
    depth: usize,
) -> (r: Option<u64>)
    requires
        is_steady(*sums),
        depth <= MAX_DEPTH,
    ensures
        r == numbers_of_type(registry@, *of, named@, sums_of(*sums), depth as nat),
    decreases MAX_DEPTH + 1 - depth, 0nat,
{
    if is_primitive(named) {
        return Some(1);
    }
    match lookup(registry, named, of.name.as_str(), &of.imports) {
        None => None,
        Some(inside) => if inside.alias_of.is_some() || inside.enumeration.len() > 0 {
            Some(1)
        } else {
            numbers_of_one(sums, registry, inside, depth + 1)
        },
    }
}

/// How many numbers one record of this class holds: its fields, each as many
/// times over as its own dimensions say, and a field that is itself a record
/// counted the same way.
///
/// Nothing where a dimension is not a length written as a number, or where a
/// field's class is one this cannot look into: then nothing here can say what
/// a value's shape means.
pub fn numbers_of_one<
    W: Fn(Arith, Number, Number) -> Number,
    O: Fn(&str, &Vec<Number>) -> Option<Vec<Number>>,
    N: Fn(&str) -> String,
>(
    sums: &Sums<W, O, N>,
    registry: &Registry,
    of: &ClassDef,
    depth: usize,
) -> (r: Option<u64>)
    requires
        is_steady(*sums),
    ensures
        r == numbers_of_record(registry@, *of, sums_of(*sums), depth as nat),
    decreases MAX_DEPTH + 1 - depth, of.components@.len() + 2,
{
    if depth > MAX_DEPTH {
        return None;
    }
    let ghost v = sums_of(*sums);
    let ghost all = of.components@.len();
    let mut total: u64 = 0;
    let mut i: usize = 0;
    while i < of.components.len()
        invariant
            i <= of.components.len(),
            depth <= MAX_DEPTH,
            is_steady(*sums),
            v == sums_of(*sums),
            all == of.components@.len(),
            numbers_of_fields(registry@, *of, v, depth as nat, i as nat) == Some(total),
        decreases of.components.len() - i,
    {
        let field = &of.components[i];
        let many = match count_elements(sums, &field.dimensions) {
            Some(many) => many,
            None => {
                proof {
                    lemma_uncounted(registry@, *of, v, depth as nat, (i + 1) as nat, all);
                }
                return None;
            },
        };
        let each = match count_type(sums, registry, of, field.of_type.as_str(), depth) {
            Some(each) => each,
            None => {
                proof {
                    lemma_uncounted(registry@, *of, v, depth as nat, (i + 1) as nat, all);
                }
                return None;
            },
        };
        total = put_together(total, multiply(many, each));
        i = i + 1;
    }
    Some(total)
}

}
