//! What an expression is worth once the shapes are known: one scalar, or an
//! array of them.
use crate::expr::{Expr, ExprV};
use crate::make;
use crate::text::{decimal, digits, join3, join4, join_all, joined, texts};
use vstd::prelude::*;

verus! {

/// Arrays live only while flattening: a model may say `v` where `v` was
/// declared `Real v[3]`, and what is left in the end is scalars.
#[derive(Debug)]
pub enum Value {
    /// A single expression.
    Scalar(Expr),
    /// An array, given by its elements; nested for more dimensions.
    Array(Vec<Value>),
}

/// A value, mathematically.
pub ghost enum ValueV {
    Scalar(ExprV),
    Array(Seq<ValueV>),
}

pub open spec fn value_view(value: Value) -> ValueV
    decreases value,
{
    match value {
        Value::Scalar(expr) => ValueV::Scalar(expr.deep_view()),
        Value::Array(items) => ValueV::Array(value_views(items@)),
    }
}

pub open spec fn value_views(items: Seq<Value>) -> Seq<ValueV>
    decreases items,
{
    Seq::new(
        items.len(),
        |i: int|
            if 0 <= i < items.len() {
                value_view(items[i])
            } else {
                ValueV::Array(Seq::empty())
            },
    )
}

impl DeepView for Value {
    type V = ValueV;

    open spec fn deep_view(&self) -> ValueV {
        value_view(*self)
    }
}

pub proof fn lemma_values(items: Vec<Value>)
    ensures
        items.deep_view() == value_views(items@),
{
    assert(items.deep_view() =~= value_views(items@));
}

/// How many elements a value has at the top.
pub open spec fn width(value: ValueV) -> nat {
    match value {
        ValueV::Scalar(_) => 0,
        ValueV::Array(items) => items.len(),
    }
}

/// Every scalar of a value, in row-major order.
pub open spec fn scalars(value: ValueV) -> Seq<ExprV>
    decreases value, width(value) + 1,
{
    match value {
        ValueV::Scalar(expr) => seq![expr],
        ValueV::Array(items) => scalars_upto(value, items.len()),
    }
}

/// The scalars of the first `n` elements of an array.
pub open spec fn scalars_upto(value: ValueV, n: nat) -> Seq<ExprV>
    decreases value, n,
{
    match value {
        ValueV::Scalar(_) => Seq::empty(),
        ValueV::Array(items) => if n == 0 || n > items.len() {
            Seq::empty()
        } else {
            scalars_upto(value, (n - 1) as nat) + scalars(items[n - 1])
        },
    }
}

/// The expression form of a value: a scalar as itself, an array as a literal.
pub open spec fn written_out(value: ValueV) -> ExprV
    decreases value, 1int,
{
    match value {
        ValueV::Scalar(expr) => expr,
        ValueV::Array(items) => ExprV::Array(all_written_out(value)),
    }
}

/// The expression form of every element of an array.
pub open spec fn all_written_out(value: ValueV) -> Seq<ExprV>
    decreases value, 0int,
{
    match value {
        ValueV::Scalar(expr) => Seq::empty(),
        ValueV::Array(items) => Seq::new(
            items.len(),
            |i: int|
                if 0 <= i < items.len() {
                    written_out(items[i])
                } else {
                    ExprV::Array(Seq::empty())
                },
        ),
    }
}

/// The length of each dimension of a value, read off its first elements.
pub open spec fn shape_of(value: ValueV) -> Seq<nat>
    decreases value,
{
    match value {
        ValueV::Scalar(_) => Seq::empty(),
        ValueV::Array(items) => if items.len() == 0 {
            seq![0]
        } else {
            seq![items.len()] + shape_of(items[0])
        },
    }
}

/// A list of lengths as it is written: `[2, 3]`.
pub open spec fn listed(shape: Seq<nat>) -> Seq<char> {
    "["@ + joined(Seq::new(shape.len(), |i: int| digits(shape[i])), ", "@) + "]"@
}

fn list_out(shape: &Vec<usize>) -> (r: String)
    ensures
        r@ == listed(Seq::new(shape@.len(), |i: int| shape@[i] as nat)),
{
    let mut list: Vec<String> = Vec::new();
    let mut i: usize = 0;
    while i < shape.len()
        invariant
            i <= shape.len(),
            list@.len() == i,
            forall|k: int| 0 <= k < i ==> (#[trigger] list@[k])@ == digits(shape@[k] as nat),
        decreases shape.len() - i,
    {
        list.push(decimal(shape[i] as u64));
        i = i + 1;
    }
    let ghost lengths = Seq::new(shape@.len(), |i: int| shape@[i] as nat);
    assert(texts(list@) =~= Seq::new(lengths.len(), |i: int| digits(lengths[i])));
    let inside = join_all(&list, ", ");
    join3("[", inside.as_str(), "]")
}

/// What an array in the place of a scalar is told: its shape, and what it
/// begins with as `shown` writes it.
pub open spec fn not_scalar(value: ValueV, shown: Seq<char>) -> Seq<char> {
    "an array of shape "@ + listed(shape_of(value))
        + " is used where a scalar is expected, beginning "@ + shown
}

/// The first scalar of a value, where it has one.
pub open spec fn first_scalar(value: ValueV) -> Option<ExprV> {
    if scalars(value).len() > 0 {
        Some(scalars(value)[0])
    } else {
        None
    }
}

impl Value {
    /// What is said of an array in the place of a scalar.
    pub fn complain(&self, shown: &str) -> (r: String)
        ensures
            r@ == not_scalar(self.deep_view(), shown@),
    {
        let shape = self.shape();
        let sizes = list_out(&shape);
        join4(
            "an array of shape ",
            sizes.as_str(),
            " is used where a scalar is expected, beginning ",
            shown,
        )
    }

    /// The scalar inside, or an error naming what went wrong; `show` writes
    /// out what an array begins with.
    pub fn scalar<S: Fn(Option<&Expr>) -> String>(self, show: S) -> (r: Result<Expr, String>)
        requires
            forall|e: Option<&Expr>| #[trigger] call_requires(show, (e,)),
        ensures
            match self.deep_view() {
                ValueV::Scalar(expr) => r matches Ok(made) && made.deep_view() == expr,
                ValueV::Array(_) => r matches Err(why) && exists|first: Option<&Expr>, shown: String|
                    #[trigger] call_ensures(show, (first,), shown) && first.deep_view()
                        == first_scalar(self.deep_view()) && why@ == not_scalar(
                        self.deep_view(),
                        shown@,
                    ),
            },
    {
        if let Value::Scalar(expr) = self {
            return Ok(expr);
        }
        let mut items: Vec<Expr> = Vec::new();
        self.flatten_into(&mut items);
        assert(items.deep_view() =~= scalars(self.deep_view()));
        let first: Option<&Expr> = if items.len() > 0 {
            assert(items.deep_view()[0] == items@[0].deep_view());
            Some(&items[0])
        } else {
            None
        };
        assert(first.deep_view() == first_scalar(self.deep_view()));
        let shown = show(first);
        let why = self.complain(shown.as_str());
        assert(call_ensures(show, (first,), shown));
        Err(why)
    }

    /// Every scalar of the value, in row-major order.
    pub fn flatten_into(&self, out: &mut Vec<Expr>)
        ensures
            final(out).deep_view() == old(out).deep_view() + scalars(self.deep_view()),
        decreases self,
    {
        let ghost was = out.deep_view();
        match self {
            Value::Scalar(expr) => {
                out.push(expr.clone());
                assert(out.deep_view() =~= was + seq![expr.deep_view()]);
            },
            Value::Array(items) => {
                let ghost value = self.deep_view();
                proof {
                    lemma_values(*items);
                }
                let mut i: usize = 0;
                assert(out.deep_view() =~= was + scalars_upto(value, 0));
                while i < items.len()
                    invariant
                        i <= items.len(),
                        self matches Value::Array(held) && held == items,
                        value == self.deep_view(),
                        value == ValueV::Array(items.deep_view()),
                        out.deep_view() == was + scalars_upto(value, i as nat),
                    decreases items.len() - i,
                {
                    assert(items.deep_view()[i as int] == items@[i as int].deep_view());
                    items[i].flatten_into(out);
                    assert(out.deep_view() =~= was + scalars_upto(value, (i + 1) as nat));
                    i = i + 1;
                }
            },
        }
    }

    /// The expression form of the value: a scalar as itself, an array as a
    /// literal - which is how one travels through the bindings of an
    /// algorithm.
    pub fn into_expr(&self) -> (r: Expr)
        ensures
            r.deep_view() == written_out(self.deep_view()),
        decreases self,
    {
        match self {
            Value::Scalar(expr) => expr.clone(),
            Value::Array(items) => {
                let ghost value = self.deep_view();
                proof {
                    lemma_values(*items);
                }
                let mut out: Vec<Expr> = Vec::new();
                let mut i: usize = 0;
                while i < items.len()
                    invariant
                        i <= items.len(),
                        self matches Value::Array(held) && held == items,
                        out@.len() == i,
                        forall|k: int|
                            0 <= k < i ==> (#[trigger] out@[k]).deep_view() == written_out(
                                items.deep_view()[k],
                            ),
                    decreases items.len() - i,
                {
                    assert(items.deep_view()[i as int] == items@[i as int].deep_view());
                    out.push(items[i].into_expr());
                    i = i + 1;
                }
                assert(out.deep_view() =~= all_written_out(value));
                make::array(out)
            },
        }
    }

    /// Its shape, as the length of each dimension.
    pub fn shape(&self) -> (r: Vec<usize>)
        ensures
            Seq::new(r@.len(), |i: int| r@[i] as nat) == shape_of(self.deep_view()),
        decreases self,
    {
        let mut out: Vec<usize> = Vec::new();
        if let Value::Array(items) = self {
            proof {
                lemma_values(*items);
            }
            out.push(items.len());
            if items.len() > 0 {
                assert(items.deep_view()[0] == items@[0].deep_view());
                let mut more = items[0].shape();
                let ghost below = Seq::new(more@.len(), |i: int| more@[i] as nat);
                out.append(&mut more);
                assert(Seq::new(out@.len(), |i: int| out@[i] as nat) =~= seq![
                    items@.len(),
                ] + below);
            } else {
                assert(Seq::new(out@.len(), |i: int| out@[i] as nat) =~= seq![0nat]);
            }
        }
        assert(self.deep_view() is Scalar ==> Seq::new(out@.len(), |i: int| out@[i] as nat)
            =~= Seq::empty());
        out
    }
}

/// How many scalars an array of the given shape has.
pub open spec fn room(shape: Seq<nat>) -> nat
    decreases shape.len(),
{
    if shape.len() == 0 {
        1
    } else {
        shape[0] * room(shape.drop_first())
    }
}

/// Whether every element of an array has the shape of its first.
pub open spec fn is_even(value: ValueV) -> bool
    decreases value,
{
    match value {
        ValueV::Scalar(_) => true,
        ValueV::Array(items) => forall|i: int|
            0 <= i < items.len() ==> is_even(#[trigger] items[i]) && shape_of(items[i]) == shape_of(
                items[0],
            ),
    }
}

/// A value whose elements are all of one shape has as many scalars as its
/// shape says.
pub proof fn law_shape_counts_scalars(value: ValueV)
    requires
        is_even(value),
    ensures
        scalars(value).len() == room(shape_of(value)),
    decreases value, width(value) + 1,
{
    if let ValueV::Array(items) = value {
        lemma_even_upto(value, items.len());
        assert(scalars(value) == scalars_upto(value, items.len()));
        assert(shape_of(value)[0] == items.len());
        if items.len() > 0 {
            assert(shape_of(value).drop_first() =~= shape_of(items[0]));
            assert(room(shape_of(value)) == items.len() * room(shape_of(items[0])));
        } else {
            assert(shape_of(value).drop_first() =~= Seq::empty());
            assert(room(shape_of(value)) == 0 * room(Seq::empty()));
        }
    }
}

/// How many scalars each element of an even array has.
spec fn share(value: ValueV) -> nat {
    match value {
        ValueV::Array(items) => if items.len() > 0 {
            room(shape_of(items[0]))
        } else {
            1
        },
        ValueV::Scalar(_) => 1,
    }
}

proof fn lemma_even_upto(value: ValueV, n: nat)
    requires
        is_even(value),
        value is Array,
        n <= width(value),
    ensures
        scalars_upto(value, n).len() == n * share(value),
    decreases value, n,
{
    let each = share(value);
    if let ValueV::Array(items) = value {
        if n > 0 {
            lemma_even_upto(value, (n - 1) as nat);
            assert(is_even(items[n - 1]));
            law_shape_counts_scalars(items[n - 1]);
            assert(n * each == (n - 1) * each + each) by (nonlinear_arith)
                requires
                    n > 0,
            ;
        } else {
            assert(0 * each == 0);
        }
    }
}

}
