//! Whole arrays that are still named when every shape is known.
//!
//! A value may read one member off every element of an array that was not
//! measured where the value was written. Once every array is, such a name is
//! written out into the elements it always meant, and a `size` that could not
//! be answered is.
use crate::class::{EquationItem, EquationV};
use crate::expr::{is_call, kids, lemma_kids_smaller, lemma_views, with_kids, BinOp, Expr, ExprV};
use crate::flat::Model;
use crate::make;
use crate::names::{element_name, element_of, elements_in, index_tuples, law_index_tuples, same_indices, tuples_of, written};
use crate::table::{entered, Table};
use crate::text::{all_digits, clear_end, cleared, cut_first, digit, digits, dot, dotted, find_first, find_last, first_of, is_blank, is_digit, joined, last_of, lemma_first_of, lemma_first_of_is, lemma_last_of, parts, read_int, same, signed, split_all, split_first, texts, trim, trimmed, worth, written_int};
use vstd::prelude::*;

verus! {

/// How long every array is, by flat path.
pub type ShapesV = Map<Seq<char>, Seq<i64>>;

/// The array that the first `upto` characters of a name read a member off,
/// and the member: the longest such array.
pub open spec fn member_read(name: Seq<char>, known: ShapesV, upto: int) -> Option<
    (Seq<char>, Seq<char>),
>
    decreases upto,
{
    proof {
        lemma_last_of(name.take(upto), '.');
    }
    let cut = last_of(name.take(upto), '.');
    if upto < 0 || upto > name.len() || cut < 0 {
        None
    } else if known.contains_key(name.take(cut)) {
        Some((name.take(cut), name.skip(cut + 1)))
    } else {
        member_read(name, known, cut)
    }
}

/// The array a name reads a member off, longest prefix first: with arrays
/// inside arrays the innermost one owns the subscript.
pub fn member_of(name: &str, known: &Table<Vec<i64>>) -> (r: Option<(String, String)>)
    ensures
        match r {
            Some((array, member)) => member_read(name@, known.deep_view(), name@.len() as int)
                == Some((array@, member@)),
            None => member_read(name@, known.deep_view(), name@.len() as int) is None,
        },
{
    let n: usize = name.unicode_len();
    let mut upto: usize = n;
    loop
        invariant
            upto <= n,
            n == name@.len(),
            member_read(name@, known.deep_view(), n as int) == member_read(
                name@,
                known.deep_view(),
                upto as int,
            ),
        decreases upto,
    {
        let before = name.substring_char(0, upto);
        assert(before@ =~= name@.take(upto as int));
        proof {
            lemma_last_of(before@, '.');
        }
        match find_last(before, '.') {
            None => return None,
            Some(cut) => {
                let array = name.substring_char(0, cut);
                assert(array@ =~= name@.take(cut as int));
                if known.has(array) {
                    let member = name.substring_char(cut + 1, n);
                    assert(member@ =~= name@.skip(cut + 1));
                    return Some((array.to_owned(), member.to_owned()));
                }
                upto = cut;
            },
        }
    }
}

/// The array that a name without subscripts stands for or reads a member off,
/// with its shape, and the member where it is one.
pub open spec fn array_read(name: Seq<char>, known: ShapesV) -> Option<
    (Seq<i64>, Seq<char>, Option<Seq<char>>),
> {
    if first_of(name, '[') < name.len() {
        None
    } else if known.contains_key(name) {
        Some((known[name], name, None))
    } else {
        match member_read(name, known, name.len() as int) {
            Some((array, member)) => Some((known[array], array, Some(member))),
            None => None,
        }
    }
}

fn read_array<'k>(name: &str, known: &'k Table<Vec<i64>>) -> (r: Option<
    (&'k Vec<i64>, String, Option<String>),
>)
    ensures
        match r {
            Some((shape, array, member)) => array_read(name@, known.deep_view()) == Some(
                (shape@, array@, member.deep_view()),
            ),
            None => array_read(name@, known.deep_view()) is None,
        },
{
    let n: usize = name.unicode_len();
    if find_first(name, '[') < n {
        return None;
    }
    if let Some(shape) = known.get(name) {
        assert(shape.deep_view() =~= shape@);
        return Some((shape, name.to_owned(), None));
    }
    match member_of(name, known) {
        None => None,
        Some((array, member)) => {
            match known.get(array.as_str()) {
                Some(shape) => {
                    assert(shape.deep_view() =~= shape@);
                    Some((shape, array, Some(member)))
                },
                None => {
                    proof {
                        lemma_member_known(name@, known.deep_view(), name@.len() as int);
                    }
                    None
                },
            }
        },
    }
}

/// The array that a member is read off is one whose shape is known.
proof fn lemma_member_known(name: Seq<char>, known: ShapesV, upto: int)
    ensures
        member_read(name, known, upto) matches Some((array, _)) ==> known.contains_key(array),
    decreases upto,
{
    lemma_last_of(name.take(upto), '.');
    let cut = last_of(name.take(upto), '.');
    if !(upto < 0 || upto > name.len() || cut < 0) && !known.contains_key(name.take(cut)) {
        lemma_member_known(name, known, cut);
    }
}

/// One element of an array, or a member of it.
pub open spec fn element_at(array: Seq<char>, at: Seq<i64>, member: Option<Seq<char>>) -> ExprV {
    match member {
        Some(member) => ExprV::Ref(dotted(element_of(array, at), member)),
        None => ExprV::Ref(element_of(array, at)),
    }
}

fn make_element(array: &str, at: &Vec<i64>, member: &Option<String>) -> (r: Expr)
    ensures
        r.deep_view() == element_at(array@, at@, member.deep_view()),
{
    let element = element_name(array, at);
    match member {
        Some(member) => make::name(dot(element.as_str(), member.as_str())),
        None => make::name(element),
    }
}

/// Every element of an array, in order.
pub open spec fn elements_of(
    shape: Seq<i64>,
    array: Seq<char>,
    member: Option<Seq<char>>,
) -> Seq<ExprV> {
    Seq::new(tuples_of(shape).len(), |i: int| element_at(array, tuples_of(shape)[i], member))
}

fn make_elements(shape: &Vec<i64>, array: &str, member: &Option<String>) -> (r: Vec<Expr>)
    ensures
        r.deep_view() == elements_of(shape@, array@, member.deep_view()),
{
    let all = index_tuples(shape);
    let mut out: Vec<Expr> = Vec::new();
    let mut i: usize = 0;
    while i < all.len()
        invariant
            i <= all.len(),
            all.deep_view() == tuples_of(shape@),
            out@.len() == i,
            forall|k: int|
                0 <= k < i ==> (#[trigger] out@[k]).deep_view() == element_at(
                    array@,
                    tuples_of(shape@)[k],
                    member.deep_view(),
                ),
        decreases all.len() - i,
    {
        assert(all.deep_view()[i as int] == all@[i as int].deep_view());
        assert(all@[i as int].deep_view() =~= all@[i as int]@);
        out.push(make_element(array, &all[i], member));
        i = i + 1;
    }
    assert(out.deep_view() =~= elements_of(shape@, array@, member.deep_view()));
    out
}

/// The operators that take an array and come to one number.
pub open spec fn is_reduction(e: ExprV) -> bool {
    is_call(e, "sum"@, 1) || is_call(e, "max"@, 1) || is_call(e, "min"@, 1)
}

/// A reduction applied to one more element.
pub open spec fn combined(name: Seq<char>, so_far: ExprV, item: ExprV) -> ExprV {
    if name == "sum"@ {
        ExprV::Bin(BinOp::Add, Box::new(so_far), Box::new(item))
    } else {
        ExprV::Call(name, seq![so_far, item])
    }
}

/// A reduction over every element in turn.
pub open spec fn reduced(name: Seq<char>, items: Seq<ExprV>) -> ExprV
    decreases items.len(),
{
    if items.len() <= 1 {
        items[0]
    } else {
        combined(name, reduced(name, items.drop_last()), items.last())
    }
}

fn reduce(name: &String, items: &Vec<Expr>) -> (r: Expr)
    requires
        items.len() > 0,
    ensures
        r.deep_view() == reduced(name@, items.deep_view()),
{
    let ghost all = items.deep_view();
    let mut out: Expr = items[0].clone();
    let mut i: usize = 1;
    assert(all.take(1)[0] == items@[0].deep_view());
    while i < items.len()
        invariant
            1 <= i <= items.len(),
            all == items.deep_view(),
            out.deep_view() == reduced(name@, all.take(i as int)),
        decreases items.len() - i,
    {
        assert(all.take(i + 1).drop_last() =~= all.take(i as int));
        assert(all[i as int] == items@[i as int].deep_view());
        out = if same(name.as_str(), "sum") {
            make::bin(BinOp::Add, out, items[i].clone())
        } else {
            make::call2(name.as_str(), out, items[i].clone())
        };
        i = i + 1;
    }
    assert(all.take(i as int) =~= all);
    out
}

/// What is looked inside: nothing else may hold an array by now.
pub open spec fn is_followed(e: ExprV) -> bool {
    e is Call || e is Neg || e is Bin
}

fn followed(expr: &Expr) -> (r: bool)
    ensures
        r == is_followed(expr.deep_view()),
{
    matches!(expr, Expr::Call(..) | Expr::Neg(_) | Expr::Bin(..))
}

/// A whole array under a reduction written out into its elements, and the
/// reduction over what is written out.
pub open spec fn sliced(e: ExprV, known: ShapesV, under: bool) -> ExprV
    decreases e, 1int,
{
    proof {
        lemma_kids_smaller(e);
    }
    match e {
        ExprV::Ref(name) => match array_read(name, known) {
            Some((shape, array, member)) => if under && tuples_of(shape).len() > 0 {
                ExprV::Array(elements_of(shape, array, member))
            } else {
                e
            },
            None => e,
        },
        _ => match sliced_reduction(e, known) {
            Some(made) => made,
            None => if is_followed(e) {
                with_kids(e, sliced_kids(e, known, false))
            } else {
                e
            },
        },
    }
}

/// What a reduction comes to, where what it is over can be written out.
pub open spec fn sliced_reduction(e: ExprV, known: ShapesV) -> Option<ExprV>
    decreases e, 0int,
{
    proof {
        lemma_kids_smaller(e);
    }
    match e {
        ExprV::Call(name, _) => if is_reduction(e) && kids(e).len() > 0 {
            match sliced(kids(e)[0], known, true) {
                ExprV::Array(items) => if items.len() > 0 {
                    Some(reduced(name, items))
                } else {
                    None
                },
                _ => None,
            }
        } else {
            None
        },
        _ => None,
    }
}

/// [`sliced`] of every child.
pub open spec fn sliced_kids(e: ExprV, known: ShapesV, under: bool) -> Seq<ExprV>
    decreases e, 0int,
{
    proof {
        lemma_kids_smaller(e);
    }
    Seq::new(
        kids(e).len(),
        |i: int|
            if 0 <= i < kids(e).len() {
                sliced(kids(e)[i], known, under)
            } else {
                e
            },
    )
}

fn is_one_argument_reduction(name: &str, args: &Vec<Expr>) -> (r: bool)
    ensures
        r == is_reduction(ExprV::Call(name@, args.deep_view())),
{
    args.len() == 1 && (same(name, "sum") || same(name, "max") || same(name, "min"))
}

/// Write out every whole array that stands under a reduction.
fn slice_out(expr: &Expr, known: &Table<Vec<i64>>, under: bool) -> (r: Expr)
    ensures
        r.deep_view() == sliced(expr.deep_view(), known.deep_view(), under),
    decreases expr.deep_view(), 1int,
{
    if let Expr::Ref(name) = expr {
        if let Some((shape, array, member)) = read_array(name.as_str(), known) {
            if under {
                let items = make_elements(shape, array.as_str(), &member);
                assert(items.deep_view().len() == tuples_of(shape@).len());
                if items.len() > 0 {
                    return make::array(items);
                }
            }
        }
        return expr.clone();
    }
    if let Some(made) = slice_reduction(expr, known) {
        return made;
    }
    if !followed(expr) {
        return expr.clone();
    }
    let ghost held = known.deep_view();
    let ghost shape = expr.deep_view();
    let parts = expr.children();
    let mut new: Vec<Expr> = Vec::new();
    let mut i: usize = 0;
    proof {
        lemma_kids_smaller(shape);
    }
    while i < parts.len()
        invariant
            i <= parts.len(),
            shape == expr.deep_view(),
            parts.deep_view() == kids(shape),
            forall|k: int|
                0 <= k < kids(shape).len() ==> (#[trigger] decreases_to!(shape => kids(shape)[k])),
            new.len() == i,
            forall|k: int|
                0 <= k < i ==> (#[trigger] new@[k]).deep_view() == sliced(kids(shape)[k], held, false),
            held == known.deep_view(),
        decreases parts.len() - i,
    {
        assert(parts.deep_view()[i as int] == parts@[i as int].deep_view());
        assert(decreases_to!(shape => kids(shape)[i as int]));
        let part: &Expr = parts[i];
        new.push(slice_out(part, known, false));
        i = i + 1;
    }
    assert(new.deep_view() =~= sliced_kids(shape, held, false));
    expr.with_children(new)
}

fn slice_reduction(expr: &Expr, known: &Table<Vec<i64>>) -> (r: Option<Expr>)
    ensures
        r.deep_view() == sliced_reduction(expr.deep_view(), known.deep_view()),
    decreases expr.deep_view(), 0int,
{
    if let Expr::Call(name, args) = expr {
        proof {
            lemma_views(*args);
            lemma_kids_smaller(expr.deep_view());
        }
        if is_one_argument_reduction(name.as_str(), args) {
            assert(kids(expr.deep_view()) == args.deep_view());
            assert(kids(expr.deep_view())[0] == args@[0].deep_view());
            assert(decreases_to!(expr.deep_view() => kids(expr.deep_view())[0]));
            let inside = slice_out(&args[0], known, true);
            if let Expr::Array(items) = &inside {
                proof {
                    lemma_views(*items);
                }
                if items.len() > 0 {
                    return Some(reduce(name, items));
                }
            }
        }
    }
    None
}

/// Whether an array of the given shape has an element at the given place.
pub open spec fn fits(shape: Seq<i64>, at: Seq<i64>) -> bool {
    shape.len() == at.len() && forall|i: int|
        0 <= i < at.len() ==> #[trigger] at[i] <= shape[i]
}

fn does_fit(shape: &Vec<i64>, at: &Vec<i64>) -> (r: bool)
    ensures
        r == fits(shape@, at@),
{
    if shape.len() != at.len() {
        return false;
    }
    let mut i: usize = 0;
    while i < at.len()
        invariant
            i <= at.len(),
            shape@.len() == at@.len(),
            forall|k: int| 0 <= k < i ==> #[trigger] at@[k] <= shape@[k],
        decreases at.len() - i,
    {
        if at[i] > shape[i] {
            assert(!(at@[i as int] <= shape@[i as int]));
            return false;
        }
        i = i + 1;
    }
    true
}

/// Every whole array written as its one element at `at`, where it has one.
pub open spec fn picked(e: ExprV, known: ShapesV, at: Seq<i64>) -> ExprV
    decreases e, 1int,
{
    match e {
        ExprV::Ref(name) => match array_read(name, known) {
            Some((shape, array, member)) => if fits(shape, at) {
                element_at(array, at, member)
            } else {
                e
            },
            None => e,
        },
        _ => if is_followed(e) {
            with_kids(e, picked_kids(e, known, at))
        } else {
            e
        },
    }
}

/// [`picked`] of every child.
pub open spec fn picked_kids(e: ExprV, known: ShapesV, at: Seq<i64>) -> Seq<ExprV>
    decreases e, 0int,
{
    proof {
        lemma_kids_smaller(e);
    }
    Seq::new(
        kids(e).len(),
        |i: int|
            if 0 <= i < kids(e).len() {
                picked(kids(e)[i], known, at)
            } else {
                e
            },
    )
}

/// Write every whole member slice in `expr` as the one element at `at`, where
/// the array it reads off has an element there to give.
pub fn per_element(expr: &Expr, known: &Table<Vec<i64>>, at: &Vec<i64>) -> (r: Expr)
    ensures
        r.deep_view() == picked(expr.deep_view(), known.deep_view(), at@),
    decreases expr.deep_view(),
{
    if let Expr::Ref(name) = expr {
        if let Some((shape, array, member)) = read_array(name.as_str(), known) {
            if does_fit(shape, at) {
                return make_element(array.as_str(), at, &member);
            }
        }
        return expr.clone();
    }
    if !followed(expr) {
        return expr.clone();
    }
    let ghost held = known.deep_view();
    let ghost place = at@;
    let ghost shape = expr.deep_view();
    let parts = expr.children();
    let mut new: Vec<Expr> = Vec::new();
    let mut i: usize = 0;
    proof {
        lemma_kids_smaller(shape);
    }
    while i < parts.len()
        invariant
            i <= parts.len(),
            shape == expr.deep_view(),
            parts.deep_view() == kids(shape),
            forall|k: int|
                0 <= k < kids(shape).len() ==> (#[trigger] decreases_to!(shape => kids(shape)[k])),
            new.len() == i,
            forall|k: int|
                0 <= k < i ==> (#[trigger] new@[k]).deep_view() == picked(kids(shape)[k], held, place),
            held == known.deep_view(),
            place == at@,
        decreases parts.len() - i,
    {
        assert(parts.deep_view()[i as int] == parts@[i as int].deep_view());
        assert(decreases_to!(shape => kids(shape)[i as int]));
        let part: &Expr = parts[i];
        new.push(per_element(part, known, at));
        i = i + 1;
    }
    assert(new.deep_view() =~= picked_kids(shape, held, place));
    expr.with_children(new)
}

/// The shapes of the whole arrays that stand in an expression, in order. What
/// stands under a reduction is left out.
pub open spec fn shapes_inside(e: ExprV, known: ShapesV) -> Seq<Seq<i64>>
    decreases e, kids(e).len() + 1,
{
    match e {
        ExprV::Ref(name) => match array_read(name, known) {
            Some((shape, _, _)) => seq![shape],
            None => Seq::empty(),
        },
        ExprV::Call(name, _) => if name == "sum"@ || name == "max"@ || name == "min"@ {
            Seq::empty()
        } else {
            kids_shapes(e, known, kids(e).len())
        },
        _ => if is_followed(e) {
            kids_shapes(e, known, kids(e).len())
        } else {
            Seq::empty()
        },
    }
}

/// The same over the first `n` children.
pub open spec fn kids_shapes(e: ExprV, known: ShapesV, n: nat) -> Seq<Seq<i64>>
    decreases e, n,
{
    proof {
        lemma_kids_smaller(e);
    }
    if n == 0 || n > kids(e).len() {
        Seq::empty()
    } else {
        kids_shapes(e, known, (n - 1) as nat) + shapes_inside(kids(e)[n - 1], known)
    }
}

/// The shape of every whole array standing in `expr`, one for each.
fn list_shapes(expr: &Expr, known: &Table<Vec<i64>>) -> (r: Vec<Vec<i64>>)
    ensures
        r.deep_view() == shapes_inside(expr.deep_view(), known.deep_view()),
    decreases expr.deep_view(),
{
    let ghost shape = expr.deep_view();
    let ghost held = known.deep_view();
    let mut out: Vec<Vec<i64>> = Vec::new();
    assert(out.deep_view() =~= Seq::empty());
    if let Expr::Ref(name) = expr {
        if let Some((one, _, _)) = read_array(name.as_str(), known) {
            let copy = same_indices(one);
            assert(copy.deep_view() =~= copy@);
            out.push(copy);
            assert(out.deep_view() =~= seq![one@]);
        }
        return out;
    }
    if let Expr::Call(name, _) = expr {
        if same(name.as_str(), "sum") || same(name.as_str(), "max") || same(name.as_str(), "min") {
            return out;
        }
    }
    if !followed(expr) {
        return out;
    }
    let below = expr.children();
    let mut i: usize = 0;
    proof {
        lemma_kids_smaller(shape);
    }
    while i < below.len()
        invariant
            i <= below.len(),
            shape == expr.deep_view(),
            held == known.deep_view(),
            below.deep_view() == kids(shape),
            forall|k: int|
                0 <= k < kids(shape).len() ==> (#[trigger] decreases_to!(shape => kids(shape)[k])),
            out.deep_view() == kids_shapes(shape, held, i as nat),
        decreases below.len() - i,
    {
        assert(below.deep_view()[i as int] == below@[i as int].deep_view());
        assert(decreases_to!(shape => kids(shape)[i as int]));
        let ghost before = out.deep_view();
        let mut more = list_shapes(below[i], known);
        let ghost added = more.deep_view();
        out.append(&mut more);
        assert(out.deep_view() =~= before + added);
        i = i + 1;
    }
    out
}

/// The shape that a list of shapes agrees on, where there is any and no two
/// differ.
pub open spec fn agreed(shapes: Seq<Seq<i64>>) -> Option<Seq<i64>> {
    if shapes.len() > 0 && forall|i: int|
        0 <= i < shapes.len() ==> #[trigger] shapes[i] == shapes[0] {
        Some(shapes[0])
    } else {
        None
    }
}

fn same_list(a: &Vec<i64>, b: &Vec<i64>) -> (r: bool)
    ensures
        r == (a@ == b@),
{
    if a.len() != b.len() {
        return false;
    }
    let mut i: usize = 0;
    while i < a.len()
        invariant
            i <= a.len(),
            a@.len() == b@.len(),
            forall|k: int| 0 <= k < i ==> #[trigger] a@[k] == b@[k],
        decreases a.len() - i,
    {
        if a[i] != b[i] {
            assert(a@[i as int] != b@[i as int]);
            return false;
        }
        i = i + 1;
    }
    assert(a@ =~= b@);
    true
}

/// The shape every whole array standing in an expression has, one for each, or
/// nothing where there is none or where two disagree.
pub open spec fn whole_shapes(e: ExprV, known: ShapesV) -> Seq<Seq<i64>> {
    let all = shapes_inside(e, known);
    match agreed(all) {
        Some(_) => all,
        None => Seq::empty(),
    }
}

/// The shape every whole array standing in `expr` has, or nothing where there is
/// none or where two disagree. What stands under a reduction is left out:
/// `sum(rs.resistor.LossPower)` is one number however long the array inside it
/// is.
pub fn whole_shape(expr: &Expr, known: &Table<Vec<i64>>) -> (r: Vec<Vec<i64>>)
    ensures
        r.deep_view() == whole_shapes(expr.deep_view(), known.deep_view()),
{
    let all = list_shapes(expr, known);
    let none: Vec<Vec<i64>> = Vec::new();
    assert(none.deep_view() =~= Seq::empty());
    if find_agreed(&all).is_some() {
        all
    } else {
        none
    }
}

fn find_agreed(shapes: &Vec<Vec<i64>>) -> (r: Option<Vec<i64>>)
    ensures
        match r {
            Some(shape) => agreed(shapes.deep_view()) == Some(shape@),
            None => agreed(shapes.deep_view()) is None,
        },
{
    if shapes.len() == 0 {
        return None;
    }
    let ghost all = shapes.deep_view();
    assert(all[0] == shapes@[0].deep_view());
    assert(shapes@[0].deep_view() =~= shapes@[0]@);
    let mut i: usize = 1;
    while i < shapes.len()
        invariant
            1 <= i <= shapes.len(),
            all == shapes.deep_view(),
            all[0] == shapes@[0]@,
            forall|k: int| 0 <= k < i ==> #[trigger] all[k] == all[0],
        decreases shapes.len() - i,
    {
        assert(all[i as int] == shapes@[i as int].deep_view());
        assert(shapes@[i as int].deep_view() =~= shapes@[i as int]@);
        if !same_list(&shapes[i], &shapes[0]) {
            assert(all[i as int] != all[0]);
            return None;
        }
        i = i + 1;
    }
    Some(same_indices(&shapes[0]))
}

/// The one equation for each element that an equation between whole arrays
/// is, or the equation itself where it is none.
pub open spec fn taken_apart(e: EquationV, known: ShapesV) -> Seq<EquationV> {
    match agreed(shapes_inside(e.lhs, known) + shapes_inside(e.rhs, known)) {
        Some(shape) => if tuples_of(shape).len() > 0 {
            Seq::new(
                tuples_of(shape).len(),
                |i: int|
                    EquationV {
                        lhs: picked(e.lhs, known, tuples_of(shape)[i]),
                        rhs: picked(e.rhs, known, tuples_of(shape)[i]),
                        origin: e.origin,
                    },
            )
        } else {
            seq![e]
        },
        None => seq![e],
    }
}

/// An equation between whole arrays comes to one equation for each element,
/// and no equation is lost.
pub proof fn law_one_equation_per_element(e: EquationV, known: ShapesV)
    ensures
        taken_apart(e, known).len() >= 1,
        match agreed(shapes_inside(e.lhs, known) + shapes_inside(e.rhs, known)) {
            Some(shape) => elements_in(shape) > 0 ==> taken_apart(e, known).len() == elements_in(
                shape,
            ),
            None => taken_apart(e, known) == seq![e],
        },
{
    if let Some(shape) = agreed(shapes_inside(e.lhs, known) + shapes_inside(e.rhs, known)) {
        law_index_tuples(shape);
    }
}

pub open spec fn all_taken_apart(list: Seq<EquationV>, known: ShapesV) -> Seq<EquationV>
    decreases list.len(),
{
    if list.len() == 0 {
        Seq::empty()
    } else {
        all_taken_apart(list.drop_last(), known) + taken_apart(list.last(), known)
    }
}

fn take_apart(equation: &EquationItem, known: &Table<Vec<i64>>) -> (r: Vec<EquationItem>)
    ensures
        r.deep_view() == taken_apart(equation.deep_view(), known.deep_view()),
{
    let ghost held = known.deep_view();
    let ghost one = equation.deep_view();
    let mut shapes = list_shapes(&equation.lhs, known);
    let mut more = list_shapes(&equation.rhs, known);
    shapes.append(&mut more);
    assert(shapes.deep_view() =~= shapes_inside(one.lhs, held) + shapes_inside(one.rhs, held));
    let mut out: Vec<EquationItem> = Vec::new();
    if let Some(shape) = find_agreed(&shapes) {
        let places = index_tuples(&shape);
        let ghost all = tuples_of(shape@);
        if places.len() > 0 {
            let mut i: usize = 0;
            while i < places.len()
                invariant
                    i <= places.len(),
                    held == known.deep_view(),
                    one == equation.deep_view(),
                    places.deep_view() == all,
                    out@.len() == i,
                    forall|k: int|
                        0 <= k < i ==> (#[trigger] out@[k]).deep_view() == (EquationV {
                            lhs: picked(one.lhs, held, all[k]),
                            rhs: picked(one.rhs, held, all[k]),
                            origin: one.origin,
                        }),
                decreases places.len() - i,
            {
                assert(places.deep_view()[i as int] == places@[i as int].deep_view());
                assert(places@[i as int].deep_view() =~= places@[i as int]@);
                out.push(
                    EquationItem {
                        lhs: per_element(&equation.lhs, known, &places[i]),
                        rhs: per_element(&equation.rhs, known, &places[i]),
                        origin: equation.origin.clone(),
                    },
                );
                i = i + 1;
            }
            assert(out.deep_view() =~= taken_apart(one, held));
            return out;
        }
    }
    out.push(equation.clone());
    assert(out.deep_view() =~= seq![one]);
    out
}

fn take_all_apart(list: &Vec<EquationItem>, known: &Table<Vec<i64>>) -> (r: Vec<EquationItem>)
    ensures
        r.deep_view() == all_taken_apart(list.deep_view(), known.deep_view()),
{
    let ghost all = list.deep_view();
    let ghost held = known.deep_view();
    let mut out: Vec<EquationItem> = Vec::new();
    let mut i: usize = 0;
    assert(out.deep_view() =~= all_taken_apart(all.take(0), held));
    while i < list.len()
        invariant
            i <= list.len(),
            all == list.deep_view(),
            held == known.deep_view(),
            out.deep_view() == all_taken_apart(all.take(i as int), held),
        decreases list.len() - i,
    {
        assert(all.take(i + 1).drop_last() =~= all.take(i as int));
        assert(all[i as int] == list@[i as int].deep_view());
        let ghost before = out.deep_view();
        let mut more = take_apart(&list[i], known);
        let ghost added = more.deep_view();
        out.append(&mut more);
        assert(out.deep_view() =~= before + added);
        i = i + 1;
    }
    assert(all.take(i as int) =~= all);
    out
}

/// The integers among the parts of a subscript.
pub open spec fn subscripts(list: Seq<Seq<char>>) -> Seq<i64>
    decreases list.len(),
{
    if list.len() == 0 {
        Seq::empty()
    } else {
        match written_int(trimmed(list.last())) {
            Some(value) => subscripts(list.drop_last()).push(value as i64),
            None => subscripts(list.drop_last()),
        }
    }
}

/// The subscripts of an element of an array whose shape is known.
pub open spec fn place_of(e: ExprV, known: ShapesV) -> Option<Seq<i64>> {
    match e {
        ExprV::Ref(name) => match cut_first(name, '[') {
            Some((base, rest)) => {
                let at = subscripts(parts(cleared(rest, ']'), ','));
                if known.contains_key(base) && at.len() == known[base].len() {
                    Some(at)
                } else {
                    None
                }
            },
            None => None,
        },
        _ => None,
    }
}

/// The subscripts of `expr`, where it is one element of an array whose shape
/// is known, and nothing for anything else.
pub fn element_read(expr: &Expr, known: &Table<Vec<i64>>) -> (r: Option<Vec<i64>>)
    ensures
        match r {
            Some(at) => place_of(expr.deep_view(), known.deep_view()) == Some(at@),
            None => place_of(expr.deep_view(), known.deep_view()) is None,
        },
{
    let name: &String = match expr {
        Expr::Ref(name) => name,
        _ => return None,
    };
    let (base, rest) = match split_first(name.as_str(), '[') {
        Some(cut) => cut,
        None => return None,
    };
    let shape = match known.get(base.as_str()) {
        Some(shape) => shape,
        None => return None,
    };
    assert(shape.deep_view() =~= shape@);
    let inside = clear_end(rest.as_str(), ']');
    let list = split_all(inside.as_str(), ',');
    let ghost all = texts(list@);
    let mut at: Vec<i64> = Vec::new();
    let mut i: usize = 0;
    assert(at@ =~= subscripts(all.take(0)));
    while i < list.len()
        invariant
            i <= list.len(),
            all == texts(list@),
            at@ == subscripts(all.take(i as int)),
        decreases list.len() - i,
    {
        assert(all.take(i + 1).drop_last() =~= all.take(i as int));
        let one = trim(list[i].as_str());
        if let Some(value) = read_int(one.as_str()) {
            at.push(value);
        }
        i = i + 1;
    }
    assert(all.take(i as int) =~= all);
    if at.len() == shape.len() {
        Some(at)
    } else {
        None
    }
}

/// An equation already written out one element at a time wants the element of
/// the same place on both sides; in any other, the arrays under a reduction
/// are written out.
pub open spec fn element_wise(e: EquationV, known: ShapesV) -> EquationV {
    match place_of(e.lhs, known) {
        Some(at) => EquationV {
            lhs: picked(e.lhs, known, at),
            rhs: picked(e.rhs, known, at),
            origin: e.origin,
        },
        None => EquationV {
            lhs: sliced(e.lhs, known, false),
            rhs: sliced(e.rhs, known, false),
            origin: e.origin,
        },
    }
}

/// What the equations of a model come to once every array is measured.
pub open spec fn settled_slices(list: Seq<EquationV>, known: ShapesV) -> Seq<EquationV> {
    let apart = all_taken_apart(list, known);
    Seq::new(apart.len(), |i: int| element_wise(apart[i], known))
}

fn settle_list(list: &Vec<EquationItem>, known: &Table<Vec<i64>>) -> (r: Vec<EquationItem>)
    ensures
        r.deep_view() == settled_slices(list.deep_view(), known.deep_view()),
{
    let apart = take_all_apart(list, known);
    let ghost all = apart.deep_view();
    let ghost held = known.deep_view();
    let mut out: Vec<EquationItem> = Vec::new();
    let mut i: usize = 0;
    while i < apart.len()
        invariant
            i <= apart.len(),
            all == apart.deep_view(),
            held == known.deep_view(),
            out@.len() == i,
            forall|k: int|
                0 <= k < i ==> (#[trigger] out@[k]).deep_view() == element_wise(all[k], held),
        decreases apart.len() - i,
    {
        let one = &apart[i];
        assert(all[i as int] == one.deep_view());
        let (lhs, rhs) = match element_read(&one.lhs, known) {
            Some(at) => (per_element(&one.lhs, known, &at), per_element(&one.rhs, known, &at)),
            None => (slice_out(&one.lhs, known, false), slice_out(&one.rhs, known, false)),
        };
        out.push(EquationItem { lhs, rhs, origin: one.origin.clone() });
        i = i + 1;
    }
    assert(out.deep_view() =~= settled_slices(list.deep_view(), held));
    out
}

/// The shapes by name, the last of a name being the one that counts.
pub fn known_shapes(shapes: &Vec<(String, Vec<i64>)>) -> (r: Table<Vec<i64>>)
    ensures
        r.deep_view() == entered(shapes.deep_view()),
{
    let ghost all = shapes.deep_view();
    let mut out: Table<Vec<i64>> = Table::new();
    let mut i: usize = 0;
    assert(all.take(0) =~= Seq::empty());
    while i < shapes.len()
        invariant
            i <= shapes.len(),
            all == shapes.deep_view(),
            out.deep_view() == entered(all.take(i as int)),
        decreases shapes.len() - i,
    {
        assert(all.take(i + 1).drop_last() =~= all.take(i as int));
        assert(all[i as int] == shapes@[i as int].deep_view());
        let copy = same_indices(&shapes[i].1);
        assert(copy.deep_view() =~= shapes@[i as int].1.deep_view());
        out.put(shapes[i].0.clone(), copy);
        i = i + 1;
    }
    assert(all.take(i as int) =~= all);
    out
}

/// Write out every `a.b.c` still standing that names a member of an array of
/// components.
///
/// An equation between two whole arrays is one equation per element, so it is
/// taken apart rather than rewritten in place.
pub fn settle_member_slices(model: &mut Model, shapes: &Vec<(String, Vec<i64>)>)
    ensures
        shapes@.len() == 0 ==> *final(model) == *old(model),
        shapes@.len() > 0 ==> {
            let known = entered(shapes.deep_view());
            &&& final(model).equations.deep_view() == settled_slices(
                old(model).equations.deep_view(),
                known,
            )
            &&& final(model).initial_equations.deep_view() == settled_slices(
                old(model).initial_equations.deep_view(),
                known,
            )
            &&& *final(model) == (Model {
                equations: final(model).equations,
                initial_equations: final(model).initial_equations,
                ..*old(model)
            })
        },
{
    if shapes.len() == 0 {
        return;
    }
    let known = known_shapes(shapes);
    let equations = settle_list(&model.equations, &known);
    model.equations = equations;
    let initial = settle_list(&model.initial_equations, &known);
    model.initial_equations = initial;
}

proof fn lemma_digits_read_back(n: nat)
    ensures
        all_digits(digits(n)),
        worth(digits(n)) == n,
    decreases n,
{
    if n < 10 {
        let d = digits(n);
        assert(d.drop_last() =~= Seq::empty());
        assert(worth(d.drop_last()) == 0);
        assert(d.last() == digit(n));
        assert(is_digit(d[0]));
    } else {
        lemma_digits_read_back(n / 10);
        let front = digits(n / 10);
        let d = digits(n);
        assert(d.drop_last() =~= front);
        assert(d.last() == digit(n % 10));
        assert forall|i: int| 0 <= i < d.len() implies is_digit(#[trigger] d[i]) by {
            if i < front.len() {
                assert(d[i] == front[i]);
            }
        }
    }
}

proof fn lemma_subscript_read_back(n: i64)
    ensures
        written_int(trimmed(signed(n as int))) == Some(n as int),
        forall|i: int|
            0 <= i < signed(n as int).len() ==> (#[trigger] signed(n as int)[i]) != ',' && signed(
                n as int,
            )[i] != ']',
        signed(n as int).len() > 0,
{
    let s = signed(n as int);
    let run = if n < 0 {
        digits((-n) as nat)
    } else {
        digits(n as nat)
    };
    lemma_digits_read_back(if n < 0 {
        (-n) as nat
    } else {
        n as nat
    });
    if n < 0 {
        assert(s.skip(1) =~= run);
        assert(s[0] == '-');
        assert forall|i: int| 0 <= i < s.len() implies (#[trigger] s[i]) != ',' && s[i] != ']' by {
            if i > 0 {
                assert(s[i] == run[i - 1]);
                assert(is_digit(run[i - 1]));
            }
        }
        assert(s.last() == run.last());
    } else {
        assert(is_digit(s[0]));
        assert forall|i: int| 0 <= i < s.len() implies (#[trigger] s[i]) != ',' && s[i] != ']' by {
            assert(is_digit(run[i]));
        }
    }
    assert(is_digit(run[run.len() - 1]));
    assert(!is_blank(s[0]));
    assert(!is_blank(s.last()));
    assert(trimmed(s) == s);
}

proof fn lemma_joined_from_the_front(items: Seq<Seq<char>>, between: Seq<char>)
    requires
        items.len() > 1,
    ensures
        joined(items, between) == items[0] + between + joined(items.drop_first(), between),
    decreases items.len(),
{
    if items.len() == 2 {
        assert(items.drop_last().len() == 1);
        assert(joined(items.drop_last(), between) == items[0]);
        assert(joined(items.drop_first(), between) == items[1]);
        assert(items.drop_first()[0] == items[1]);
    } else {
        lemma_joined_from_the_front(items.drop_last(), between);
        let rest = items.drop_first();
        assert(items.drop_last().drop_first() =~= rest.drop_last());
        assert(rest.last() == items.last());
        assert(joined(items, between) =~= items[0] + between + joined(rest, between));
    }
}

proof fn lemma_parted_again(items: Seq<Seq<char>>)
    requires
        items.len() > 0,
        forall|i: int, k: int|
            0 <= i < items.len() && 0 <= k < items[i].len() ==> (#[trigger] items[i][k]) != ',',
    ensures
        parts(joined(items, ","@), ',') == items,
    decreases items.len(),
{
    reveal_strlit(",");
    let text = joined(items, ","@);
    if items.len() == 1 {
        lemma_first_of(text, ',');
        assert(first_of(text, ',') == text.len()) by {
            if first_of(text, ',') < text.len() {
                assert(items[0][first_of(text, ',') as int] == ',');
            }
        }
        assert(parts(text, ',') =~= items);
    } else {
        lemma_joined_from_the_front(items, ","@);
        let rest = items.drop_first();
        let at = items[0].len() as int;
        assert(text[at] == ',');
        assert forall|k: int| 0 <= k < at implies text[k] != ',' by {
            assert(text[k] == items[0][k]);
        }
        lemma_first_of_is(text, ',', at);
        assert(text.take(at) =~= items[0]);
        assert(text.skip(at + 1) =~= joined(rest, ","@));
        assert forall|i: int, k: int| 0 <= i < rest.len() && 0 <= k < rest[i].len() implies (
        #[trigger] rest[i][k]) != ',' by {
            assert(rest[i] == items[i + 1]);
        }
        lemma_parted_again(rest);
        assert(parts(text, ',') =~= seq![items[0]] + rest);
        assert(seq![items[0]] + rest =~= items);
    }
}

proof fn lemma_subscripts_read_back(at: Seq<i64>)
    ensures
        subscripts(written(at)) == at,
    decreases at.len(),
{
    if at.len() > 0 {
        let front = at.drop_last();
        lemma_subscripts_read_back(front);
        lemma_subscript_read_back(at.last());
        assert(written(at).drop_last() =~= written(front));
        assert(written(at).last() == signed(at.last() as int));
        assert(subscripts(written(at)) =~= front.push(at.last()));
        assert(front.push(at.last()) =~= at);
    } else {
        assert(subscripts(written(at)) =~= at);
    }
}

proof fn lemma_joined_ends(items: Seq<Seq<char>>)
    requires
        items.len() > 0,
        items.last().len() > 0,
    ensures
        joined(items, ","@).len() > 0,
        joined(items, ","@).last() == items.last().last(),
{
}

/// The subscripts that the name of an element is written with are the ones that
/// are read back from it.
pub proof fn law_subscripts_are_read_back(base: Seq<char>, at: Seq<i64>, known: ShapesV)
    requires
        first_of(base, '[') == base.len(),
        known.contains_key(base),
        known[base].len() == at.len(),
        at.len() > 0,
    ensures
        place_of(ExprV::Ref(element_of(base, at)), known) == Some(at),
{
    reveal_strlit("[");
    reveal_strlit("]");
    let items = written(at);
    let inside = joined(items, ","@);
    let name = element_of(base, at);
    let cut = base.len() as int;
    lemma_first_of(base, '[');
    assert(name[cut] == '[');
    assert forall|k: int| 0 <= k < cut implies name[k] != '[' by {
        assert(name[k] == base[k]);
    }
    lemma_first_of_is(name, '[', cut);
    assert(name.take(cut) =~= base);
    let rest = name.skip(cut + 1);
    assert(rest =~= inside + "]"@);
    assert(rest.last() == ']');
    assert(rest.drop_last() =~= inside);
    lemma_subscript_read_back(at.last());
    assert(items.last() == signed(at.last() as int));
    lemma_joined_ends(items);
    assert(inside.last() != ']');
    assert(cleared(inside, ']') == inside);
    assert(cleared(rest, ']') == inside);
    assert forall|i: int, k: int| 0 <= i < items.len() && 0 <= k < items[i].len() implies (
    #[trigger] items[i][k]) != ',' by {
        lemma_subscript_read_back(at[i]);
        assert(items[i] == signed(at[i] as int));
    }
    lemma_parted_again(items);
    lemma_subscripts_read_back(at);
}

}
