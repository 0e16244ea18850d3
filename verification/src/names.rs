//! Names and subscripts: what a reference is called in the flat model, and
//! what stands in its place.
use crate::class::copied;
use crate::expr::{
    expr_views, is_call, kids, lemma_kids_smaller, lemma_views, with_kids, Expr, ExprV,
};
use crate::number::Number;
use crate::table::Table;
use crate::text::{
    cut_last, find_last, holds, join2, join4, join_all, joined, lemma_last_of, same, signed, texts,
    whole,
};
use vstd::prelude::*;

verus! {

/// The types every value is of in the end.
pub open spec fn is_primitive_name(name: Seq<char>) -> bool {
    name == "Real"@ || name == "Integer"@ || name == "Boolean"@ || name == "String"@ || name
        == "Clock"@
}

/// Whether a type is one of the language's own.
pub fn is_primitive(name: &str) -> (r: bool)
    ensures
        r == is_primitive_name(name@),
{
    same(name, "Real") || same(name, "Integer") || same(name, "Boolean") || same(name, "String")
        || same(name, "Clock")
}

/// Whether an expression is Boolean by its form alone.
pub open spec fn is_boolean_form(e: ExprV) -> bool {
    e is Bool || e is Rel || e is And || e is Or || e is Not
}

pub fn is_boolean(expr: &Expr) -> (r: bool)
    ensures
        r == is_boolean_form(expr.deep_view()),
{
    matches!(expr, Expr::Bool(_) | Expr::Rel(..) | Expr::And(..) | Expr::Or(..) | Expr::Not(..))
}

/// The decimal forms of a list of subscripts.
pub open spec fn written(subscripts: Seq<i64>) -> Seq<Seq<char>> {
    Seq::new(subscripts.len(), |i: int| signed(subscripts[i] as int))
}

/// The flat name of one array element: `T[2]`, `A[1,3]`.
pub open spec fn element_of(base: Seq<char>, subscripts: Seq<i64>) -> Seq<char> {
    base + "["@ + joined(written(subscripts), ","@) + "]"@
}

/// The flat name of one array element.
pub fn element_name(base: &str, subscripts: &Vec<i64>) -> (r: String)
    ensures
        r@ == element_of(base@, subscripts@),
{
    let mut list: Vec<String> = Vec::new();
    let mut i: usize = 0;
    while i < subscripts.len()
        invariant
            i <= subscripts.len(),
            list.len() == i,
            forall|k: int| 0 <= k < i ==> (#[trigger] list@[k])@ == signed(subscripts@[k] as int),
        decreases subscripts.len() - i,
    {
        list.push(whole(subscripts[i]));
        i = i + 1;
    }
    assert(texts(list@) =~= written(subscripts@));
    let inside = join_all(&list, ",");
    join4(base, "[", inside.as_str(), "]")
}

/// A tuple followed by each index of one more dimension.
pub open spec fn lengthened(tuple: Seq<i64>, size: int) -> Seq<Seq<i64>>
    decreases size,
{
    if size <= 0 {
        Seq::empty()
    } else {
        lengthened(tuple, size - 1).push(tuple.push(size as i64))
    }
}

/// Every tuple followed by each index of one more dimension.
pub open spec fn all_lengthened(tuples: Seq<Seq<i64>>, size: int) -> Seq<Seq<i64>>
    decreases tuples.len(),
{
    if tuples.len() == 0 {
        Seq::empty()
    } else {
        all_lengthened(tuples.drop_last(), size) + lengthened(tuples.last(), size)
    }
}

/// Every index tuple of an array with the given dimensions, in row-major
/// order.
pub open spec fn tuples_of(dimensions: Seq<i64>) -> Seq<Seq<i64>>
    decreases dimensions.len(),
{
    if dimensions.len() == 0 {
        seq![Seq::empty()]
    } else {
        all_lengthened(tuples_of(dimensions.drop_last()), dimensions.last() as int)
    }
}

/// How many elements an array with the given dimensions has.
pub open spec fn elements_in(dimensions: Seq<i64>) -> int
    decreases dimensions.len(),
{
    if dimensions.len() == 0 {
        1
    } else {
        elements_in(dimensions.drop_last()) * (if dimensions.last() > 0 {
            dimensions.last() as int
        } else {
            0
        })
    }
}

proof fn lemma_lengthened(tuple: Seq<i64>, size: int)
    requires
        size <= i64::MAX,
    ensures
        lengthened(tuple, size).len() == (if size > 0 {
            size
        } else {
            0
        }),
        forall|i: int|
            0 <= i < lengthened(tuple, size).len() ==> #[trigger] lengthened(tuple, size)[i]
                == tuple.push((i + 1) as i64),
    decreases size,
{
    if size > 0 {
        lemma_lengthened(tuple, size - 1);
    }
}

/// Whether a tuple is one of a list with an index up to `size` after it.
spec fn lengthens(tuple: Seq<i64>, tuples: Seq<Seq<i64>>, size: int) -> bool {
    exists|k: int, j: int|
        0 <= k < tuples.len() && 1 <= j <= size && tuple == #[trigger] tuples[k].push(j as i64)
}

proof fn lemma_all_lengthened(tuples: Seq<Seq<i64>>, size: int)
    requires
        size <= i64::MAX,
    ensures
        all_lengthened(tuples, size).len() == tuples.len() * (if size > 0 {
            size
        } else {
            0
        }),
        forall|i: int|
            0 <= i < all_lengthened(tuples, size).len() ==> #[trigger] lengthens(
                all_lengthened(tuples, size)[i],
                tuples,
                size,
            ),
    decreases tuples.len(),
{
    if tuples.len() > 0 {
        let front = tuples.drop_last();
        lemma_all_lengthened(front, size);
        lemma_lengthened(tuples.last(), size);
        let each = if size > 0 {
            size
        } else {
            0
        };
        assert(tuples.len() * each == front.len() * each + each) by (nonlinear_arith)
            requires
                tuples.len() == front.len() + 1,
        ;
        assert forall|i: int| 0 <= i < all_lengthened(tuples, size).len() implies #[trigger] lengthens(
            all_lengthened(tuples, size)[i],
            tuples,
            size,
        ) by {
            let before = all_lengthened(front, size);
            if i < before.len() {
                assert(lengthens(before[i], front, size));
                let (k, j) = choose|k: int, j: int|
                    0 <= k < front.len() && 1 <= j <= size && before[i] == #[trigger] front[k].push(
                        j as i64,
                    );
                assert(tuples[k].push(j as i64) == before[i]);
            } else {
                let j = i - before.len() + 1;
                assert(tuples[tuples.len() - 1].push(j as i64) == all_lengthened(tuples, size)[i]);
            }
        }
    }
}

/// An array has as many index tuples as it has elements, each tuple has one
/// index for each dimension, and no index is below one or above the size of
/// its dimension.
pub proof fn law_index_tuples(dimensions: Seq<i64>)
    ensures
        tuples_of(dimensions).len() == elements_in(dimensions),
        forall|i: int|
            0 <= i < tuples_of(dimensions).len() ==> (#[trigger] tuples_of(dimensions)[i]).len()
                == dimensions.len(),
        forall|i: int, d: int|
            0 <= i < tuples_of(dimensions).len() && 0 <= d < dimensions.len() ==> 1
                <= #[trigger] tuples_of(dimensions)[i][d] <= dimensions[d],
    decreases dimensions.len(),
{
    if dimensions.len() > 0 {
        let front = dimensions.drop_last();
        let size = dimensions.last() as int;
        law_index_tuples(front);
        lemma_all_lengthened(tuples_of(front), size);
        assert forall|i: int, d: int|
            0 <= i < tuples_of(dimensions).len() && 0 <= d < dimensions.len() implies 1
            <= #[trigger] tuples_of(dimensions)[i][d] <= dimensions[d] by {
            assert(lengthens(tuples_of(dimensions)[i], tuples_of(front), size));
            let (k, j) = choose|k: int, j: int|
                0 <= k < tuples_of(front).len() && 1 <= j <= size && tuples_of(dimensions)[i]
                    == #[trigger] tuples_of(front)[k].push(j as i64);
            if d < front.len() {
                assert(tuples_of(dimensions)[i][d] == tuples_of(front)[k][d]);
                assert(front[d] == dimensions[d]);
            }
        }
        assert forall|i: int| 0 <= i < tuples_of(dimensions).len() implies (
        #[trigger] tuples_of(dimensions)[i]).len() == dimensions.len() by {
            assert(lengthens(tuples_of(dimensions)[i], tuples_of(front), size));
            let (k, j) = choose|k: int, j: int|
                0 <= k < tuples_of(front).len() && 1 <= j <= size && tuples_of(dimensions)[i]
                    == #[trigger] tuples_of(front)[k].push(j as i64);
            assert(tuples_of(front)[k].len() == front.len());
        }
    }
}

/// A copy of a list of subscripts.
pub fn same_indices(from: &Vec<i64>) -> (r: Vec<i64>)
    ensures
        r@ == from@,
{
    let mut out: Vec<i64> = Vec::new();
    let mut i: usize = 0;
    while i < from.len()
        invariant
            i <= from.len(),
            out@ == from@.take(i as int),
        decreases from.len() - i,
    {
        out.push(from[i]);
        assert(out@ =~= from@.take(i + 1));
        i = i + 1;
    }
    assert(from@.take(i as int) =~= from@);
    out
}

/// Every index tuple of an array with the given dimensions, in row-major
/// order: `[2, 3]` yields (1,1), (1,2), (1,3), (2,1), ...
pub fn index_tuples(dimensions: &Vec<i64>) -> (r: Vec<Vec<i64>>)
    ensures
        r.deep_view() == tuples_of(dimensions@),
{
    let mut out: Vec<Vec<i64>> = Vec::new();
    out.push(Vec::new());
    assert(out@[0].deep_view() =~= Seq::<i64>::empty());
    assert(out.deep_view() =~= tuples_of(dimensions@.take(0)));
    let mut d: usize = 0;
    while d < dimensions.len()
        invariant
            d <= dimensions.len(),
            out.deep_view() == tuples_of(dimensions@.take(d as int)),
        decreases dimensions.len() - d,
    {
        let size: i64 = dimensions[d];
        let ghost before = out.deep_view();
        let mut next: Vec<Vec<i64>> = Vec::new();
        let mut k: usize = 0;
        assert(next.deep_view() =~= all_lengthened(before.take(0), size as int));
        while k < out.len()
            invariant
                k <= out.len(),
                before == out.deep_view(),
                next.deep_view() == all_lengthened(before.take(k as int), size as int),
            decreases out.len() - k,
        {
            let ghost made = next.deep_view();
            let mut j: i64 = 0;
            assert(next.deep_view() =~= made + lengthened(before[k as int], 0));
            while j < size
                invariant
                    k < out.len(),
                    before == out.deep_view(),
                    0 <= j,
                    j <= size || j == 0,
                    next.deep_view() == made + lengthened(before[k as int], j as int),
                decreases size - j,
            {
                j = j + 1;
                let ghost now = next.deep_view();
                let mut one = same_indices(&out[k]);
                one.push(j);
                next.push(one);
                assert(one.deep_view() =~= one@);
                assert(out@[k as int].deep_view() =~= out@[k as int]@);
                assert(next.deep_view() =~= now.push(before[k as int].push(j)));
                assert(next.deep_view() =~= made + lengthened(before[k as int], j as int));
            }
            proof {
                assert(before.take(k + 1).drop_last() =~= before.take(k as int));
                assert(lengthened(before[k as int], size as int) == lengthened(
                    before[k as int],
                    j as int,
                ));
            }
            k = k + 1;
        }
        assert(before.take(k as int) =~= before);
        assert(dimensions@.take(d + 1).drop_last() =~= dimensions@.take(d as int));
        out = next;
        d = d + 1;
    }
    assert(dimensions@.take(d as int) =~= dimensions@);
    out
}

/// One element of a list written in full, a dimension at a time.
pub open spec fn picked(items: Seq<ExprV>, indices: Seq<i64>) -> Option<ExprV>
    decreases indices.len(),
{
    if indices.len() == 0 {
        None
    } else {
        let at = indices[0] - 1;
        if 0 <= at < items.len() {
            if indices.len() == 1 {
                Some(items[at])
            } else {
                match items[at] {
                    ExprV::Array(inner) => picked(inner, indices.drop_first()),
                    _ => None,
                }
            }
        } else {
            None
        }
    }
}

/// Pick one element out of a list written in full: `{1, 2, 3}[2]`.
pub fn pick_from_list(items: &Vec<Expr>, indices: &Vec<i64>) -> (r: Option<Expr>)
    ensures
        r.deep_view() == picked(items.deep_view(), indices@),
{
    let mut here: &Vec<Expr> = items;
    let mut i: usize = 0;
    assert(indices@.skip(0) =~= indices@);
    while i < indices.len()
        invariant
            i <= indices.len(),
            picked(items.deep_view(), indices@) == picked(
                here.deep_view(),
                indices@.skip(i as int),
            ),
        decreases indices.len() - i,
    {
        let ghost now = indices@.skip(i as int);
        assert(now[0] == indices@[i as int]);
        assert(now.drop_first() =~= indices@.skip(i + 1));
        let one: i64 = indices[i];
        if one < 1 || one as u64 > here.len() as u64 {
            return None;
        }
        let at: usize = (one - 1) as usize;
        assert(here.deep_view()[at as int] == here@[at as int].deep_view());
        if i + 1 == indices.len() {
            return Some(here[at].clone());
        }
        match &here[at] {
            Expr::Array(inner) => {
                proof {
                    lemma_views(*inner);
                }
                here = inner;
            },
            _ => {
                return None;
            },
        }
        i = i + 1;
    }
    None
}

/// What the level a reference is written at knows about names.
#[derive(Debug)]
pub struct Naming {
    /// The instance path of the class, with its separator.
    pub prefix: String,
    /// `outer` declarations, with the path of the instance each is bound to.
    pub outers: Table<String>,
    /// Constants that are names of the flat model already.
    pub minted: Vec<String>,
}

pub ghost struct NamingV {
    pub prefix: Seq<char>,
    pub outers: Map<Seq<char>, Seq<char>>,
    pub minted: Seq<Seq<char>>,
}

impl DeepView for Naming {
    type V = NamingV;

    open spec fn deep_view(&self) -> NamingV {
        NamingV {
            prefix: self.prefix@,
            outers: self.outers.deep_view(),
            minted: texts(self.minted@),
        }
    }
}

/// What the longest lead of the name that is bound makes of it, asked of the
/// lead `head` and of those it begins with.
pub open spec fn bound_from(
    name: Seq<char>,
    head: Seq<char>,
    outers: Map<Seq<char>, Seq<char>>,
) -> Option<Seq<char>>
    decreases head.len(),
{
    if outers.contains_key(head) {
        Some(outers[head] + name.skip(head.len() as int))
    } else {
        match cut_last(head, '.') {
            Some((shorter, _)) => {
                proof {
                    lemma_last_of(head, '.');
                }
                bound_from(name, shorter, outers)
            },
            None => None,
        }
    }
}

/// The flat name of a reference: an `outer` declaration points at the
/// instance it is bound to, everything else gets the instance prefix.
pub open spec fn flat_of(name: Seq<char>, naming: NamingV) -> Seq<char> {
    if naming.minted.contains(name) {
        name
    } else {
        match bound_from(name, name, naming.outers) {
            Some(path) => path,
            None => naming.prefix + name,
        }
    }
}

/// The flat name of a reference written inside a class.
pub fn flat_name(name: &str, naming: &Naming) -> (r: String)
    ensures
        r@ == flat_of(name@, naming.deep_view()),
{
    if holds(&naming.minted, name) {
        return name.to_owned();
    }
    let len: usize = name.unicode_len();
    let mut cut: usize = len;
    assert(name@.take(len as int) =~= name@);
    loop
        invariant
            cut <= len,
            len == name@.len(),
            !texts(naming.minted@).contains(name@),
            bound_from(name@, name@, naming.outers.deep_view()) == bound_from(
                name@,
                name@.take(cut as int),
                naming.outers.deep_view(),
            ),
        decreases cut,
    {
        let head = name.substring_char(0, cut);
        assert(head@ =~= name@.take(cut as int));
        if let Some(path) = naming.outers.get(head) {
            let rest = name.substring_char(cut, len);
            assert(rest@ =~= name@.skip(cut as int));
            return join2(path.as_str(), rest);
        }
        proof {
            lemma_last_of(head@, '.');
        }
        match find_last(head, '.') {
            Some(next) => {
                assert(head@.take(next as int) =~= name@.take(next as int));
                cut = next;
            },
            None => {
                return join2(naming.prefix.as_str(), name);
            },
        }
    }
}

/// The text without the dots it ends in.
pub open spec fn undotted(s: Seq<char>) -> Seq<char>
    decreases s.len(),
{
    if s.len() > 0 && s.last() == '.' {
        undotted(s.drop_last())
    } else {
        s
    }
}

/// The text without the dots it ends in.
pub fn without_dots(s: &str) -> (r: String)
    ensures
        r@ == undotted(s@),
{
    let mut cut: usize = s.unicode_len();
    assert(s@.take(cut as int) =~= s@);
    while cut > 0
        invariant
            cut <= s@.len(),
            undotted(s@) == undotted(s@.take(cut as int)),
        decreases cut,
    {
        if s.get_char(cut - 1) != '.' {
            let out = s.substring_char(0, cut);
            assert(out@ =~= s@.take(cut as int));
            return out.to_owned();
        }
        assert(s@.take(cut as int).drop_last() =~= s@.take(cut - 1));
        cut = cut - 1;
    }
    assert(s@.take(0) =~= Seq::empty());
    String::new()
}

/// [`prefixed`] of every child.
pub open spec fn prefixed_kids(e: ExprV, naming: NamingV, bound: Seq<Seq<char>>) -> Seq<ExprV>
    decreases e, 0int,
{
    proof {
        lemma_kids_smaller(e);
    }
    Seq::new(
        kids(e).len(),
        |i: int|
            if 0 <= i < kids(e).len() {
                prefixed(kids(e)[i], naming, bound)
            } else {
                e
            },
    )
}

/// The expression with every reference given its flat name, apart from those
/// an enclosing comprehension binds.
pub open spec fn prefixed(e: ExprV, naming: NamingV, bound: Seq<Seq<char>>) -> ExprV
    decreases e, 1int,
{
    proof {
        lemma_kids_smaller(e);
    }
    match e {
        ExprV::Ref(name) => if bound.contains(name) {
            e
        } else {
            ExprV::Ref(flat_of(name, naming))
        },
        ExprV::Comprehension(body, var, range) => ExprV::Comprehension(
            Box::new(prefixed(*body, naming, bound.push(var))),
            var,
            Box::new(prefixed(*range, naming, bound)),
        ),
        ExprV::WithDerivative(..) => e,
        _ => if is_call(e, "getInstanceName"@, 0) {
            ExprV::Call("getInstanceName"@, seq![ExprV::Str(undotted(naming.prefix))])
        } else {
            with_kids(
                e,
                prefixed_kids(e, naming, bound),
            )
        },
    }
}

/// As [`prefix_expr`], with the names an enclosing comprehension binds:
/// those belong to the iteration, not to the instance.
pub fn prefix_expr_under(expr: &Expr, naming: &Naming, bound: &Vec<String>) -> (r: Expr)
    ensures
        r.deep_view() == prefixed(expr.deep_view(), naming.deep_view(), texts(bound@)),
    decreases expr.deep_view(),
{
    match expr {
        Expr::Ref(name) => {
            if holds(bound, name.as_str()) {
                return expr.clone();
            }
            return Expr::Ref(flat_name(name.as_str(), naming));
        },
        Expr::Comprehension(body, var, range) => {
            let mut inner: Vec<String> = copied(bound);
            let ghost before = inner.deep_view();
            inner.push(var.clone());
            assert(inner.deep_view() =~= before.push(var@));
            assert(texts(inner@) =~= texts(bound@).push(var@)) by {
                assert(texts(inner@) =~= inner.deep_view());
                assert(texts(bound@) =~= bound.deep_view());
            }
            return Expr::Comprehension(
                Box::new(prefix_expr_under(body, naming, &inner)),
                var.clone(),
                Box::new(prefix_expr_under(range, naming, bound)),
            );
        },
        Expr::WithDerivative(..) => {
            return expr.clone();
        },
        Expr::Call(name, args) => {
            proof {
                lemma_views(*args);
            }
            if same(name.as_str(), "getInstanceName") && args.len() == 0 {
                let mut told: Vec<Expr> = Vec::new();
                told.push(Expr::Str(without_dots(naming.prefix.as_str())));
                assert(expr_views(told@) =~= seq![ExprV::Str(undotted(naming.prefix@))]);
                return Expr::Call(name.clone(), told);
            }
        },
        _ => {},
    }
    let ghost names = naming.deep_view();
    let ghost taken = texts(bound@);
    let ghost shape = expr.deep_view();
    let parts = expr.children();
    let mut new: Vec<Expr> = Vec::new();
    let mut i: usize = 0;
    proof {
        lemma_kids_smaller(shape);
    }
    while i < parts.len()
        invariant
            i <= parts.len(),
            shape == expr.deep_view(),
            parts.deep_view() == kids(shape),
            forall|k: int|
                0 <= k < kids(shape).len() ==> (#[trigger] decreases_to!(shape => kids(shape)[k])),
            new.len() == i,
            forall|k: int|
                0 <= k < i ==> (#[trigger] new@[k]).deep_view() == prefixed(kids(shape)[k], names, taken),
            names == naming.deep_view(),
            taken == texts(bound@),
        decreases parts.len() - i,
    {
        assert(parts.deep_view()[i as int] == parts@[i as int].deep_view());
        assert(decreases_to!(shape => kids(shape)[i as int]));
        let part: &Expr = parts[i];
        new.push(prefix_expr_under(part, naming, bound));
        i = i + 1;
    }
    assert(new.deep_view() =~= prefixed_kids(shape, names, taken));
    expr.with_children(new)
}

/// The expression as [`prefix_expr`] leaves it.
pub open spec fn prefixed_whole(e: ExprV, naming: NamingV) -> ExprV {
    if naming.prefix.len() == 0 && naming.outers == Map::<Seq<char>, Seq<char>>::empty() {
        e
    } else {
        prefixed(e, naming, Seq::empty())
    }
}

/// Prefix every component reference in an expression, resolving `outer`
/// references to the instance that owns them.
pub fn prefix_expr(expr: &Expr, naming: &Naming) -> (r: Expr)
    ensures
        r.deep_view() == prefixed_whole(expr.deep_view(), naming.deep_view()),
{
    if naming.prefix.as_str().unicode_len() == 0 && naming.outers.is_empty() {
        return expr.clone();
    }
    let none: Vec<String> = Vec::new();
    assert(texts(none@) =~= Seq::empty());
    prefix_expr_under(expr, naming, &none)
}

/// [`substituted`] of every child.
pub open spec fn substituted_kids(e: ExprV, map: Map<Seq<char>, ExprV>) -> Seq<ExprV>
    decreases e, 0int,
{
    proof {
        lemma_kids_smaller(e);
    }
    Seq::new(
        kids(e).len(),
        |i: int|
            if 0 <= i < kids(e).len() {
                substituted(kids(e)[i], map)
            } else {
                e
            },
    )
}

/// The expression with every reference the map speaks for replaced by what
/// the map says.
pub open spec fn substituted(e: ExprV, map: Map<Seq<char>, ExprV>) -> ExprV
    decreases e, 1int,
{
    proof {
        lemma_kids_smaller(e);
    }
    match e {
        ExprV::Ref(name) => if map.contains_key(name) {
            map[name]
        } else {
            e
        },
        _ => with_kids(
            e,
            substituted_kids(e, map),
        ),
    }
}

/// Replace references according to a substitution map.
pub fn substitute_refs(expr: &Expr, map: &Table<Expr>) -> (r: Expr)
    ensures
        r.deep_view() == substituted(expr.deep_view(), map.deep_view()),
    decreases expr.deep_view(),
{
    if let Expr::Ref(name) = expr {
        return match map.get(name.as_str()) {
            Some(value) => value.clone(),
            None => expr.clone(),
        };
    }
    let ghost held = map.deep_view();
    let ghost shape = expr.deep_view();
    let parts = expr.children();
    let mut new: Vec<Expr> = Vec::new();
    let mut i: usize = 0;
    proof {
        lemma_kids_smaller(shape);
    }
    while i < parts.len()
        invariant
            i <= parts.len(),
            shape == expr.deep_view(),
            parts.deep_view() == kids(shape),
            forall|k: int|
                0 <= k < kids(shape).len() ==> (#[trigger] decreases_to!(shape => kids(shape)[k])),
            new.len() == i,
            forall|k: int|
                0 <= k < i ==> (#[trigger] new@[k]).deep_view() == substituted(kids(shape)[k], held),
            held == map.deep_view(),
        decreases parts.len() - i,
    {
        assert(parts.deep_view()[i as int] == parts@[i as int].deep_view());
        assert(decreases_to!(shape => kids(shape)[i as int]));
        let part: &Expr = parts[i];
        new.push(substitute_refs(part, map));
        i = i + 1;
    }
    assert(new.deep_view() =~= substituted_kids(shape, held));
    expr.with_children(new)
}

/// Substituting nothing changes nothing.
pub proof fn law_nothing_substituted(e: ExprV)
    ensures
        substituted(e, Map::empty()) == e,
    decreases e,
{
    lemma_kids_smaller(e);
    let new = substituted_kids(e, Map::empty());
    assert forall|i: int| 0 <= i < kids(e).len() implies #[trigger] new[i] == kids(e)[i] by {
        assert(decreases_to!(e => kids(e)[i]));
        law_nothing_substituted(kids(e)[i]);
    }
    assert(new =~= kids(e));
    crate::expr::law_rebuilding(e, new);
}

/// [`ended`] of every child.
pub open spec fn ended_kids(e: ExprV, length: Number) -> Seq<ExprV>
    decreases e, 0int,
{
    proof {
        lemma_kids_smaller(e);
    }
    Seq::new(
        kids(e).len(),
        |i: int|
            if 0 <= i < kids(e).len() {
                ended(kids(e)[i], length)
            } else {
                e
            },
    )
}

/// The expression with `end` replaced by a length, as deep as arithmetic and
/// ranges go.
pub open spec fn ended(e: ExprV, length: Number) -> ExprV
    decreases e, 1int,
{
    proof {
        lemma_kids_smaller(e);
    }
    match e {
        ExprV::EndSubscript => ExprV::Number(length),
        ExprV::Bin(..) | ExprV::Neg(_) | ExprV::Range(..) => with_kids(
            e,
            ended_kids(e, length),
        ),
        _ => e,
    }
}

/// Replace `end` inside a subscript with the dimension's length.
pub fn substitute_end(expr: &Expr, length: Number) -> (r: Expr)
    ensures
        r.deep_view() == ended(expr.deep_view(), length),
    decreases expr.deep_view(),
{
    match expr {
        Expr::EndSubscript => {
            return Expr::Number(length);
        },
        Expr::Bin(..) | Expr::Neg(_) | Expr::Range(..) => {},
        _ => {
            return expr.clone();
        },
    }
    let ghost shape = expr.deep_view();
    let parts = expr.children();
    let mut new: Vec<Expr> = Vec::new();
    let mut i: usize = 0;
    proof {
        lemma_kids_smaller(shape);
    }
    while i < parts.len()
        invariant
            i <= parts.len(),
            shape == expr.deep_view(),
            parts.deep_view() == kids(shape),
            forall|k: int|
                0 <= k < kids(shape).len() ==> (#[trigger] decreases_to!(shape => kids(shape)[k])),
            new.len() == i,
            forall|k: int|
                0 <= k < i ==> (#[trigger] new@[k]).deep_view() == ended(kids(shape)[k], length),
        decreases parts.len() - i,
    {
        assert(parts.deep_view()[i as int] == parts@[i as int].deep_view());
        assert(decreases_to!(shape => kids(shape)[i as int]));
        let part: &Expr = parts[i];
        new.push(substitute_end(part, length));
        i = i + 1;
    }
    assert(new.deep_view() =~= ended_kids(shape, length));
    expr.with_children(new)
}

}
