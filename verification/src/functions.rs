//! What a function declares and what it runs, its bases read with it.
use crate::asked::{asked_under, scope_asked};
use crate::class::{
    Causality, ClassDef, Component, ComponentV, Statement, MAX_DEPTH,
};
use crate::expr::{lemma_views, Expr, ExprV};
use crate::inheritance::{inherited_class, inherited_of};
use crate::lookup::{is_it, lookup, meaning, Registry};
use crate::make;
use crate::names::{element_name, element_of};
use crate::table::Table;
use crate::text::{cut_last, same, split_last, texts};
use vstd::prelude::*;

verus! {

/// A list of declarations without those of a name.
pub open spec fn without_named(list: Seq<ComponentV>, name: Seq<char>) -> Seq<ComponentV>
    decreases list.len(),
{
    if list.len() == 0 {
        Seq::empty()
    } else if list.last().name == name {
        without_named(list.drop_last(), name)
    } else {
        without_named(list.drop_last(), name).push(list.last())
    }
}

fn drop_named(list: Vec<Component>, name: &str) -> (r: Vec<Component>)
    ensures
        r.deep_view() == without_named(list.deep_view(), name@),
{
    let ghost all = list.deep_view();
    let total: usize = list.len();
    let mut left = list;
    let mut out: Vec<Component> = Vec::new();
    let mut i: usize = 0;
    assert(left.deep_view() =~= all.skip(0));
    assert(out.deep_view() =~= without_named(all.take(0), name@));
    while left.len() > 0
        invariant
            all == list.deep_view(),
            all.len() == total,
            total == list@.len(),
            i + left@.len() == total,
            left.deep_view() == all.skip(i as int),
            out.deep_view() == without_named(all.take(i as int), name@),
        decreases left@.len(),
    {
        let ghost held = left.deep_view();
        let ghost raw = left@;
        let ghost before = out.deep_view();
        let one = left.remove(0);
        assert(one.deep_view() == held[0]);
        assert(left@ =~= raw.drop_first());
        assert(left.deep_view() =~= held.drop_first());
        assert(held.drop_first() =~= all.skip(i + 1));
        assert(held[0] == all[i as int]);
        assert(all.take(i + 1).drop_last() =~= all.take(i as int));
        if !same(one.name.as_str(), name) {
            let ghost ov = one.deep_view();
            out.push(one);
            assert(out.deep_view() =~= before.push(ov));
        }
        i = i + 1;
    }
    assert(all.take(i as int) =~= all);
    out
}

/// A list of declarations with the first `n` of a class put in: what the class
/// writes for itself replaces what it inherited of that name.
pub open spec fn put_over(list: Seq<ComponentV>, own: Seq<Component>, n: nat) -> Seq<ComponentV>
    decreases n,
{
    if n == 0 || n > own.len() {
        list
    } else {
        without_named(put_over(list, own, (n - 1) as nat), own[n - 1].name@).push(
            own[n - 1].deep_view(),
        )
    }
}

fn put_own(list: Vec<Component>, own: &Vec<Component>) -> (r: Vec<Component>)
    ensures
        r.deep_view() == put_over(list.deep_view(), own@, own@.len()),
{
    let ghost start = list.deep_view();
    let mut out = list;
    let mut i: usize = 0;
    while i < own.len()
        invariant
            i <= own.len(),
            start == list.deep_view(),
            out.deep_view() == put_over(start, own@, i as nat),
        decreases own.len() - i,
    {
        out = drop_named(out, own[i].name.as_str());
        let ghost before = out.deep_view();
        out.push(own[i].clone());
        assert(out.deep_view() =~= before.push(own@[i as int].deep_view()));
        i = i + 1;
    }
    out
}

/// The class that the `i`-th `extends` of a class names.
pub open spec fn base_at(classes: Seq<&ClassDef>, class: ClassDef, i: int) -> Option<ClassDef> {
    let extend = class.extends@[i];
    if extend.from_base {
        inherited_of(classes, class, extend.base@, 0)
    } else {
        meaning(classes, extend.base@, class.name@, class.imports.deep_view())
    }
}

pub fn find_base<'a>(registry: &Registry<'a>, class: &ClassDef, i: usize) -> (r: Option<&'a ClassDef>)
    requires
        i < class.extends@.len(),
    ensures
        is_it(r, base_at(registry@, *class, i as int)),
{
    let extend = &class.extends[i];
    if extend.from_base {
        inherited_class(registry, class, extend.base.as_str(), 0)
    } else {
        lookup(registry, extend.base.as_str(), class.name.as_str(), &class.imports)
    }
}

/// Every declaration of a function, its bases' first.
pub open spec fn declared_by(classes: Seq<&ClassDef>, class: ClassDef, depth: nat) -> Seq<ComponentV>
    decreases MAX_DEPTH + 1 - depth, 1int, 0nat,
{
    if depth > MAX_DEPTH {
        Seq::empty()
    } else {
        put_over(
            declared_by_bases(classes, class, depth, class.extends@.len()),
            class.components@,
            class.components@.len(),
        )
    }
}

/// What the first `n` bases of a function declare.
pub open spec fn declared_by_bases(
    classes: Seq<&ClassDef>,
    class: ClassDef,
    depth: nat,
    n: nat,
) -> Seq<ComponentV>
    decreases MAX_DEPTH + 1 - depth, 0int, n,
{
    if n == 0 || n > class.extends@.len() || depth > MAX_DEPTH {
        Seq::empty()
    } else {
        let before = declared_by_bases(classes, class, depth, (n - 1) as nat);
        match base_at(classes, class, n - 1) {
            Some(base) => before + declared_by(classes, base, depth + 1),
            None => before,
        }
    }
}

/// Every declaration of a function, its bases' first, since that is the order
/// the arguments are given in.
pub fn function_components(registry: &Registry, class: &ClassDef, depth: usize) -> (r: Vec<Component>)
    ensures
        r.deep_view() == declared_by(registry@, *class, depth as nat),
    decreases MAX_DEPTH + 1 - depth,
{
    let mut out: Vec<Component> = Vec::new();
    assert(out.deep_view() =~= Seq::empty());
    if depth > MAX_DEPTH {
        return out;
    }
    let mut i: usize = 0;
    while i < class.extends.len()
        invariant
            i <= class.extends.len(),
            depth <= MAX_DEPTH,
            out.deep_view() == declared_by_bases(registry@, *class, depth as nat, i as nat),
        decreases class.extends.len() - i,
    {
        let ghost before = out.deep_view();
        if let Some(base) = find_base(registry, class, i) {
            let mut more = function_components(registry, base, depth + 1);
            let ghost mv = more.deep_view();
            out.append(&mut more);
            assert(out.deep_view() =~= before + mv);
        }
        i = i + 1;
    }
    put_own(out, &class.components)
}

/// The base that the `i`-th `extends` of a class names, the enclosing class
/// answering first.
pub open spec fn nearest_base(classes: Seq<&ClassDef>, class: ClassDef, i: int) -> Option<ClassDef> {
    let extend = class.extends@[i];
    let found = match inherited_of(classes, class, extend.base@, 0) {
        Some(found) => Some(found),
        None => meaning(classes, extend.base@, class.name@, class.imports.deep_view()),
    };
    match found {
        Some(found) => if found.name@ != class.name@ {
            Some(found)
        } else {
            None
        },
        None => None,
    }
}

/// What a class and its bases declare, put over what is there already.
pub open spec fn gathered_over(
    classes: Seq<&ClassDef>,
    class: ClassDef,
    list: Seq<ComponentV>,
    depth: nat,
) -> Seq<ComponentV>
    decreases MAX_DEPTH + 1 - depth, 1int, 0nat,
{
    if depth > MAX_DEPTH {
        list
    } else {
        put_over(
            gathered_from_bases(classes, class, list, depth, class.extends@.len()),
            class.components@,
            class.components@.len(),
        )
    }
}

/// What the first `n` bases of a class declare, put over what is there
/// already.
pub open spec fn gathered_from_bases(
    classes: Seq<&ClassDef>,
    class: ClassDef,
    list: Seq<ComponentV>,
    depth: nat,
    n: nat,
) -> Seq<ComponentV>
    decreases MAX_DEPTH + 1 - depth, 0int, n,
{
    if n == 0 || n > class.extends@.len() || depth > MAX_DEPTH {
        list
    } else {
        let before = gathered_from_bases(classes, class, list, depth, (n - 1) as nat);
        match nearest_base(classes, class, n - 1) {
            Some(base) => gathered_over(classes, base, before, depth + 1),
            None => before,
        }
    }
}

fn gather_over(registry: &Registry, class: &ClassDef, list: Vec<Component>, depth: usize) -> (r: Vec<
    Component,
>)
    ensures
        r.deep_view() == gathered_over(registry@, *class, list.deep_view(), depth as nat),
    decreases MAX_DEPTH + 1 - depth,
{
    if depth > MAX_DEPTH {
        return list;
    }
    let ghost start = list.deep_view();
    let mut out = list;
    let mut i: usize = 0;
    while i < class.extends.len()
        invariant
            i <= class.extends.len(),
            depth <= MAX_DEPTH,
            start == list.deep_view(),
            out.deep_view() == gathered_from_bases(
                registry@,
                *class,
                start,
                depth as nat,
                i as nat,
            ),
        decreases class.extends.len() - i,
    {
        let extend = &class.extends[i];
        let found = match inherited_class(registry, class, extend.base.as_str(), 0) {
            Some(found) => Some(found),
            None => lookup(registry, extend.base.as_str(), class.name.as_str(), &class.imports),
        };
        if let Some(base) = found {
            if !same(base.name.as_str(), class.name.as_str()) {
                out = gather_over(registry, base, out, depth + 1);
            }
        }
        i = i + 1;
    }
    put_own(out, &class.components)
}

/// A function's declarations together with the ones it inherits. The bases
/// come first, in the order they are extended.
pub fn with_inherited_components(registry: &Registry, class: &ClassDef) -> (r: Vec<Component>)
    ensures
        r.deep_view() == gathered_over(registry@, *class, Seq::empty(), 0),
{
    let none: Vec<Component> = Vec::new();
    assert(none.deep_view() =~= Seq::empty());
    gather_over(registry, class, none, 0)
}

/// The names of the outputs of a list of declarations.
pub open spec fn output_names(list: Seq<ComponentV>) -> Seq<Seq<char>>
    decreases list.len(),
{
    if list.len() == 0 {
        Seq::empty()
    } else if list.last().causality == Causality::Output {
        output_names(list.drop_last()).push(list.last().name)
    } else {
        output_names(list.drop_last())
    }
}

/// The names a function answers with, in the order it declared them: what a
/// call left standing has to be indexed by.
pub fn declared_outputs(registry: &Registry, class: &ClassDef) -> (r: Vec<String>)
    ensures
        texts(r@) == output_names(gathered_over(registry@, *class, Seq::empty(), 0)),
{
    let list = with_inherited_components(registry, class);
    let ghost all = list.deep_view();
    let mut out: Vec<String> = Vec::new();
    let mut i: usize = 0;
    assert(texts(out@) =~= output_names(all.take(0)));
    while i < list.len()
        invariant
            i <= list.len(),
            all == list.deep_view(),
            texts(out@) == output_names(all.take(i as int)),
        decreases list.len() - i,
    {
        let ghost before = texts(out@);
        assert(all.take(i + 1).drop_last() =~= all.take(i as int));
        assert(all[i as int] == list@[i as int].deep_view());
        if list[i].causality == Causality::Output {
            out.push(list[i].name.clone());
            assert(texts(out@) =~= before.push(all[i as int].name));
        }
        i = i + 1;
    }
    assert(all.take(i as int) =~= all);
    out
}

/// The class of a body's own name under the scope it was asked under, where it
/// was left for another to write.
pub open spec fn written_by_another(
    classes: Seq<&ClassDef>,
    class: ClassDef,
    mark: Option<Seq<char>>,
    depth: nat,
) -> Option<ClassDef> {
    if class.algorithm@.len() == 0 && class.partial && depth == 0 && scope_asked(class, mark)
        != class.name@ {
        match cut_last(class.name@, '.') {
            Some((_, tail)) => match meaning(
                classes,
                tail,
                scope_asked(class, mark),
                class.imports.deep_view(),
            ) {
                Some(theirs) => if theirs.name@ != class.name@ {
                    Some(theirs)
                } else {
                    None
                },
                None => None,
            },
            None => None,
        }
    } else {
        None
    }
}

/// The body a function runs: its own, or the one it inherited.
pub open spec fn body_of(
    classes: Seq<&ClassDef>,
    class: ClassDef,
    mark: Option<Seq<char>>,
    depth: nat,
) -> Seq<Statement>
    decreases MAX_DEPTH + 2 - depth, 1int, 0nat,
{
    let theirs = match written_by_another(classes, class, mark, depth) {
        Some(theirs) => if depth <= MAX_DEPTH {
            body_of(classes, theirs, mark, depth + 1)
        } else {
            Seq::empty()
        },
        None => Seq::empty(),
    };
    if theirs.len() > 0 {
        theirs
    } else if class.algorithm@.len() > 0 || depth > MAX_DEPTH {
        class.algorithm@
    } else {
        body_from_bases(classes, class, mark, depth, 0)
    }
}

/// The first body among the bases from the `i`-th on.
pub open spec fn body_from_bases(
    classes: Seq<&ClassDef>,
    class: ClassDef,
    mark: Option<Seq<char>>,
    depth: nat,
    i: nat,
) -> Seq<Statement>
    decreases MAX_DEPTH + 2 - depth, 0int, class.extends@.len() - i,
{
    if i >= class.extends@.len() || depth > MAX_DEPTH {
        class.algorithm@
    } else {
        let body = match base_at(classes, class, i as int) {
            Some(base) => body_of(classes, base, mark, depth + 1),
            None => Seq::empty(),
        };
        if body.len() > 0 {
            body
        } else {
            body_from_bases(classes, class, mark, depth, i + 1)
        }
    }
}

/// The body a function runs. A class that writes an algorithm of its own means
/// that one; a class that writes none runs the first it inherits; and one left
/// for another to write is looked for in the class it was asked under.
pub fn function_body<'a>(
    registry: &Registry<'a>,
    class: &'a ClassDef,
    mark: &Option<String>,
    depth: usize,
) -> (r: &'a Vec<Statement>)
    ensures
        r@ == body_of(registry@, *class, mark.deep_view(), depth as nat),
    decreases MAX_DEPTH + 2 - depth,
{
    let ghost mv = mark.deep_view();
    if class.algorithm.len() == 0 && class.partial && depth == 0 {
        let under = asked_under(class, mark);
        if !same(under.as_str(), class.name.as_str()) {
            if let Some((_, tail)) = split_last(class.name.as_str(), '.') {
                if let Some(theirs) = lookup(
                    registry,
                    tail.as_str(),
                    under.as_str(),
                    &class.imports,
                ) {
                    if !same(theirs.name.as_str(), class.name.as_str()) {
                        let body = function_body(registry, theirs, mark, depth + 1);
                        if body.len() > 0 {
                            return body;
                        }
                    }
                }
            }
        }
    }
    if class.algorithm.len() > 0 || depth > MAX_DEPTH {
        return &class.algorithm;
    }
    let mut i: usize = 0;
    while i < class.extends.len()
        invariant
            i <= class.extends.len(),
            depth <= MAX_DEPTH,
            mv == mark.deep_view(),
            body_of(registry@, *class, mv, depth as nat) == body_from_bases(
                registry@,
                *class,
                mv,
                depth as nat,
                i as nat,
            ),
        decreases class.extends.len() - i,
    {
        if let Some(base) = find_base(registry, class, i) {
            let body = function_body(registry, base, mark, depth + 1);
            if body.len() > 0 {
                return body;
            }
        }
        i = i + 1;
    }
    &class.algorithm
}

/// Whether a row can be laid out beside a first one.
pub open spec fn fits_row(row: ExprV, first: ExprV) -> bool {
    match row {
        ExprV::Array(cells) => match first {
            ExprV::Array(others) => cells.len() == others.len() && forall|i: int|
                0 <= i < cells.len() ==> !(#[trigger] cells[i] is Array),
            _ => false,
        },
        _ => true,
    }
}

/// Whether rows can be laid out one after another.
pub open spec fn rows_fit(items: Seq<ExprV>) -> bool {
    forall|i: int| 0 <= i < items.len() ==> fits_row(#[trigger] items[i], items[0])
}

/// Whether the run can carry an argument: a number, a list of numbers, or rows
/// of equal length.
pub open spec fn is_carried(e: ExprV) -> bool {
    match e {
        ExprV::Array(items) => rows_fit(items),
        ExprV::MatrixRows(_) => false,
        ExprV::Range(_, _, _) => false,
        ExprV::Comprehension(_, _, _) => false,
        _ => true,
    }
}

fn does_fit(row: &Expr, first: &Expr) -> (r: bool)
    ensures
        r == fits_row(row.deep_view(), first.deep_view()),
{
    let cells = match row {
        Expr::Array(cells) => cells,
        _ => return true,
    };
    let others = match first {
        Expr::Array(others) => others,
        _ => return false,
    };
    proof {
        lemma_views(*cells);
        lemma_views(*others);
    }
    let ghost all = cells.deep_view();
    assert(all.len() == cells@.len());
    assert(others.deep_view().len() == others@.len());
    if cells.len() != others.len() {
        return false;
    }
    let mut i: usize = 0;
    while i < cells.len()
        invariant
            i <= cells.len(),
            all == cells.deep_view(),
            row.deep_view() == ExprV::Array(all),
            all.len() == cells@.len(),
            forall|k: int| 0 <= k < i ==> !(#[trigger] all[k] is Array),
        decreases cells.len() - i,
    {
        assert(all[i as int] == cells@[i as int].deep_view());
        if matches!(cells[i], Expr::Array(_)) {
            assert(all[i as int] is Array);
            return false;
        }
        i = i + 1;
    }
    true
}

fn can_carry(e: &Expr) -> (r: bool)
    ensures
        r == is_carried(e.deep_view()),
{
    match e {
        Expr::Array(items) => {
            proof {
                lemma_views(*items);
            }
            let ghost all = items.deep_view();
            assert(all.len() == items@.len());
            let mut i: usize = 0;
            while i < items.len()
                invariant
                    i <= items.len(),
                    all == items.deep_view(),
                    all.len() == items@.len(),
                    e.deep_view() == ExprV::Array(all),
                    forall|k: int| 0 <= k < i ==> fits_row(#[trigger] all[k], all[0]),
                decreases items.len() - i,
            {
                assert(all[i as int] == items@[i as int].deep_view());
                assert(all[0] == items@[0].deep_view());
                if !does_fit(&items[i], &items[0]) {
                    assert(!fits_row(all[i as int], all[0]));
                    assert(!rows_fit(all));
                    return false;
                }
                i = i + 1;
            }
            true
        },
        Expr::MatrixRows(_) => false,
        Expr::Range(_, _, _) => false,
        Expr::Comprehension(_, _, _) => false,
        _ => true,
    }
}

/// Whether the run can carry every argument of a call.
pub open spec fn are_carried(list: Seq<ExprV>) -> bool {
    forall|i: int| 0 <= i < list.len() ==> is_carried(#[trigger] list[i])
}

/// Whether a call left standing is one the run can actually make.
pub fn carried_by_the_run(arguments: &Vec<Expr>) -> (r: bool)
    ensures
        r == are_carried(arguments.deep_view()),
{
    let ghost all = arguments.deep_view();
    let mut i: usize = 0;
    while i < arguments.len()
        invariant
            i <= arguments.len(),
            all == arguments.deep_view(),
            forall|k: int| 0 <= k < i ==> is_carried(#[trigger] all[k]),
        decreases arguments.len() - i,
    {
        assert(all[i as int] == arguments@[i as int].deep_view());
        if !can_carry(&arguments[i]) {
            assert(!is_carried(all[i as int]));
            return false;
        }
        i = i + 1;
    }
    true
}

/// A table with every element of a value written out as a list, under the name
/// it is bound to: `e` bound to `{a, b}` also binds `e[1]` and `e[2]`.
pub open spec fn elements_put(
    map: Map<Seq<char>, ExprV>,
    name: Seq<char>,
    value: ExprV,
    so_far: Seq<i64>,
) -> Map<Seq<char>, ExprV>
    decreases value, 1int, 0nat,
{
    match value {
        ExprV::Array(items) => items_put(map, name, value, so_far, items.len()),
        _ => map.insert(element_of(name, so_far), value),
    }
}

/// The same for the first `n` items of a list.
pub open spec fn items_put(
    map: Map<Seq<char>, ExprV>,
    name: Seq<char>,
    value: ExprV,
    so_far: Seq<i64>,
    n: nat,
) -> Map<Seq<char>, ExprV>
    decreases value, 0int, n,
{
    match value {
        ExprV::Array(items) => if n == 0 || n > items.len() {
            map
        } else {
            elements_put(
                items_put(map, name, value, so_far, (n - 1) as nat),
                name,
                items[n - 1],
                so_far.push(n as i64),
            )
        },
        _ => map,
    }
}

/// Every element of a value written out as a list, under the name it is bound
/// to.
pub fn by_element(name: &str, value: &Expr, so_far: &mut Vec<i64>, out: &mut Table<Expr>)
    ensures
        final(out).deep_view() == elements_put(
            old(out).deep_view(),
            name@,
            value.deep_view(),
            old(so_far)@,
        ),
        final(so_far)@ == old(so_far)@,
    decreases value.deep_view(),
{
    let ghost shape = value.deep_view();
    let ghost was = out.deep_view();
    let ghost path = so_far@;
    match value {
        Expr::Array(items) => {
            proof {
                lemma_views(*items);
            }
            let ghost all = items.deep_view();
            let mut i: usize = 0;
            assert(all.len() == items@.len());
            while i < items.len()
                invariant
                    i <= items.len(),
                    shape == value.deep_view(),
                    shape == ExprV::Array(all),
                    all == items.deep_view(),
                    all.len() == items@.len(),
                    so_far@ == path,
                    out.deep_view() == items_put(was, name@, shape, path, i as nat),
                decreases items.len() - i,
            {
                assert(all[i as int] == items@[i as int].deep_view());
                assert(decreases_to!(shape => all[i as int]));
                let index: i64 = ((i as u64) + 1) as i64;
                assert(index == (i + 1) as nat as i64);
                so_far.push(index);
                by_element(name, &items[i], so_far, out);
                so_far.pop();
                assert(so_far@ =~= path);
                i = i + 1;
            }
        },
        one => {
            out.put(element_name(name, so_far), one.clone());
        },
    }
}

/// How many places a length makes.
pub open spec fn places(length: i64) -> nat {
    if length < 0 {
        0
    } else {
        length as nat
    }
}

/// A name of a given shape written out as the list of its elements.
pub open spec fn spread_as(name: Seq<char>, shape: Seq<i64>, so_far: Seq<i64>) -> ExprV
    decreases shape.len(),
{
    if shape.len() == 0 {
        ExprV::Ref(element_of(name, so_far))
    } else {
        ExprV::Array(
            Seq::new(
                places(shape[0]),
                |i: int| spread_as(name, shape.drop_first(), so_far.push((i + 1) as i64)),
            ),
        )
    }
}

/// A name of a given shape written out as the list of its elements, from the
/// `at`-th dimension on: written whole a matrix is a list of lists.
pub fn spread_out(name: &str, shape: &Vec<i64>, at: usize, so_far: &mut Vec<i64>) -> (r: Expr)
    requires
        at <= shape@.len(),
    ensures
        r.deep_view() == spread_as(name@, shape@.skip(at as int), old(so_far)@),
        final(so_far)@ == old(so_far)@,
    decreases shape@.len() - at,
{
    let ghost path = so_far@;
    let ghost here = shape@.skip(at as int);
    if at == shape.len() {
        return make::name(element_name(name, so_far));
    }
    let total: usize = shape.len();
    let length: i64 = shape[at];
    assert(here[0] == length);
    assert(here.drop_first() =~= shape@.skip(at + 1));
    let ghost whole = Seq::new(
        places(length),
        |i: int| spread_as(name@, here.drop_first(), path.push((i + 1) as i64)),
    );
    let mut items: Vec<Expr> = Vec::new();
    let mut i: i64 = 0;
    assert(items.deep_view() =~= whole.take(0));
    while i < length
        invariant
            0 <= i <= places(length),
            at < total,
            total == shape@.len(),
            here.drop_first() == shape@.skip(at + 1),
            so_far@ == path,
            whole == Seq::new(
                places(length),
                |i: int| spread_as(name@, here.drop_first(), path.push((i + 1) as i64)),
            ),
            items.deep_view() == whole.take(i as int),
        decreases length - i,
    {
        let ghost before = items.deep_view();
        so_far.push(i + 1);
        let one = spread_out(name, shape, at + 1, so_far);
        assert(one.deep_view() == whole[i as int]);
        so_far.pop();
        assert(so_far@ =~= path);
        items.push(one);
        assert(items.deep_view() =~= before.push(whole[i as int]));
        assert(before.push(whole[i as int]) =~= whole.take(i + 1));
        i = i + 1;
    }
    assert(whole.take(i as int) =~= whole);
    assert(spread_as(name@, here, path)->Array_0 =~= whole);
    make::array(items)
}

}
