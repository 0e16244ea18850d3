//! The fields of a record: which of them a value is made of, what each is
//! called once the record is taken apart, and what one holds before anything
//! assigns it.
use crate::asked::{asked_under, scope_asked};
use crate::class::{Causality, ClassDef, ClassKind, Component, ComponentV, MAX_DEPTH};
use crate::expr::{lemma_views, Expr, ExprV};
use crate::folding::{const_eval, evaluated};
use crate::functions::{base_at, declared_by, find_base, function_components};
use crate::lookup::{class_named, find_class, lookup, meaning, Registry};
use crate::make;
use crate::number::{zero, Number};
use crate::sums::{is_steady, sums_of, Arith, Sums, SumsV};
use crate::table::Table;
use crate::text::{dot, dotted, head_of, holds, parts, same, split_all, texts, until_first};
use vstd::prelude::*;

verus! {

/// Every field a record holds, its bases' first, as the declarations they are.
/// A class's own declaration replaces an inherited one of the same name rather
/// than joining it.
pub fn record_components(registry: &Registry, class: &ClassDef, depth: usize) -> (r: Vec<Component>)
    ensures
        r.deep_view() == declared_by(registry@, *class, depth as nat),
{
    function_components(registry, class, depth)
}

/// The names of a class's own declarations.
pub open spec fn fields_written(class: ClassDef) -> Seq<Seq<char>> {
    Seq::new(class.components@.len(), |i: int| class.components@[i].name@)
}

/// The fields of a record class, in the order they were declared: only what
/// the class wrote for itself.
pub fn record_fields(class: &ClassDef) -> (r: Vec<String>)
    ensures
        texts(r@) == fields_written(*class),
{
    let mut out: Vec<String> = Vec::new();
    let mut i: usize = 0;
    while i < class.components.len()
        invariant
            i <= class.components.len(),
            out.len() == i,
            forall|k: int| 0 <= k < i ==> (#[trigger] out@[k])@ == class.components@[k].name@,
        decreases class.components.len() - i,
    {
        out.push(class.components[i].name.clone());
        i = i + 1;
    }
    assert(texts(out@) =~= fields_written(*class));
    out
}

/// A list of names with the first `n` of another that it does not have.
pub open spec fn joined_by(list: Seq<Seq<char>>, more: Seq<Seq<char>>, n: nat) -> Seq<Seq<char>>
    decreases n,
{
    if n == 0 || n > more.len() {
        list
    } else {
        let before = joined_by(list, more, (n - 1) as nat);
        if before.contains(more[n - 1]) {
            before
        } else {
            before.push(more[n - 1])
        }
    }
}

fn join_by(list: Vec<String>, more: &Vec<String>) -> (r: Vec<String>)
    ensures
        texts(r@) == joined_by(texts(list@), texts(more@), texts(more@).len()),
{
    let ghost start = texts(list@);
    let ghost mv = texts(more@);
    let mut out = list;
    let mut i: usize = 0;
    while i < more.len()
        invariant
            i <= more.len(),
            mv == texts(more@),
            texts(out@) == joined_by(start, mv, i as nat),
        decreases more.len() - i,
    {
        let ghost before = texts(out@);
        if !holds(&out, more[i].as_str()) {
            out.push(more[i].clone());
            assert(texts(out@) =~= before.push(mv[i as int]));
        }
        i = i + 1;
    }
    out
}

/// A list of names without one.
pub open spec fn without(list: Seq<Seq<char>>, name: Seq<char>) -> Seq<Seq<char>>
    decreases list.len(),
{
    if list.len() == 0 {
        Seq::empty()
    } else {
        let before = without(list.drop_last(), name);
        if list.last() == name {
            before
        } else {
            before.push(list.last())
        }
    }
}

fn drop_name(list: &Vec<String>, name: &str) -> (r: Vec<String>)
    ensures
        texts(r@) == without(texts(list@), name@),
{
    let ghost all = texts(list@);
    let mut out: Vec<String> = Vec::new();
    let mut i: usize = 0;
    assert(texts(out@) =~= without(all.take(0), name@));
    while i < list.len()
        invariant
            i <= list.len(),
            all == texts(list@),
            texts(out@) == without(all.take(i as int), name@),
        decreases list.len() - i,
    {
        let ghost before = texts(out@);
        assert(all.take(i + 1).drop_last() =~= all.take(i as int));
        if !same(list[i].as_str(), name) {
            out.push(list[i].clone());
            assert(texts(out@) =~= before.push(all[i as int]));
        }
        i = i + 1;
    }
    assert(all.take(i as int) =~= all);
    out
}

/// A list of fields with the first `n` of a class's own put in: one that the
/// list has already moves to its end.
pub open spec fn fields_put(list: Seq<Seq<char>>, class: ClassDef, n: nat) -> Seq<Seq<char>>
    decreases n,
{
    if n == 0 || n > class.components@.len() {
        list
    } else {
        let name = class.components@[n - 1].name@;
        without(fields_put(list, class, (n - 1) as nat), name).push(name)
    }
}

/// The fields of the first `n` bases of a record.
pub open spec fn fields_of_bases(
    classes: Seq<&ClassDef>,
    class: ClassDef,
    depth: nat,
    n: nat,
) -> Seq<Seq<char>>
    decreases MAX_DEPTH + 1 - depth, 0int, n,
{
    if n == 0 || n > class.extends@.len() || depth > MAX_DEPTH {
        Seq::empty()
    } else {
        let before = fields_of_bases(classes, class, depth, (n - 1) as nat);
        match base_at(classes, class, n - 1) {
            Some(base) => {
                let more = fields_of(classes, base, depth + 1);
                joined_by(before, more, more.len())
            },
            None => before,
        }
    }
}

/// The fields of a record class, those of every base first.
pub open spec fn fields_of(classes: Seq<&ClassDef>, class: ClassDef, depth: nat) -> Seq<Seq<char>>
    decreases MAX_DEPTH + 1 - depth, 1int, 0nat,
{
    if depth > MAX_DEPTH {
        Seq::empty()
    } else {
        fields_put(
            fields_of_bases(classes, class, depth, class.extends@.len()),
            class,
            class.components@.len(),
        )
    }
}

/// The fields of a record class, with the fields of every base first. A record
/// naming a field its base also names has one field, not two.
pub fn record_fields_of(registry: &Registry, class: &ClassDef, depth: usize) -> (r: Vec<String>)
    ensures
        texts(r@) == fields_of(registry@, *class, depth as nat),
    decreases MAX_DEPTH + 1 - depth,
{
    let mut out: Vec<String> = Vec::new();
    assert(texts(out@) =~= Seq::empty());
    if depth > MAX_DEPTH {
        return out;
    }
    let mut i: usize = 0;
    while i < class.extends.len()
        invariant
            i <= class.extends.len(),
            depth <= MAX_DEPTH,
            texts(out@) == fields_of_bases(registry@, *class, depth as nat, i as nat),
        decreases class.extends.len() - i,
    {
        if let Some(base) = find_base(registry, class, i) {
            let more = record_fields_of(registry, base, depth + 1);
            out = join_by(out, &more);
        }
        i = i + 1;
    }
    let ghost inherited = texts(out@);
    let mut i: usize = 0;
    while i < class.components.len()
        invariant
            i <= class.components.len(),
            texts(out@) == fields_put(inherited, *class, i as nat),
        decreases class.components.len() - i,
    {
        out = drop_name(&out, class.components[i].name.as_str());
        let ghost before = texts(out@);
        out.push(class.components[i].name.clone());
        assert(texts(out@) =~= before.push(class.components@[i as int].name@));
        i = i + 1;
    }
    out
}

/// A record has no field twice.
pub proof fn law_no_field_twice(classes: Seq<&ClassDef>, class: ClassDef, depth: nat)
    ensures
        fields_of(classes, class, depth).no_duplicates(),
    decreases MAX_DEPTH + 1 - depth,
{
    if depth <= MAX_DEPTH {
        lemma_bases_distinct(classes, class, depth, class.extends@.len());
        lemma_put_distinct(
            fields_of_bases(classes, class, depth, class.extends@.len()),
            class,
            class.components@.len(),
        );
    }
}

proof fn lemma_bases_distinct(classes: Seq<&ClassDef>, class: ClassDef, depth: nat, n: nat)
    ensures
        fields_of_bases(classes, class, depth, n).no_duplicates(),
    decreases n,
{
    if n > 0 && n <= class.extends@.len() && depth <= MAX_DEPTH {
        lemma_bases_distinct(classes, class, depth, (n - 1) as nat);
        let before = fields_of_bases(classes, class, depth, (n - 1) as nat);
        if let Some(base) = base_at(classes, class, n - 1) {
            let more = fields_of(classes, base, depth + 1);
            lemma_joined_distinct(before, more, more.len());
        }
    }
}

proof fn lemma_joined_distinct(list: Seq<Seq<char>>, more: Seq<Seq<char>>, n: nat)
    requires
        list.no_duplicates(),
    ensures
        joined_by(list, more, n).no_duplicates(),
    decreases n,
{
    if n > 0 && n <= more.len() {
        lemma_joined_distinct(list, more, (n - 1) as nat);
    }
}

proof fn lemma_put_distinct(list: Seq<Seq<char>>, class: ClassDef, n: nat)
    requires
        list.no_duplicates(),
    ensures
        fields_put(list, class, n).no_duplicates(),
    decreases n,
{
    if n > 0 && n <= class.components@.len() {
        lemma_put_distinct(list, class, (n - 1) as nat);
        lemma_without(fields_put(list, class, (n - 1) as nat), class.components@[n - 1].name@);
    }
}

proof fn lemma_without(list: Seq<Seq<char>>, name: Seq<char>)
    requires
        list.no_duplicates(),
    ensures
        without(list, name).no_duplicates(),
        !without(list, name).contains(name),
        forall|x: Seq<char>| #[trigger] without(list, name).contains(x) ==> list.contains(x),
    decreases list.len(),
{
    if list.len() > 0 {
        let front = list.drop_last();
        lemma_without(front, name);
        let before = without(front, name);
        assert forall|x: Seq<char>| #[trigger] without(list, name).contains(x) implies list.contains(
            x,
        ) by {
            if before.contains(x) {
                assert(front.contains(x));
                let k = choose|k: int| 0 <= k < front.len() && front[k] == x;
                assert(list[k] == x);
            } else {
                assert(x == list.last());
            }
        }
        if list.last() != name {
            if before.contains(list.last()) {
                assert(front.contains(list.last()));
                let k = choose|k: int| 0 <= k < front.len() && front[k] == list.last();
                assert(list[k] == list[list.len() - 1]);
            }
        }
    }
}

/// The class a function's input is of, asked under the name the body was
/// called by where that says something the class does not.
pub open spec fn input_class(
    classes: Seq<&ClassDef>,
    function: ClassDef,
    input: ComponentV,
    mark: Option<Seq<char>>,
) -> Option<ClassDef> {
    let under = scope_asked(function, mark);
    let plainly = meaning(classes, input.of_type, function.name@, function.imports.deep_view());
    if under == function.name@ {
        plainly
    } else {
        match meaning(classes, input.of_type, under, function.imports.deep_view()) {
            Some(of) => Some(of),
            None => plainly,
        }
    }
}

/// The fields of a record-typed argument of a function.
pub open spec fn input_fields(
    classes: Seq<&ClassDef>,
    function: ClassDef,
    input: ComponentV,
    mark: Option<Seq<char>>,
) -> Option<Seq<Seq<char>>> {
    match input_class(classes, function, input, mark) {
        Some(of) => if of.kind == ClassKind::Record {
            Some(fields_of(classes, of, 0))
        } else {
            None
        },
        None => None,
    }
}

/// The fields of a record-typed argument of a function, when it is one.
pub fn record_input_fields(
    registry: &Registry,
    function: &ClassDef,
    input: &Component,
    mark: &Option<String>,
) -> (r: Option<Vec<String>>)
    ensures
        match (r, input_fields(registry@, *function, input.deep_view(), mark.deep_view())) {
            (Some(found), Some(meant)) => texts(found@) == meant,
            (None, None) => true,
            _ => false,
        },
{
    let under = asked_under(function, mark);
    let plainly = lookup(
        registry,
        input.of_type.as_str(),
        function.name.as_str(),
        &function.imports,
    );
    let of = if same(under.as_str(), function.name.as_str()) {
        plainly
    } else {
        match lookup(registry, input.of_type.as_str(), under.as_str(), &function.imports) {
            Some(of) => Some(of),
            None => plainly,
        }
    };
    match of {
        Some(of) => if of.kind == ClassKind::Record {
            Some(record_fields_of(registry, of, 0))
        } else {
            None
        },
        None => None,
    }
}

/// The declarations of the record that a function's input is of, as the class
/// that wrote the function names it.
pub open spec fn input_record(
    classes: Seq<&ClassDef>,
    function: ClassDef,
    input: ComponentV,
) -> Seq<ComponentV> {
    match meaning(classes, input.of_type, function.name@, function.imports.deep_view()) {
        Some(of) => if of.kind == ClassKind::Record {
            declared_by(classes, of, 0)
        } else {
            Seq::empty()
        },
        None => Seq::empty(),
    }
}

fn find_input_record(registry: &Registry, function: &ClassDef, input: &Component) -> (r: Vec<
    Component,
>)
    ensures
        r.deep_view() == input_record(registry@, *function, input.deep_view()),
{
    let none: Vec<Component> = Vec::new();
    assert(none.deep_view() =~= Seq::empty());
    match lookup(
        registry,
        input.of_type.as_str(),
        function.name.as_str(),
        &function.imports,
    ) {
        Some(of) => if of.kind == ClassKind::Record {
            record_components(registry, of, 0)
        } else {
            none
        },
        None => none,
    }
}

/// What the first `n` of a list of dimensions come to.
pub open spec fn lengths_stated(list: Seq<ExprV>, v: SumsV, n: nat) -> Option<Seq<i64>>
    decreases n,
{
    if n == 0 || n > list.len() {
        Some(Seq::empty())
    } else {
        match (lengths_stated(list, v, (n - 1) as nat), evaluated(list[n - 1], Map::empty(), v)) {
            (Some(before), Some(length)) => Some(before.push(length.clipped() as i64)),
            _ => None,
        }
    }
}

proof fn lemma_stated_stop(list: Seq<ExprV>, v: SumsV, n: nat, all: nat)
    requires
        n <= all <= list.len(),
        lengths_stated(list, v, n) is None,
    ensures
        lengths_stated(list, v, all) is None,
    decreases all - n,
{
    if n < all {
        lemma_stated_stop(list, v, n, (all - 1) as nat);
    }
}

fn find_lengths<
    W: Fn(Arith, Number, Number) -> Number,
    O: Fn(&str, &Vec<Number>) -> Option<Vec<Number>>,
    N: Fn(&str) -> String,
>(sums: &Sums<W, O, N>, list: &Vec<Expr>) -> (r: Option<Vec<i64>>)
    requires
        is_steady(*sums),
    ensures
        r.deep_view() == lengths_stated(list.deep_view(), sums_of(*sums), list.deep_view().len()),
{
    let ghost lv = list.deep_view();
    let ghost v = sums_of(*sums);
    let none: Table<Number> = Table::new();
    let mut out: Vec<i64> = Vec::new();
    let mut i: usize = 0;
    assert(out@ =~= Seq::empty());
    assert(lv.len() == list@.len());
    while i < list.len()
        invariant
            i <= list.len(),
            is_steady(*sums),
            v == sums_of(*sums),
            lv == list.deep_view(),
            lv.len() == list@.len(),
            none.deep_view() == Map::<Seq<char>, Number>::empty(),
            lengths_stated(lv, v, i as nat) == Some(out@),
        decreases list.len() - i,
    {
        assert(lv[i as int] == list@[i as int].deep_view());
        match const_eval(&list[i], &none, sums) {
            Some(length) => {
                out.push(length.to_int());
            },
            None => {
                proof {
                    lemma_stated_stop(lv, v, (i + 1) as nat, lv.len());
                }
                return None;
            },
        }
        i = i + 1;
    }
    assert(out.deep_view() =~= out@);
    Some(out)
}

/// The fields among the first `n` that have dimensions, with the shape each
/// one turned out to have.
pub open spec fn shaped_among(list: Seq<ComponentV>, v: SumsV, n: nat) -> Seq<
    (Seq<char>, Seq<i64>),
>
    decreases n,
{
    if n == 0 || n > list.len() {
        Seq::empty()
    } else {
        let before = shaped_among(list, v, (n - 1) as nat);
        let field = list[n - 1];
        if field.dimensions.len() == 0 {
            before
        } else {
            match lengths_stated(field.dimensions, v, field.dimensions.len()) {
                Some(shape) => before.push((field.name, shape)),
                None => before,
            }
        }
    }
}

/// The fields of a record-typed argument that have dimensions, with the shape
/// each one turned out to have.
pub fn shaped_record_fields<
    W: Fn(Arith, Number, Number) -> Number,
    O: Fn(&str, &Vec<Number>) -> Option<Vec<Number>>,
    N: Fn(&str) -> String,
>(sums: &Sums<W, O, N>, registry: &Registry, function: &ClassDef, input: &Component) -> (r: Vec<
    (String, Vec<i64>),
>)
    requires
        is_steady(*sums),
    ensures
        ({
            let list = input_record(registry@, *function, input.deep_view());
            r.deep_view() == shaped_among(list, sums_of(*sums), list.len())
        }),
{
    let list = find_input_record(registry, function, input);
    let ghost lv = list.deep_view();
    let ghost v = sums_of(*sums);
    let mut out: Vec<(String, Vec<i64>)> = Vec::new();
    let mut i: usize = 0;
    assert(out.deep_view() =~= Seq::empty());
    while i < list.len()
        invariant
            i <= list.len(),
            is_steady(*sums),
            v == sums_of(*sums),
            lv == list.deep_view(),
            out.deep_view() == shaped_among(lv, v, i as nat),
        decreases list.len() - i,
    {
        let ghost before = out.deep_view();
        assert(lv[i as int] == list@[i as int].deep_view());
        let field = &list[i];
        assert(field.dimensions.deep_view().len() == field.dimensions@.len());
        if field.dimensions.len() > 0 {
            if let Some(shape) = find_lengths(sums, &field.dimensions) {
                let ghost sv = shape.deep_view();
                out.push((field.name.clone(), shape));
                assert(out.deep_view() =~= before.push((field.name@, sv)));
            }
        }
        i = i + 1;
    }
    assert(lv.len() == list@.len());
    out
}

/// The fields among the first `n` that are single values.
pub open spec fn single_among(list: Seq<ComponentV>, n: nat) -> Seq<Seq<char>>
    decreases n,
{
    if n == 0 || n > list.len() {
        Seq::empty()
    } else {
        let before = single_among(list, (n - 1) as nat);
        if list[n - 1].dimensions.len() == 0 {
            before.push(list[n - 1].name)
        } else {
            before
        }
    }
}

/// The fields of a record-typed argument that are single values.
pub fn scalar_record_fields(registry: &Registry, function: &ClassDef, input: &Component) -> (r: Vec<
    String,
>)
    ensures
        ({
            let list = input_record(registry@, *function, input.deep_view());
            texts(r@) == single_among(list, list.len())
        }),
{
    let list = find_input_record(registry, function, input);
    let ghost lv = list.deep_view();
    let mut out: Vec<String> = Vec::new();
    let mut i: usize = 0;
    assert(texts(out@) =~= Seq::empty());
    while i < list.len()
        invariant
            i <= list.len(),
            lv == list.deep_view(),
            texts(out@) == single_among(lv, i as nat),
        decreases list.len() - i,
    {
        let ghost before = texts(out@);
        assert(lv[i as int] == list@[i as int].deep_view());
        assert(list@[i as int].dimensions.deep_view().len() == list@[i as int].dimensions@.len());
        if list[i].dimensions.len() == 0 {
            out.push(list[i].name.clone());
            assert(texts(out@) =~= before.push(lv[i as int].name));
        }
        i = i + 1;
    }
    assert(lv.len() == list@.len());
    out
}

/// What kind of start a declaration has.
#[derive(Clone, Copy, Debug, PartialEq, Eq, Structural)]
pub enum Started {
    /// A `Real` or `Integer`, which starts at zero.
    Number,
    /// A `Boolean`, which starts at false.
    Boolean,
    /// A `String`, which starts empty.
    Text,
}

/// A type name followed until it is one of the language's own.
pub open spec fn start_kind(
    classes: Seq<&ClassDef>,
    of_type: Seq<char>,
    within: ClassDef,
    depth: nat,
) -> Option<Started>
    decreases MAX_DEPTH + 1 - depth,
{
    if depth > MAX_DEPTH {
        None
    } else if of_type == "Real"@ || of_type == "Integer"@ {
        Some(Started::Number)
    } else if of_type == "Boolean"@ {
        Some(Started::Boolean)
    } else if of_type == "String"@ {
        Some(Started::Text)
    } else {
        match meaning(classes, of_type, within.name@, within.imports.deep_view()) {
            None => None,
            Some(class) => if class.enumeration@.len() > 0 {
                Some(Started::Number)
            } else {
                match class.alias_of {
                    Some(alias) => start_kind(classes, alias.0@, class, depth + 1),
                    None => if class.extends@.len() > 0 {
                        start_kind(classes, class.extends@[0].base@, class, depth + 1)
                    } else {
                        None
                    },
                }
            },
        }
    }
}

/// A type name followed through its own bases until it is one of the
/// language's own: each next name is written where the type before it is
/// written, so that is where it is looked up from.
pub fn started_by(registry: &Registry, of_type: &str, within: &ClassDef, depth: usize) -> (r: Option<
    Started,
>)
    ensures
        r == start_kind(registry@, of_type@, *within, depth as nat),
    decreases MAX_DEPTH + 1 - depth,
{
    if depth > MAX_DEPTH {
        return None;
    }
    if same(of_type, "Real") || same(of_type, "Integer") {
        return Some(Started::Number);
    }
    if same(of_type, "Boolean") {
        return Some(Started::Boolean);
    }
    if same(of_type, "String") {
        return Some(Started::Text);
    }
    let class = match lookup(registry, of_type, within.name.as_str(), &within.imports) {
        Some(class) => class,
        None => {
            return None;
        },
    };
    if class.enumeration.len() > 0 {
        return Some(Started::Number);
    }
    match &class.alias_of {
        Some(alias) => started_by(registry, alias.0.as_str(), class, depth + 1),
        None => if class.extends.len() > 0 {
            started_by(registry, class.extends[0].base.as_str(), class, depth + 1)
        } else {
            None
        },
    }
}

/// The first declaration of a name.
pub open spec fn declared_as(list: Seq<Component>, name: Seq<char>) -> Option<Component>
    decreases list.len(),
{
    if list.len() == 0 {
        None
    } else if list[0].name@ == name {
        Some(list[0])
    } else {
        declared_as(list.drop_first(), name)
    }
}

fn find_declared<'c>(list: &'c Vec<Component>, name: &str) -> (r: Option<&'c Component>)
    ensures
        match (r, declared_as(list@, name@)) {
            (Some(found), Some(meant)) => *found == meant,
            (None, None) => true,
            _ => false,
        },
{
    let mut i: usize = 0;
    assert(list@.skip(0) =~= list@);
    while i < list.len()
        invariant
            i <= list.len(),
            declared_as(list@, name@) == declared_as(list@.skip(i as int), name@),
        decreases list.len() - i,
    {
        assert(list@.skip(i as int)[0] == list@[i as int]);
        assert(list@.skip(i as int).drop_first() =~= list@.skip(i + 1));
        if same(list[i].name.as_str(), name) {
            return Some(&list[i]);
        }
        i = i + 1;
    }
    assert(list@.skip(i as int) =~= Seq::empty());
    None
}

/// The start of what a path of fields leads to, from the `i`-th name on.
pub open spec fn path_kind(
    classes: Seq<&ClassDef>,
    of_type: Seq<char>,
    within: ClassDef,
    path: Seq<Seq<char>>,
    i: nat,
) -> Option<Started>
    decreases path.len() - i,
{
    if i >= path.len() {
        start_kind(classes, of_type, within, 0)
    } else {
        match meaning(classes, of_type, within.name@, within.imports.deep_view()) {
            None => None,
            Some(holding) => match declared_as(holding.components@, path[i as int]) {
                None => None,
                Some(field) => path_kind(classes, field.of_type@, holding, path, i + 1),
            },
        }
    }
}

fn find_path_kind(
    registry: &Registry,
    of_type: &str,
    within: &ClassDef,
    path: &Vec<String>,
    i: usize,
) -> (r: Option<Started>)
    ensures
        r == path_kind(registry@, of_type@, *within, texts(path@), i as nat),
    decreases path@.len() - i,
{
    if i >= path.len() {
        return started_by(registry, of_type, within, 0);
    }
    let holding = match lookup(registry, of_type, within.name.as_str(), &within.imports) {
        Some(holding) => holding,
        None => {
            return None;
        },
    };
    match find_declared(&holding.components, path[i].as_str()) {
        Some(field) => find_path_kind(registry, field.of_type.as_str(), holding, path, i + 1),
        None => None,
    }
}

/// What a start of a kind is written as.
pub open spec fn start_written(kind: Option<Started>) -> Option<ExprV> {
    match kind {
        Some(Started::Boolean) => Some(ExprV::Bool(false)),
        Some(Started::Number) => Some(ExprV::Number(zero())),
        Some(Started::Text) => Some(ExprV::Str(""@)),
        None => None,
    }
}

fn write_start(kind: Option<Started>) -> (r: Option<Expr>)
    ensures
        r.deep_view() == start_written(kind),
{
    match kind {
        Some(Started::Boolean) => Some(make::boolean(false)),
        Some(Started::Number) => Some(make::number(zero())),
        Some(Started::Text) => Some(Expr::Str("".to_owned())),
        None => None,
    }
}

/// The declaration that a name of a body, or a field of it, starts with: one
/// the body declares, no input and no array, and in a model only one that it
/// keeps to itself.
pub open spec fn starting_declaration(class: ClassDef, name: Seq<char>) -> Option<Component> {
    if class.kind != ClassKind::Function && class.kind != ClassKind::Model {
        None
    } else {
        match declared_as(class.components@, until_first(name, '.')) {
            None => None,
            Some(declared) => if declared.causality == Causality::Input
                || declared.dimensions@.len() > 0 || (class.kind == ClassKind::Model
                && !declared.protected) {
                None
            } else {
                Some(declared)
            },
        }
    }
}

/// The starts of the first `n` fields of a record held under a name.
pub open spec fn field_starts(
    classes: Seq<&ClassDef>,
    class: ClassDef,
    declared: Component,
    name: Seq<char>,
    record: ClassDef,
    n: nat,
) -> Option<Seq<ExprV>>
    decreases n,
{
    if n == 0 || n > record.components@.len() {
        Some(Seq::empty())
    } else {
        match (
            field_starts(classes, class, declared, name, record, (n - 1) as nat),
            field_start(classes, class, declared, dotted(name, record.components@[n - 1].name@)),
        ) {
            (Some(before), Some(start)) => Some(before.push(start)),
            _ => None,
        }
    }
}

/// The start of a field, followed by its path.
pub open spec fn field_start(
    classes: Seq<&ClassDef>,
    class: ClassDef,
    declared: Component,
    name: Seq<char>,
) -> Option<ExprV> {
    start_written(
        path_kind(classes, declared.of_type@, class, parts(name, '.'), 1),
    )
}

/// What a name of a body holds before anything assigns it.
pub open spec fn start_of(classes: Seq<&ClassDef>, name: Seq<char>, scope: Seq<char>) -> Option<
    ExprV,
> {
    match class_named(classes, scope) {
        None => None,
        Some(class) => match starting_declaration(class, name) {
            None => None,
            Some(declared) => if until_first(name, '.') != name {
                field_start(classes, class, declared, name)
            } else {
                match meaning(
                    classes,
                    declared.of_type@,
                    class.name@,
                    class.imports.deep_view(),
                ) {
                    Some(held) => if held.kind == ClassKind::Record {
                        match field_starts(
                            classes,
                            class,
                            declared,
                            name,
                            held,
                            held.components@.len(),
                        ) {
                            Some(fields) => Some(ExprV::Array(fields)),
                            None => None,
                        }
                    } else {
                        start_written(start_kind(classes, declared.of_type@, class, 0))
                    },
                    None => start_written(start_kind(classes, declared.of_type@, class, 0)),
                }
            },
        },
    }
}

fn find_field_start(
    registry: &Registry,
    class: &ClassDef,
    declared: &Component,
    name: &str,
) -> (r: Option<Expr>)
    ensures
        r.deep_view() == field_start(registry@, *class, *declared, name@),
{
    let path = split_all(name, '.');
    write_start(find_path_kind(registry, declared.of_type.as_str(), class, &path, 1))
}

proof fn lemma_fields_stop(
    classes: Seq<&ClassDef>,
    class: ClassDef,
    declared: Component,
    name: Seq<char>,
    record: ClassDef,
    n: nat,
    all: nat,
)
    requires
        n <= all <= record.components@.len(),
        field_starts(classes, class, declared, name, record, n) is None,
    ensures
        field_starts(classes, class, declared, name, record, all) is None,
    decreases all - n,
{
    if n < all {
        lemma_fields_stop(classes, class, declared, name, record, n, (all - 1) as nat);
    }
}

fn find_field_starts(
    registry: &Registry,
    class: &ClassDef,
    declared: &Component,
    name: &str,
    record: &ClassDef,
) -> (r: Option<Vec<Expr>>)
    ensures
        r.deep_view() == field_starts(
            registry@,
            *class,
            *declared,
            name@,
            *record,
            record.components@.len(),
        ),
{
    let mut out: Vec<Expr> = Vec::new();
    let mut i: usize = 0;
    assert(out.deep_view() =~= Seq::empty());
    while i < record.components.len()
        invariant
            i <= record.components.len(),
            field_starts(registry@, *class, *declared, name@, *record, i as nat) == Some(
                out.deep_view(),
            ),
        decreases record.components.len() - i,
    {
        let ghost before = out.deep_view();
        let full = dot(name, record.components[i].name.as_str());
        match find_field_start(registry, class, declared, full.as_str()) {
            Some(start) => {
                let ghost sv = start.deep_view();
                out.push(start);
                assert(out.deep_view() =~= before.push(sv));
            },
            None => {
                proof {
                    lemma_fields_stop(
                        registry@,
                        *class,
                        *declared,
                        name@,
                        *record,
                        (i + 1) as nat,
                        record.components@.len(),
                    );
                }
                return None;
            },
        }
        i = i + 1;
    }
    Some(out)
}

/// What a name of a function body holds before anything assigns it: an
/// unassigned local or output starts at its type's own start. A field of a
/// record starts where the field's own type starts, and a record named whole
/// starts as its fields do.
pub fn starts_at(registry: &Registry, name: &str, scope: &str) -> (r: Option<Expr>)
    ensures
        r.deep_view() == start_of(registry@, name@, scope@),
{
    let class = match find_class(registry, scope) {
        Some(class) => class,
        None => {
            return None;
        },
    };
    if class.kind != ClassKind::Function && class.kind != ClassKind::Model {
        return None;
    }
    let root = head_of(name, '.');
    let declared = match find_declared(&class.components, root.as_str()) {
        Some(declared) => declared,
        None => {
            return None;
        },
    };
    if declared.causality == Causality::Input || declared.dimensions.len() > 0 || (class.kind
        == ClassKind::Model && !declared.protected) {
        return None;
    }
    if !same(root.as_str(), name) {
        return find_field_start(registry, class, declared, name);
    }
    if let Some(held) = lookup(
        registry,
        declared.of_type.as_str(),
        class.name.as_str(),
        &class.imports,
    ) {
        if held.kind == ClassKind::Record {
            return match find_field_starts(registry, class, declared, name, held) {
                Some(fields) => {
                    proof {
                        lemma_views(fields);
                    }
                    Some(make::array(fields))
                },
                None => None,
            };
        }
    }
    write_start(started_by(registry, declared.of_type.as_str(), class, 0))
}

/// Whether a name is a working variable that a function declared for itself.
pub open spec fn is_working(classes: Seq<&ClassDef>, name: Seq<char>, scope: Seq<char>) -> bool {
    match class_named(classes, scope) {
        Some(class) => class.kind == ClassKind::Function && exists|i: int|
            0 <= i < class.components@.len() && (#[trigger] class.components@[i]).name@ == name
                && class.components@[i].protected && class.components@[i].causality
                == Causality::Acausal,
        None => false,
    }
}

/// Whether a name is a working variable the body declared for itself: not an
/// input, not an output, not something a caller ever sees.
pub fn is_a_protected_local(registry: &Registry, name: &str, scope: &str) -> (r: bool)
    ensures
        r == is_working(registry@, name@, scope@),
{
    let class = match find_class(registry, scope) {
        Some(class) => class,
        None => {
            return false;
        },
    };
    if class.kind != ClassKind::Function {
        return false;
    }
    let mut i: usize = 0;
    while i < class.components.len()
        invariant
            i <= class.components.len(),
            class_named(registry@, scope@) == Some(*class),
            class.kind == ClassKind::Function,
            forall|k: int|
                0 <= k < i ==> !((#[trigger] class.components@[k]).name@ == name@
                    && class.components@[k].protected && class.components@[k].causality
                    == Causality::Acausal),
        decreases class.components.len() - i,
    {
        if same(class.components[i].name.as_str(), name) && class.components[i].protected
            && class.components[i].causality == Causality::Acausal {
            assert(class.components@[i as int].name@ == name@);
            return true;
        }
        i = i + 1;
    }
    false
}

}
