//! What a constant of a class is worth, where the name of one is written
//! somewhere that has to know: a dimension, a condition, a loop bound.
//!
//! A constant may be declared in the class, in a package around it, or brought
//! in by an import, and the value may be a number, an array, or a name for
//! another constant.
use crate::asked::{asked_as_package, function_asked_under, function_meant, package_asked};
use crate::class::{ClassDef, ClassKind, Variability, MAX_DEPTH, WILDCARD_IMPORT};
use crate::expr::{kids, lemma_kids_smaller, lemma_views, with_kids, Expr, ExprV};
use crate::folding::{const_eval, evaluated, Worths};
use crate::inheritance::{base_of, find_base_of};
use crate::instantiate::{find_own, has_dot, has_pair, is_fixed, own_value, ROUNDS};
use crate::lookup::{
    class_named, find_class, find_import, import_of, is_it, lookup, meaning, Pairs, Registry,
};
use crate::make;
use crate::number::{from_count, from_int, nearest, nearest_to, Number};
use crate::scoping::named_base;
use crate::shapes::{array_length, length_looked_at};
use crate::sums::{is_steady, sums_of, Arith, Sums, SumsV};
use crate::table::Table;
use crate::text::{cut_last, dot, dotted, holds, lemma_last_of, same, split_last, texts};
use vstd::prelude::*;

verus! {

/// How far a constant may reach through others before this gives up. A chain
/// of a few is ordinary; a longer one is a sign of a circle.
pub const MAX_CONSTANT_DEPTH: usize = 8;

/// A list of constants, each with its value where it has one.
pub type Constants = Seq<(Seq<char>, Option<ExprV>)>;

/// What settling a constant leans on: `inline` works a call of a function out,
/// where it can be.
pub struct Inliner<A1> {
    pub inline: A1,
    /// What they answer, mathematically.
    pub model: Ghost<InlinerV>,
}

/// The same, mathematically.
pub ghost struct InlinerV {
    pub inline: spec_fn(ClassDef, Seq<ExprV>, usize) -> Option<ExprV>,
}

/// Whether each of them may be asked anything, and answers as `m` says.
pub open spec fn inlines_true_to<
    A1: Fn(&ClassDef, &Vec<Expr>, usize) -> Option<Expr>,
>(
    inline: A1,
    m: InlinerV,
) -> bool {
    &&& forall|
        class: &ClassDef,
        args: &Vec<Expr>,
        depth: usize,
    | #[trigger] call_requires(inline, (class, args, depth))
    &&& forall|class: &ClassDef, args: &Vec<Expr>, depth: usize, r: Option<Expr>| #[trigger]
        call_ensures(
            inline,
            (class, args, depth),
            r,
        ) ==> r.deep_view() == (m.inline)(*class, args.deep_view(), depth)
}

/// Whether each of them may be asked anything, and answers as its model says.
pub open spec fn inlines_true<
    A1: Fn(&ClassDef, &Vec<Expr>, usize) -> Option<Expr>,
>(s: Inliner<A1>) -> bool {
    inlines_true_to(s.inline, s.model@)
}

/// What they answer, mathematically.
pub open spec fn inliner_of<
    A1: Fn(&ClassDef, &Vec<Expr>, usize) -> Option<Expr>,
>(s: Inliner<A1>) -> InlinerV {
    s.model@
}

impl<
    A1: Fn(&ClassDef, &Vec<Expr>, usize) -> Option<Expr>,
> Inliner<A1> {
    /// The bundle of such functions, where there is anything they answer at all.
    pub fn new(inline: A1) -> (r: Self)
        requires
            exists|m: InlinerV| #[trigger] inlines_true_to(inline, m),
        ensures
            inlines_true(r),
            r.inline == inline,
    {
        Inliner {
            inline,
            model: Ghost(choose|m: InlinerV| #[trigger] inlines_true_to(inline, m)),
        }
    }

    pub fn do_inline(&self, class: &ClassDef, args: &Vec<Expr>, depth: usize) -> (r: Option<Expr>)
        requires
            inlines_true(*self),
        ensures
            r.deep_view() == (inliner_of(*self).inline)(*class, args.deep_view(), depth),
    {
        let f = &self.inline;
        f(class, args, depth)
    }
}

/// What is known while a constant is settled.
#[derive(Debug)]
pub struct Knowing<'q, 'a> {
    pub registry: &'q Registry<'a>,
    /// The package a body was reached by, where that is known.
    pub mark: &'q Option<String>,
    /// Whether what is being settled is a parameter's value, where a number
    /// is the whole of what is wanted.
    pub settling: bool,
}

pub ghost struct KnowingV<'a> {
    pub h: InlinerV,
    pub v: SumsV,
    pub classes: Seq<&'a ClassDef>,
    pub mark: Option<Seq<char>>,
    pub settling: bool,
}

pub open spec fn knowing_of<'q, 'a,
    A1: Fn(&ClassDef, &Vec<Expr>, usize) -> Option<Expr>,
    W: Fn(Arith, Number, Number) -> Number,
    O: Fn(&str, &Vec<Number>) -> Option<Vec<Number>>,
    N: Fn(&str) -> String,
>(
    h: Inliner<A1>,
    sums: Sums<W, O, N>,
    q: Knowing<'q, 'a>,
) -> KnowingV<'a> {
    KnowingV {
        h: inliner_of(h),
        v: sums_of(sums),
        classes: q.registry@,
        mark: q.mark.deep_view(),
        settling: q.settling,
    }
}

/// How many more constants deep a question may go.
pub open spec fn room_left(depth: nat) -> nat {
    if depth > MAX_CONSTANT_DEPTH {
        0
    } else {
        (MAX_CONSTANT_DEPTH + 1 - depth) as nat
    }
}

/// One constant deeper; past the limit it makes no difference how far.
pub open spec fn deeper(depth: nat) -> nat {
    if depth > MAX_CONSTANT_DEPTH {
        depth
    } else {
        depth + 1
    }
}

fn go_deeper(depth: usize) -> (r: usize)
    ensures
        r == deeper(depth as nat),
{
    if depth > MAX_CONSTANT_DEPTH {
        depth
    } else {
        depth + 1
    }
}

/// The value of the first constant of a name.
pub open spec fn first_constant(list: Constants, name: Seq<char>) -> Option<Option<ExprV>>
    decreases list.len(),
{
    if list.len() == 0 {
        None
    } else if list[0].0 == name {
        Some(list[0].1)
    } else {
        first_constant(list.drop_first(), name)
    }
}

fn find_constant<'c>(list: &'c Vec<(String, Option<Expr>)>, name: &str) -> (r: Option<
    &'c Option<Expr>,
>)
    ensures
        match r {
            Some(value) => first_constant(list.deep_view(), name@) == Some(value.deep_view()),
            None => first_constant(list.deep_view(), name@) is None,
        },
{
    let ghost all = list.deep_view();
    let mut i: usize = 0;
    assert(all.skip(0) =~= all);
    while i < list.len()
        invariant
            i <= list.len(),
            all == list.deep_view(),
            first_constant(all, name@) == first_constant(all.skip(i as int), name@),
        decreases list.len() - i,
    {
        assert(all.skip(i as int)[0] == list@[i as int].deep_view());
        assert(all.skip(i as int).drop_first() =~= all.skip(i + 1));
        if same(list[i].0.as_str(), name) {
            return Some(&list[i].1);
        }
        i = i + 1;
    }
    assert(all.skip(i as int) =~= Seq::empty());
    None
}

/// A list of constants with the first of a name given a value; the list
/// itself where none has the name.
pub open spec fn constant_set(list: Constants, name: Seq<char>, value: ExprV) -> Constants
    decreases list.len(),
{
    if list.len() == 0 {
        list
    } else if list[0].0 == name {
        seq![(name, Some(value))] + list.drop_first()
    } else {
        seq![list[0]] + constant_set(list.drop_first(), name, value)
    }
}

fn set_constant(list: &mut Vec<(String, Option<Expr>)>, name: &str, value: &Expr)
    ensures
        final(list).deep_view() == constant_set(
            old(list).deep_view(),
            name@,
            value.deep_view(),
        ),
{
    let ghost all = list.deep_view();
    let ghost vv = value.deep_view();
    let mut i: usize = 0;
    assert(all.skip(0) =~= all);
    assert(all.take(0) + constant_set(all, name@, vv) =~= constant_set(all, name@, vv));
    while i < list.len()
        invariant
            i <= list.len(),
            all == list.deep_view(),
            all == old(list).deep_view(),
            vv == value.deep_view(),
            constant_set(all, name@, vv) == all.take(i as int) + constant_set(
                all.skip(i as int),
                name@,
                vv,
            ),
        decreases list.len() - i,
    {
        assert(all.skip(i as int)[0] == list@[i as int].deep_view());
        assert(all.skip(i as int).drop_first() =~= all.skip(i + 1));
        if same(list[i].0.as_str(), name) {
            assert(all.skip(i as int)[0].0 == name@);
            let kept = list[i].0.clone();
            list.set(i, (kept, Some(value.clone())));
            assert(list.deep_view() =~= all.take(i as int) + (seq![(name@, Some(vv))] + all.skip(
                i + 1,
            )));
            return;
        }
        assert(all.take(i + 1) =~= all.take(i as int) + seq![all[i as int]]);
        assert(all.take(i as int) + (seq![all[i as int]] + constant_set(
            all.skip(i + 1),
            name@,
            vv,
        )) =~= all.take(i + 1) + constant_set(all.skip(i + 1), name@, vv));
        i = i + 1;
    }
    assert(all.skip(i as int) =~= Seq::empty());
    assert(all.take(i as int) + Seq::<(Seq<char>, Option<ExprV>)>::empty() =~= all);
}

/// What the first `n` modifiers of an `extends` say about a base's constants.
pub open spec fn constants_modified(
    list: Constants,
    modifiers: Seq<(Seq<char>, ExprV)>,
    n: nat,
) -> Constants
    decreases n,
{
    if n == 0 || n > modifiers.len() {
        list
    } else {
        let before = constants_modified(list, modifiers, (n - 1) as nat);
        if modifiers[n - 1].0.contains('.') {
            before
        } else {
            constant_set(before, modifiers[n - 1].0, modifiers[n - 1].1)
        }
    }
}

fn modify_constants(list: &mut Vec<(String, Option<Expr>)>, modifiers: &Vec<(String, Expr)>)
    ensures
        final(list).deep_view() == constants_modified(
            old(list).deep_view(),
            modifiers.deep_view(),
            modifiers.deep_view().len(),
        ),
{
    let ghost mv = modifiers.deep_view();
    let ghost start = list.deep_view();
    let mut i: usize = 0;
    while i < modifiers.len()
        invariant
            i <= modifiers.len(),
            mv == modifiers.deep_view(),
            list.deep_view() == constants_modified(start, mv, i as nat),
        decreases modifiers.len() - i,
    {
        assert(mv[i as int] == modifiers@[i as int].deep_view());
        if !has_dot(modifiers[i].0.as_str()) {
            set_constant(list, modifiers[i].0.as_str(), &modifiers[i].1);
        }
        i = i + 1;
    }
    assert(mv.len() == modifiers@.len());
}

/// A list of constants with the first `n` declarations of a class put in: a
/// declaration outranks what was inherited, but only where it says something.
pub open spec fn constants_declared(class: ClassDef, start: Constants, n: nat) -> Constants
    decreases n,
{
    if n == 0 || n > class.components@.len() {
        start
    } else {
        let before = constants_declared(class, start, (n - 1) as nat);
        let c = class.components@[n - 1].deep_view();
        if is_fixed(c.variability) {
            match (first_constant(before, c.name), own_value(c.binding, c.start)) {
                (Some(_), Some(value)) => constant_set(before, c.name, value),
                (Some(_), None) => before,
                (None, value) => before.push((c.name, value)),
            }
        } else {
            before
        }
    }
}

/// A list of constants with those of the first `n` bases of a class put in.
pub open spec fn constants_inherited(
    classes: Seq<&ClassDef>,
    class: ClassDef,
    start: Constants,
    depth: nat,
    n: nat,
) -> Constants
    decreases MAX_DEPTH + 1 - depth, 0int, n,
{
    if n == 0 || n > class.extends@.len() || depth > MAX_DEPTH {
        start
    } else {
        let before = constants_inherited(classes, class, start, depth, (n - 1) as nat);
        match base_of(classes, class, n - 1) {
            Some(base) => {
                let modifiers = class.extends@[n - 1].modifiers.deep_view();
                constants_modified(
                    constants_of(classes, base, before, depth + 1),
                    modifiers,
                    modifiers.len(),
                )
            },
            None => before,
        }
    }
}

/// A list of constants with those of a package put in, its bases first.
pub open spec fn constants_of(
    classes: Seq<&ClassDef>,
    class: ClassDef,
    start: Constants,
    depth: nat,
) -> Constants
    decreases MAX_DEPTH + 1 - depth, 1int, 0nat,
{
    if depth > MAX_DEPTH {
        start
    } else {
        constants_declared(
            class,
            constants_inherited(classes, class, start, depth, class.extends@.len()),
            class.components@.len(),
        )
    }
}

/// The constants a package holds, its own and those it inherits.
pub open spec fn package_constants(classes: Seq<&ClassDef>, class: ClassDef) -> Constants {
    constants_of(classes, class, Seq::empty(), 0)
}

/// Gather the constants and parameters a package holds, its own and those it
/// inherits. Bases come first, so a class's own declaration overrides an
/// inherited one of the same name.
pub fn gather_package_constants(
    registry: &Registry,
    class: &ClassDef,
    depth: usize,
    out: &mut Vec<(String, Option<Expr>)>,
)
    ensures
        final(out).deep_view() == constants_of(
            registry@,
            *class,
            old(out).deep_view(),
            depth as nat,
        ),
    decreases MAX_DEPTH + 1 - depth,
{
    if depth > MAX_DEPTH {
        return;
    }
    let ghost start = out.deep_view();
    let mut i: usize = 0;
    while i < class.extends.len()
        invariant
            i <= class.extends.len(),
            depth <= MAX_DEPTH,
            out.deep_view() == constants_inherited(
                registry@,
                *class,
                start,
                depth as nat,
                i as nat,
            ),
        decreases class.extends.len() - i,
    {
        if let Some(base) = find_base_of(registry, class, i) {
            gather_package_constants(registry, base, depth + 1, out);
            modify_constants(out, &class.extends[i].modifiers);
        }
        i = i + 1;
    }
    let ghost inherited = out.deep_view();
    let mut i: usize = 0;
    while i < class.components.len()
        invariant
            i <= class.components.len(),
            out.deep_view() == constants_declared(*class, inherited, i as nat),
        decreases class.components.len() - i,
    {
        let ghost before = out.deep_view();
        let c = &class.components[i];
        if c.variability == Variability::Parameter || c.variability == Variability::Constant {
            let there = find_constant(out, c.name.as_str()).is_some();
            match find_own(c) {
                Some(value) => {
                    if there {
                        set_constant(out, c.name.as_str(), value);
                    } else {
                        out.push((c.name.clone(), Some(value.clone())));
                        assert(out.deep_view() =~= before.push(
                            (c.name@, Some(value.deep_view())),
                        ));
                    }
                },
                None => {
                    if !there {
                        out.push((c.name.clone(), None));
                        assert(out.deep_view() =~= before.push((c.name@, None)));
                    }
                },
            }
        }
        i = i + 1;
    }
}

fn list_constants(registry: &Registry, class: &ClassDef) -> (r: Vec<(String, Option<Expr>)>)
    ensures
        r.deep_view() == package_constants(registry@, *class),
{
    let mut out: Vec<(String, Option<Expr>)> = Vec::new();
    assert(out.deep_view() =~= Seq::empty());
    gather_package_constants(registry, class, 0, &mut out);
    out
}

/// The names and types of a list without those of a name.
pub open spec fn untyped(list: Pairs, name: Seq<char>) -> Pairs
    decreases list.len(),
{
    if list.len() == 0 {
        Seq::empty()
    } else {
        let before = untyped(list.drop_last(), name);
        if list.last().0 == name {
            before
        } else {
            before.push(list.last())
        }
    }
}

fn drop_typed(list: &Vec<(String, String)>, name: &str) -> (r: Vec<(String, String)>)
    ensures
        r.deep_view() == untyped(list.deep_view(), name@),
{
    let ghost all = list.deep_view();
    let mut out: Vec<(String, String)> = Vec::new();
    let mut i: usize = 0;
    assert(out.deep_view() =~= untyped(all.take(0), name@));
    while i < list.len()
        invariant
            i <= list.len(),
            all == list.deep_view(),
            out.deep_view() == untyped(all.take(i as int), name@),
        decreases list.len() - i,
    {
        let ghost before = out.deep_view();
        assert(all[i as int] == list@[i as int].deep_view());
        assert(all.take(i + 1).drop_last() =~= all.take(i as int));
        if !same(list[i].0.as_str(), name) {
            out.push((list[i].0.clone(), list[i].1.clone()));
            assert(out.deep_view() =~= before.push(all[i as int]));
        }
        i = i + 1;
    }
    assert(all.take(i as int) =~= all);
    out
}

/// The declared types with those of the first `n` declarations of a class.
pub open spec fn types_declared(class: ClassDef, start: Pairs, n: nat) -> Pairs
    decreases n,
{
    if n == 0 || n > class.components@.len() {
        start
    } else {
        let before = types_declared(class, start, (n - 1) as nat);
        let c = class.components@[n - 1];
        if is_fixed(c.variability) {
            untyped(before, c.name@).push((c.name@, c.of_type@))
        } else {
            before
        }
    }
}

/// The declared types with those of the first `n` bases of a class.
pub open spec fn types_inherited(
    classes: Seq<&ClassDef>,
    class: ClassDef,
    start: Pairs,
    depth: nat,
    n: nat,
) -> Pairs
    decreases MAX_DEPTH + 1 - depth, 0int, n,
{
    if n == 0 || n > class.extends@.len() || depth > MAX_DEPTH {
        start
    } else {
        let before = types_inherited(classes, class, start, depth, (n - 1) as nat);
        match named_base(classes, class, n - 1) {
            Some(base) => types_of(classes, base, before, depth + 1),
            None => before,
        }
    }
}

/// The declared type of every constant a package holds, its bases included.
pub open spec fn types_of(
    classes: Seq<&ClassDef>,
    class: ClassDef,
    start: Pairs,
    depth: nat,
) -> Pairs
    decreases MAX_DEPTH + 1 - depth, 1int, 0nat,
{
    if depth > MAX_DEPTH {
        start
    } else {
        types_declared(
            class,
            types_inherited(classes, class, start, depth, class.extends@.len()),
            class.components@.len(),
        )
    }
}

/// Gather the declared type of every constant a package holds, its bases
/// included.
pub fn gather_package_constant_types(
    registry: &Registry,
    class: &ClassDef,
    depth: usize,
    out: Vec<(String, String)>,
) -> (r: Vec<(String, String)>)
    ensures
        r.deep_view() == types_of(registry@, *class, out.deep_view(), depth as nat),
    decreases MAX_DEPTH + 1 - depth,
{
    if depth > MAX_DEPTH {
        return out;
    }
    let ghost start = out.deep_view();
    let mut now = out;
    let mut i: usize = 0;
    while i < class.extends.len()
        invariant
            i <= class.extends.len(),
            depth <= MAX_DEPTH,
            now.deep_view() == types_inherited(registry@, *class, start, depth as nat, i as nat),
        decreases class.extends.len() - i,
    {
        let found = lookup(
            registry,
            class.extends[i].base.as_str(),
            class.name.as_str(),
            &class.imports,
        );
        if let Some(base) = found {
            now = gather_package_constant_types(registry, base, depth + 1, now);
        }
        i = i + 1;
    }
    let ghost inherited = now.deep_view();
    let mut i: usize = 0;
    while i < class.components.len()
        invariant
            i <= class.components.len(),
            now.deep_view() == types_declared(*class, inherited, i as nat),
        decreases class.components.len() - i,
    {
        let c = &class.components[i];
        if c.variability == Variability::Parameter || c.variability == Variability::Constant {
            now = drop_typed(&now, c.name.as_str());
            let ghost before = now.deep_view();
            now.push((c.name.clone(), c.of_type.clone()));
            assert(now.deep_view() =~= before.push((c.name@, c.of_type@)));
        }
        i = i + 1;
    }
    now
}

/// Whether a class constant was declared Boolean.
pub open spec fn is_boolean_constant(
    classes: Seq<&ClassDef>,
    name: Seq<char>,
    scope: Seq<char>,
    imports: Pairs,
    depth: nat,
) -> bool {
    if depth > MAX_CONSTANT_DEPTH {
        false
    } else {
        match cut_last(name, '.') {
            None => false,
            Some((path, member)) => match meaning(classes, path, scope, imports) {
                None => false,
                Some(class) => types_of(classes, class, Seq::empty(), 0).contains(
                    (member, "Boolean"@),
                ),
            },
        }
    }
}

/// Whether a class constant was declared Boolean: its value travels as a
/// number, which a condition cannot use, and the declaration still says which
/// it was.
pub fn class_constant_is_boolean(
    registry: &Registry,
    name: &str,
    scope: &str,
    imports: &Vec<(String, String)>,
    depth: usize,
) -> (r: bool)
    ensures
        r == is_boolean_constant(registry@, name@, scope@, imports.deep_view(), depth as nat),
{
    if depth > MAX_CONSTANT_DEPTH {
        return false;
    }
    let (path, member) = match split_last(name, '.') {
        Some(cut) => cut,
        None => {
            return false;
        },
    };
    match lookup(registry, path.as_str(), scope, imports) {
        None => false,
        Some(class) => {
            let none: Vec<(String, String)> = Vec::new();
            assert(none.deep_view() =~= Seq::empty());
            let kinds = gather_package_constant_types(registry, class, 0, none);
            has_pair(&kinds, member.as_str(), "Boolean")
        },
    }
}

/// A constant's value in the shape its declaration gave it.
pub open spec fn in_kind(boolean: bool, value: Number) -> ExprV {
    if boolean {
        ExprV::Bool(!value.is_nought())
    } else {
        ExprV::Number(value)
    }
}

fn make_in_kind(boolean: bool, value: Number) -> (r: Expr)
    ensures
        r.deep_view() == in_kind(boolean, value),
{
    if boolean {
        make::boolean(!value.is_zero())
    } else {
        make::number(value)
    }
}

/// Whether a package that a scope is written inside declares the name Boolean.
pub open spec fn is_enclosing_boolean(
    classes: Seq<&ClassDef>,
    name: Seq<char>,
    at: Seq<char>,
    depth: nat,
) -> bool
    decreases at.len(),
{
    match cut_last(at, '.') {
        None => false,
        Some((outer, _)) => {
            proof {
                lemma_last_of(at, '.');
            }
            is_boolean_constant(classes, dotted(outer, name), outer, Seq::empty(), depth)
                || is_enclosing_boolean(classes, name, outer, depth)
        },
    }
}

fn find_enclosing_boolean(registry: &Registry, name: &str, at: &str, depth: usize) -> (r: bool)
    ensures
        r == is_enclosing_boolean(registry@, name@, at@, depth as nat),
    decreases at@.len(),
{
    match split_last(at, '.') {
        None => false,
        Some((outer, _)) => {
            proof {
                lemma_last_of(at@, '.');
            }
            let none: Vec<(String, String)> = Vec::new();
            assert(none.deep_view() =~= Seq::empty());
            let full = dot(outer.as_str(), name);
            class_constant_is_boolean(registry, full.as_str(), outer.as_str(), &none, depth)
                || find_enclosing_boolean(registry, name, outer.as_str(), depth)
        },
    }
}

/// A constant written as the length of another constant of the same package,
/// worked out.
pub open spec fn constant_measured(
    e: ExprV,
    constants: Constants,
    values: Worths,
    v: SumsV,
) -> Option<Number> {
    match e {
        ExprV::Call(called, args) => if called == "size"@ && args.len() == 2 {
            match (args[0], evaluated(args[1], values, v)) {
                (ExprV::Ref(named), Some(axis)) => if axis.counted() > 0 {
                    match first_constant(constants, named) {
                        Some(Some(held)) => match length_looked_at(
                            held,
                            (axis.counted() - 1) as nat,
                            v,
                        ) {
                            Some(length) => Some(nearest_to(length as int)),
                            None => None,
                        },
                        _ => None,
                    }
                } else {
                    None
                },
                _ => None,
            }
        } else {
            None
        },
        _ => None,
    }
}

/// A constant written as the length of another constant of the same package,
/// worked out: nothing else can answer that length, since the array is a
/// constant of a package rather than a declaration anywhere near what it
/// sizes.
pub fn measured_constant<
    W: Fn(Arith, Number, Number) -> Number,
    O: Fn(&str, &Vec<Number>) -> Option<Vec<Number>>,
    N: Fn(&str) -> String,
>(
    sums: &Sums<W, O, N>,
    expr: &Expr,
    constants: &Vec<(String, Option<Expr>)>,
    values: &Table<Number>,
) -> (r: Option<Number>)
    requires
        is_steady(*sums),
    ensures
        r == constant_measured(
            expr.deep_view(),
            constants.deep_view(),
            values.deep_view(),
            sums_of(*sums),
        ),
{
    if let Expr::Call(called, args) = expr {
        proof {
            lemma_views(*args);
        }
        assert(args.deep_view().len() == args@.len());
        if same(called.as_str(), "size") && args.len() == 2 {
            assert(args.deep_view()[0] == args@[0].deep_view());
            assert(args.deep_view()[1] == args@[1].deep_view());
            if let Expr::Ref(named) = &args[0] {
                if let Some(axis) = const_eval(&args[1], values, sums) {
                    let count: u64 = axis.to_count();
                    if count > 0 {
                        if let Some(Some(held)) = find_constant(constants, named.as_str()) {
                            return measure_held(sums, held, count - 1);
                        }
                    }
                }
            }
        }
    }
    None
}

fn measure_held<
    W: Fn(Arith, Number, Number) -> Number,
    O: Fn(&str, &Vec<Number>) -> Option<Vec<Number>>,
    N: Fn(&str) -> String,
>(sums: &Sums<W, O, N>, held: &Expr, axis: u64) -> (r: Option<Number>)
    requires
        is_steady(*sums),
    ensures
        r == (match length_looked_at(held.deep_view(), axis as nat, sums_of(*sums)) {
            Some(length) => Some(nearest_to(length as int)),
            None => None,
        }),
{
    if axis > usize::MAX as u64 {
        proof {
            if let Expr::Array(items) = held {
                lemma_views(*items);
            }
            if let Expr::Call(name, args) = held {
                lemma_views(*args);
                assert(args.deep_view().len() == args@.len());
                assert(args@.len() <= usize::MAX) by {
                    let n = args.len();
                }
            }
        }
        return None;
    }
    match array_length(sums, held, axis as usize) {
        Some(length) => Some(from_int(length)),
        None => None,
    }
}

/// What the first `n` constants of a list come to, and whether any is new.
pub open spec fn constants_asked(
    constants: Constants,
    start: Worths,
    v: SumsV,
    measuring: bool,
    n: nat,
) -> Worths
    decreases n,
{
    if n == 0 || n > constants.len() {
        start
    } else {
        let before = constants_asked(constants, start, v, measuring, (n - 1) as nat);
        let (name, value) = constants[n - 1];
        if before.contains_key(name) {
            before
        } else {
            match value {
                None => before,
                Some(e) => match evaluated(e, before, v) {
                    Some(worth) => before.insert(name, worth),
                    None => if measuring {
                        match constant_measured(e, constants, before, v) {
                            Some(worth) => before.insert(name, worth),
                            None => before,
                        }
                    } else {
                        before
                    },
                },
            }
        }
    }
}

/// What the constants of a list come to: one may build on another, so the
/// rounds run until nothing new comes of them.
pub open spec fn constants_worth(
    constants: Constants,
    start: Worths,
    v: SumsV,
    measuring: bool,
    rounds: nat,
) -> Worths
    decreases rounds,
{
    if rounds == 0 {
        start
    } else {
        let next = constants_asked(constants, start, v, measuring, constants.len());
        if next.dom() == start.dom() {
            next
        } else {
            constants_worth(constants, next, v, measuring, (rounds - 1) as nat)
        }
    }
}

/// Asking again adds names, and takes none away.
proof fn lemma_asked_grows(
    constants: Constants,
    start: Worths,
    v: SumsV,
    measuring: bool,
    n: nat,
)
    ensures
        start.dom().subset_of(constants_asked(constants, start, v, measuring, n).dom()),
    decreases n,
{
    if n > 0 && n <= constants.len() {
        lemma_asked_grows(constants, start, v, measuring, (n - 1) as nat);
    }
}

fn ask_constants<
    W: Fn(Arith, Number, Number) -> Number,
    O: Fn(&str, &Vec<Number>) -> Option<Vec<Number>>,
    N: Fn(&str) -> String,
>(
    sums: &Sums<W, O, N>,
    constants: &Vec<(String, Option<Expr>)>,
    measuring: bool,
    values: &mut Table<Number>,
) -> (moved: bool)
    requires
        is_steady(*sums),
    ensures
        final(values).deep_view() == constants_asked(
            constants.deep_view(),
            old(values).deep_view(),
            sums_of(*sums),
            measuring,
            constants.deep_view().len(),
        ),
        moved == (final(values).deep_view().dom() != old(values).deep_view().dom()),
{
    let ghost cv = constants.deep_view();
    let ghost v = sums_of(*sums);
    let ghost start = values.deep_view();
    let mut moved = false;
    let mut i: usize = 0;
    while i < constants.len()
        invariant
            i <= constants.len(),
            is_steady(*sums),
            v == sums_of(*sums),
            cv == constants.deep_view(),
            values.deep_view() == constants_asked(cv, start, v, measuring, i as nat),
            !moved ==> values.deep_view().dom() == start.dom(),
            moved ==> exists|name: Seq<char>|
                #[trigger] values.deep_view().contains_key(name) && !start.contains_key(name),
            start.dom().subset_of(values.deep_view().dom()),
        decreases constants.len() - i,
    {
        let ghost before = values.deep_view();
        assert(cv[i as int] == constants@[i as int].deep_view());
        proof {
            lemma_asked_grows(cv, start, v, measuring, (i + 1) as nat);
        }
        if !values.has(constants[i].0.as_str()) {
            if let Some(e) = &constants[i].1 {
                let worth = match const_eval(e, values, sums) {
                    Some(worth) => Some(worth),
                    None => if measuring {
                        measured_constant(sums, e, constants, values)
                    } else {
                        None
                    },
                };
                if let Some(worth) = worth {
                    let ghost name = constants@[i as int].0@;
                    values.put(constants[i].0.clone(), worth);
                    moved = true;
                    proof {
                        assert(!start.contains_key(name)) by {
                            if start.contains_key(name) {
                                assert(start.dom().contains(name));
                                assert(before.dom().contains(name));
                            }
                        }
                        assert(values.deep_view().contains_key(name));
                    }
                }
            }
        }
        i = i + 1;
    }
    assert(cv.len() == constants@.len());
    proof {
        if moved {
            let name = choose|name: Seq<char>|
                #[trigger] values.deep_view().contains_key(name) && !start.contains_key(name);
            assert(values.deep_view().dom().contains(name));
            assert(!start.dom().contains(name));
        }
    }
    moved
}

fn settle_constants<
    W: Fn(Arith, Number, Number) -> Number,
    O: Fn(&str, &Vec<Number>) -> Option<Vec<Number>>,
    N: Fn(&str) -> String,
>(
    sums: &Sums<W, O, N>,
    constants: &Vec<(String, Option<Expr>)>,
    measuring: bool,
) -> (r: Table<Number>)
    requires
        is_steady(*sums),
    ensures
        r.deep_view() == constants_worth(
            constants.deep_view(),
            Map::empty(),
            sums_of(*sums),
            measuring,
            ROUNDS as nat,
        ),
{
    let ghost cv = constants.deep_view();
    let ghost v = sums_of(*sums);
    let mut values: Table<Number> = Table::new();
    let mut rounds: u64 = ROUNDS;
    while rounds > 0
        invariant
            is_steady(*sums),
            v == sums_of(*sums),
            cv == constants.deep_view(),
            constants_worth(cv, Map::empty(), v, measuring, ROUNDS as nat) == constants_worth(
                cv,
                values.deep_view(),
                v,
                measuring,
                rounds as nat,
            ),
        decreases rounds,
    {
        if !ask_constants(sums, constants, measuring, &mut values) {
            return values;
        }
        rounds = rounds - 1;
    }
    values
}

/// The position of a literal in an enumeration.
pub open spec fn literal_at(list: Seq<String>, name: Seq<char>, i: nat) -> Option<nat>
    decreases list.len() - i,
{
    if i >= list.len() {
        None
    } else if list[i as int]@ == name {
        Some(i)
    } else {
        literal_at(list, name, i + 1)
    }
}

fn find_literal(list: &Vec<String>, name: &str) -> (r: Option<usize>)
    ensures
        match r {
            Some(at) => literal_at(list@, name@, 0) == Some(at as nat),
            None => literal_at(list@, name@, 0) is None,
        },
        r matches Some(at) ==> at < list@.len(),
{
    let mut i: usize = 0;
    while i < list.len()
        invariant
            i <= list.len(),
            literal_at(list@, name@, 0) == literal_at(list@, name@, i as nat),
        decreases list.len() - i,
    {
        if same(list[i].as_str(), name) {
            return Some(i);
        }
        i = i + 1;
    }
    None
}

/// Every value of a list of constants with the constants it names put in, read
/// in the package that holds it.
pub open spec fn constants_put(
    g: KnowingV,
    class: ClassDef,
    at: Seq<char>,
    constants: Constants,
    depth: nat,
) -> Constants
    decreases room_left(depth), at.len(), 7int, ExprV::Time, 0int,
{
    Seq::new(
        constants.len(),
        |i: int|
            (
                constants[i].0,
                match constants[i].1 {
                    Some(e) => Some(
                        substituted(
                            g,
                            e,
                            at,
                            class.imports.deep_view(),
                            Seq::empty(),
                            depth,
                            true,
                        ),
                    ),
                    None => None,
                },
            ),
    )
}

/// The value of a constant declared inside a class: `Constants.pi`.
pub open spec fn constant_at(
    g: KnowingV,
    name: Seq<char>,
    scope: Seq<char>,
    imports: Pairs,
    depth: nat,
) -> Option<Number>
    decreases room_left(depth), scope.len(), 0int, ExprV::Time, 0int,
{
    if depth > MAX_CONSTANT_DEPTH {
        None
    } else {
        match cut_last(name, '.') {
            None => None,
            Some((path, member)) => match meaning(g.classes, path, scope, imports) {
                None => None,
                Some(class) => match literal_at(class.enumeration@, member, 0) {
                    Some(at) => Some(nearest(at + 1)),
                    None => {
                        let constants = package_constants(g.classes, class);
                        if first_constant(constants, member) is None {
                            None
                        } else {
                            let values = constants_worth(
                                constants_put(g, class, class.name@, constants, deeper(depth)),
                                Map::empty(),
                                g.v,
                                true,
                                ROUNDS as nat,
                            );
                            if values.contains_key(member) {
                                Some(values[member])
                            } else {
                                None
                            }
                        }
                    },
                },
            },
        }
    }
}

/// Whether an expression builds a record by its own constructor.
pub open spec fn builds_record(classes: Seq<&ClassDef>, e: ExprV, class: ClassDef) -> bool {
    match e {
        ExprV::Call(built, _) => match meaning(
            classes,
            built,
            class.name@,
            class.imports.deep_view(),
        ) {
            Some(of) => of.kind == ClassKind::Record,
            None => false,
        },
        _ => false,
    }
}

/// What a constant is written as, where that is the name of another constant
/// of the same package: that one's value.
pub open spec fn through_name(constants: Constants, e: ExprV) -> ExprV {
    match e {
        ExprV::Ref(other) => match first_constant(constants, other) {
            Some(Some(held)) => held,
            _ => e,
        },
        _ => e,
    }
}

/// A class constant that is an array, or a record built by its constructor,
/// rather than a number.
pub open spec fn constant_array_at(
    g: KnowingV,
    name: Seq<char>,
    scope: Seq<char>,
    imports: Pairs,
    depth: nat,
) -> Option<ExprV>
    decreases room_left(depth), scope.len(), 0int, ExprV::Time, 0int,
{
    if depth > MAX_CONSTANT_DEPTH {
        None
    } else {
        match cut_last(name, '.') {
            None => None,
            Some((path, member)) => match meaning(g.classes, path, scope, imports) {
                None => None,
                Some(class) => {
                    let constants = package_constants(g.classes, class);
                    match first_constant(constants, member) {
                        Some(Some(binding)) => {
                            let made = substituted(
                                g,
                                through_name(constants, binding),
                                class.name@,
                                class.imports.deep_view(),
                                Seq::empty(),
                                deeper(depth),
                                true,
                            );
                            if made is Array || builds_record(g.classes, made, class) {
                                Some(made)
                            } else {
                                None
                            }
                        },
                        _ => None,
                    }
                },
            },
        }
    }
}

/// The package of a name.
pub open spec fn package_named(classes: Seq<&ClassDef>, name: Seq<char>) -> Option<ClassDef> {
    match class_named(classes, name) {
        Some(owner) => if owner.kind == ClassKind::Package {
            Some(owner)
        } else {
            None
        },
        None => None,
    }
}

/// A constant of a package, where the package that a body was reached by gives
/// it the value that the one declaring it leaves out.
pub open spec fn asked_constant(
    g: KnowingV,
    name: Seq<char>,
    owner: Seq<char>,
    depth: nat,
) -> Option<Number>
    decreases room_left(depth), owner.len() + 1, 1int, ExprV::Time, 0int,
{
    if depth > MAX_CONSTANT_DEPTH || !g.settling {
        None
    } else {
        match package_asked(g.classes, owner, g.mark) {
            None => None,
            Some(under) => constant_at(
                g,
                dotted(under, name),
                under,
                Seq::empty(),
                deeper(depth),
            ),
        }
    }
}

/// What a package says a constant of it is worth: what the gathering found is
/// the answer, since it took what each level's `extends` said of the level
/// below.
pub open spec fn owned_constant(
    g: KnowingV,
    owner: ClassDef,
    at: Seq<char>,
    name: Seq<char>,
    held: Option<ExprV>,
    depth: nat,
) -> Option<Number>
    decreases room_left(depth), at.len() + 1, 2int, ExprV::Time, 0int,
{
    match held {
        None => asked_constant(g, name, at, depth),
        Some(e) => {
            let known = constants_worth(
                constants_put(g, owner, at, package_constants(g.classes, owner), deeper(depth)),
                Map::empty(),
                g.v,
                false,
                ROUNDS as nat,
            );
            match evaluated(e, known, g.v) {
                Some(worth) => Some(worth),
                None => evaluated(
                    substituted(
                        g,
                        e,
                        at,
                        owner.imports.deep_view(),
                        Seq::empty(),
                        deeper(depth),
                        true,
                    ),
                    known,
                    g.v,
                ),
            }
        },
    }
}

/// A constant of a package the given scope is written inside.
pub open spec fn enclosing_worth(
    g: KnowingV,
    name: Seq<char>,
    scope: Seq<char>,
    depth: nat,
) -> Option<
    Number,
>
    decreases room_left(depth), scope.len(), 3int, ExprV::Time, 0int,
{
    match cut_last(scope, '.') {
        None => None,
        Some((head, _)) => {
            proof {
                lemma_last_of(scope, '.');
            }
            match package_named(g.classes, head) {
                Some(owner) => match first_constant(package_constants(g.classes, owner), name) {
                    Some(held) => owned_constant(g, owner, head, name, held, depth),
                    None => enclosing_worth(g, name, head, depth),
                },
                None => enclosing_worth(g, name, head, depth),
            }
        },
    }
}

/// What a package that a scope is written inside brought in under a name.
pub open spec fn enclosing_brought(
    g: KnowingV,
    name: Seq<char>,
    scope: Seq<char>,
    depth: nat,
) -> Option<Number>
    decreases room_left(depth), scope.len(), 3int, ExprV::Time, 0int,
{
    match cut_last(scope, '.') {
        None => None,
        Some((head, _)) => {
            proof {
                lemma_last_of(scope, '.');
            }
            let value = match class_named(g.classes, head) {
                Some(owner) => match import_of(owner.imports.deep_view(), name) {
                    Some(target) => constant_at(
                        g,
                        target,
                        head,
                        owner.imports.deep_view(),
                        depth,
                    ),
                    None => None,
                },
                None => None,
            };
            match value {
                Some(worth) => Some(worth),
                None => enclosing_brought(g, name, head, depth),
            }
        },
    }
}

/// What a constant of a package around a scope was declared to be, asked of
/// the scope itself first.
pub open spec fn enclosing_declared(
    classes: Seq<&ClassDef>,
    name: Seq<char>,
    scope: Seq<char>,
) -> Option<(ClassDef, Option<ExprV>)>
    decreases scope.len(),
{
    let here = match package_named(classes, scope) {
        Some(owner) => match first_constant(package_constants(classes, owner), name) {
            Some(held) => Some((owner, held)),
            None => None,
        },
        None => None,
    };
    match here {
        Some(found) => Some(found),
        None => match cut_last(scope, '.') {
            None => None,
            Some((head, _)) => {
                proof {
                    lemma_last_of(scope, '.');
                }
                enclosing_declared(classes, name, head)
            },
        },
    }
}

/// A constant of a package around a scope that comes to a list rather than a
/// number.
pub open spec fn enclosing_array(
    g: KnowingV,
    name: Seq<char>,
    scope: Seq<char>,
    depth: nat,
) -> Option<
    ExprV,
>
    decreases room_left(depth), scope.len(), 0int, ExprV::Time, 0int,
{
    if depth > MAX_CONSTANT_DEPTH {
        None
    } else {
        match enclosing_declared(g.classes, name, scope) {
            Some((owner, Some(binding))) => {
                let made = substituted(
                    g,
                    binding,
                    owner.name@,
                    owner.imports.deep_view(),
                    Seq::empty(),
                    deeper(depth),
                    true,
                );
                if made is Array {
                    Some(made)
                } else {
                    None
                }
            },
            _ => None,
        }
    }
}

/// What the first wholesale import from the `i`-th on gives a name.
pub open spec fn wholesale(
    g: KnowingV,
    name: Seq<char>,
    scope: Seq<char>,
    imports: Pairs,
    depth: nat,
    i: nat,
) -> Option<ExprV>
    decreases room_left(depth), scope.len(), 1int, ExprV::Time, imports.len() - i,
{
    if i >= imports.len() {
        None
    } else if imports[i as int].0 != WILDCARD_IMPORT@ {
        wholesale(g, name, scope, imports, depth, i + 1)
    } else {
        let full = dotted(imports[i as int].1, name);
        match constant_at(g, full, scope, imports, depth) {
            Some(value) => Some(
                in_kind(is_boolean_constant(g.classes, full, scope, imports, depth), value),
            ),
            None => wholesale(g, name, scope, imports, depth, i + 1),
        }
    }
}

/// What a constant brought in by name is.
pub open spec fn imported_constant(
    g: KnowingV,
    name: Seq<char>,
    scope: Seq<char>,
    imports: Pairs,
    depth: nat,
) -> Option<ExprV>
    decreases room_left(depth), scope.len(), 1int, ExprV::Time, 0int,
{
    match import_of(imports, name) {
        None => None,
        Some(target) => match constant_at(g, target, scope, imports, depth) {
            Some(value) => Some(
                in_kind(is_boolean_constant(g.classes, target, scope, imports, depth), value),
            ),
            None => constant_array_at(g, target, scope, imports, depth),
        },
    }
}

/// What a constant of a package around a scope is.
pub open spec fn enclosing_value(
    g: KnowingV,
    name: Seq<char>,
    scope: Seq<char>,
    depth: nat,
) -> Option<
    ExprV,
>
    decreases room_left(depth), scope.len(), 4int, ExprV::Time, 0int,
{
    match enclosing_worth(g, name, scope, depth) {
        Some(value) => Some(
            in_kind(is_enclosing_boolean(g.classes, name, scope, depth), value),
        ),
        None => match enclosing_brought(g, name, scope, depth) {
            Some(value) => Some(ExprV::Number(value)),
            None => enclosing_array(g, name, scope, depth),
        },
    }
}

/// What a name stands for, where it is the name of a constant: one brought in
/// by name, one of a package opened wholesale that no component stands before,
/// or one of a package around the class.
pub open spec fn name_substituted(
    g: KnowingV,
    name: Seq<char>,
    scope: Seq<char>,
    imports: Pairs,
    shadow: Seq<Seq<char>>,
    depth: nat,
) -> ExprV
    decreases room_left(depth), scope.len(), 5int, ExprV::Time, 0int,
{
    if name.contains('.') {
        match constant_at(g, name, scope, imports, depth) {
            Some(value) => in_kind(
                is_boolean_constant(g.classes, name, scope, imports, depth),
                value,
            ),
            None => match constant_array_at(g, name, scope, imports, depth) {
                Some(made) => made,
                None => ExprV::Ref(name),
            },
        }
    } else {
        match imported_constant(g, name, scope, imports, depth) {
            Some(made) => made,
            None => if shadow.contains(name) {
                ExprV::Ref(name)
            } else {
                match wholesale(g, name, scope, imports, depth, 0) {
                    Some(made) => made,
                    None => match enclosing_value(g, name, scope, depth) {
                        Some(made) => made,
                        None => ExprV::Ref(name),
                    },
                }
            },
        }
    }
}

/// Whether an expression asks how long a constant of a package is.
pub open spec fn asks_a_length(e: ExprV) -> bool {
    e matches ExprV::Call(name, args) && name == "size"@ && args.len() > 0 && args[0] is Ref
}

/// What a call is once its arguments are settled: the operator a library gave
/// a place in its tree, what the function comes to where calls are worked out,
/// or the call itself.
pub open spec fn call_settled(
    g: KnowingV,
    name: Seq<char>,
    args: Seq<ExprV>,
    scope: Seq<char>,
    imports: Pairs,
    depth: nat,
    settle_calls: bool,
) -> ExprV {
    match meaning(g.classes, name, scope, imports) {
        None => ExprV::Call(name, args),
        Some(class) => match class.builtin {
            Some(builtin) => ExprV::Call(builtin@, args),
            None => if settle_calls && depth <= MAX_CONSTANT_DEPTH && class.kind
                == ClassKind::Function {
                match (g.h.inline)(function_meant(g.classes, class, g.mark), args, depth as usize) {
                    Some(made) => made,
                    None => ExprV::Call(name, args),
                }
            } else {
                ExprV::Call(name, args)
            },
        },
    }
}

/// [`substituted`] of every child.
pub open spec fn kids_substituted(
    g: KnowingV,
    e: ExprV,
    scope: Seq<char>,
    imports: Pairs,
    shadow: Seq<Seq<char>>,
    depth: nat,
    settle_calls: bool,
) -> Seq<ExprV>
    decreases room_left(depth), scope.len(), 6int, e, 0int,
{
    proof {
        lemma_kids_smaller(e);
    }
    Seq::new(
        kids(e).len(),
        |i: int|
            if 0 <= i < kids(e).len() {
                substituted(g, kids(e)[i], scope, imports, shadow, depth, settle_calls)
            } else {
                e
            },
    )
}

/// An expression with every reference to a class constant replaced by its
/// value.
pub open spec fn substituted(
    g: KnowingV,
    e: ExprV,
    scope: Seq<char>,
    imports: Pairs,
    shadow: Seq<Seq<char>>,
    depth: nat,
    settle_calls: bool,
) -> ExprV
    decreases room_left(depth), scope.len(), 6int, e, 1int,
{
    match e {
        ExprV::Ref(name) => name_substituted(g, name, scope, imports, shadow, depth),
        ExprV::Call(name, args) => if settle_calls && asks_a_length(e) && depth
            <= MAX_CONSTANT_DEPTH {
            match enclosing_declared(g.classes, args[0]->Ref_0, scope) {
                Some((_, Some(ExprV::Array(items)))) => ExprV::Number(nearest(items.len())),
                _ => e,
            }
        } else {
            call_settled(
                g,
                name,
                kids_substituted(g, e, scope, imports, shadow, depth, settle_calls),
                scope,
                imports,
                depth,
                settle_calls,
            )
        },
        _ => with_kids(e, kids_substituted(g, e, scope, imports, shadow, depth, settle_calls)),
    }
}

fn put_constants<
    A1: Fn(&ClassDef, &Vec<Expr>, usize) -> Option<Expr>,
    W: Fn(Arith, Number, Number) -> Number,
    O: Fn(&str, &Vec<Number>) -> Option<Vec<Number>>,
    N: Fn(&str) -> String,
>(
    h: &Inliner<A1>,
    sums: &Sums<W, O, N>,
    q: &Knowing,
    class: &ClassDef,
    at: &str,
    constants: &Vec<(String, Option<Expr>)>,
    depth: usize,
) -> (r: Vec<(String, Option<Expr>)>)
    requires
        inlines_true(*h),
        is_steady(*sums),
    ensures
        r.deep_view() == constants_put(
            knowing_of(*h, *sums, *q),
            *class,
            at@,
            constants.deep_view(),
            depth as nat,
        ),
    decreases room_left(depth as nat), at@.len(), 7int, ExprV::Time, 0int,
{
    let ghost g = knowing_of(*h, *sums, *q);
    let ghost whole = constants_put(g, *class, at@, constants.deep_view(), depth as nat);
    let none: Vec<String> = Vec::new();
    assert(texts(none@) =~= Seq::empty());
    let mut out: Vec<(String, Option<Expr>)> = Vec::new();
    let mut i: usize = 0;
    assert(out.deep_view() =~= whole.take(0));
    while i < constants.len()
        invariant
            i <= constants.len(),
            inlines_true(*h),
            is_steady(*sums),
            g == knowing_of(*h, *sums, *q),
            texts(none@) == Seq::<Seq<char>>::empty(),
            whole == constants_put(g, *class, at@, constants.deep_view(), depth as nat),
            out.deep_view() == whole.take(i as int),
        decreases constants.len() - i,
    {
        let ghost before = out.deep_view();
        assert(constants.deep_view()[i as int] == constants@[i as int].deep_view());
        let value = match &constants[i].1 {
            Some(e) => Some(substitute_at(h, sums, q, e, at, &class.imports, &none, depth, true)),
            None => None,
        };
        out.push((constants[i].0.clone(), value));
        assert(out.deep_view() =~= before.push(whole[i as int]));
        assert(before.push(whole[i as int]) =~= whole.take(i + 1));
        i = i + 1;
    }
    assert(whole.take(i as int) =~= whole);
    out
}

/// The value of a constant declared inside a class: `Constants.pi`.
///
/// Package constants are compile-time values, so a reference to one is
/// replaced by its number before any prefixing happens. `depth` counts how
/// many constants deep the question already is: one may be built on another,
/// and on one of another package.
pub fn class_constant_at<
    A1: Fn(&ClassDef, &Vec<Expr>, usize) -> Option<Expr>,
    W: Fn(Arith, Number, Number) -> Number,
    O: Fn(&str, &Vec<Number>) -> Option<Vec<Number>>,
    N: Fn(&str) -> String,
>(
    h: &Inliner<A1>,
    sums: &Sums<W, O, N>,
    q: &Knowing,
    name: &str,
    scope: &str,
    imports: &Vec<(String, String)>,
    depth: usize,
) -> (r: Option<Number>)
    requires
        inlines_true(*h),
        is_steady(*sums),
    ensures
        r == constant_at(
            knowing_of(*h, *sums, *q),
            name@,
            scope@,
            imports.deep_view(),
            depth as nat,
        ),
    decreases room_left(depth as nat), scope@.len(), 0int, ExprV::Time, 0int,
{
    if depth > MAX_CONSTANT_DEPTH {
        return None;
    }
    let (path, member) = match split_last(name, '.') {
        Some(cut) => cut,
        None => {
            return None;
        },
    };
    let class = match lookup(q.registry, path.as_str(), scope, imports) {
        Some(class) => class,
        None => {
            return None;
        },
    };
    let literals: usize = class.enumeration.len();
    if let Some(at) = find_literal(&class.enumeration, member.as_str()) {
        assert(at < literals);
        return Some(from_count(at as u64 + 1));
    }
    let constants = list_constants(q.registry, class);
    if find_constant(&constants, member.as_str()).is_none() {
        return None;
    }
    let put = put_constants(
        h,
        sums,
        q,
        class,
        class.name.as_str(),
        &constants,
        go_deeper(depth),
    );
    let values = settle_constants(sums, &put, true);
    match values.get(member.as_str()) {
        Some(worth) => Some(*worth),
        None => None,
    }
}

fn make_through_name(constants: &Vec<(String, Option<Expr>)>, e: &Expr) -> (r: Expr)
    ensures
        r.deep_view() == through_name(constants.deep_view(), e.deep_view()),
{
    if let Expr::Ref(other) = e {
        if let Some(Some(held)) = find_constant(constants, other.as_str()) {
            return held.clone();
        }
    }
    e.clone()
}

fn does_build_record(registry: &Registry, e: &Expr, class: &ClassDef) -> (r: bool)
    ensures
        r == builds_record(registry@, e.deep_view(), *class),
{
    match e {
        Expr::Call(built, _) => match lookup(
            registry,
            built.as_str(),
            class.name.as_str(),
            &class.imports,
        ) {
            Some(of) => of.kind == ClassKind::Record,
            None => false,
        },
        _ => false,
    }
}

/// A class constant that is an array rather than a number, or a record built
/// by its own constructor.
pub fn class_constant_array_at<
    A1: Fn(&ClassDef, &Vec<Expr>, usize) -> Option<Expr>,
    W: Fn(Arith, Number, Number) -> Number,
    O: Fn(&str, &Vec<Number>) -> Option<Vec<Number>>,
    N: Fn(&str) -> String,
>(
    h: &Inliner<A1>,
    sums: &Sums<W, O, N>,
    q: &Knowing,
    name: &str,
    scope: &str,
    imports: &Vec<(String, String)>,
    depth: usize,
) -> (r: Option<Expr>)
    requires
        inlines_true(*h),
        is_steady(*sums),
    ensures
        r.deep_view() == constant_array_at(
            knowing_of(*h, *sums, *q),
            name@,
            scope@,
            imports.deep_view(),
            depth as nat,
        ),
    decreases room_left(depth as nat), scope@.len(), 0int, ExprV::Time, 0int,
{
    if depth > MAX_CONSTANT_DEPTH {
        return None;
    }
    let (path, member) = match split_last(name, '.') {
        Some(cut) => cut,
        None => {
            return None;
        },
    };
    let class = match lookup(q.registry, path.as_str(), scope, imports) {
        Some(class) => class,
        None => {
            return None;
        },
    };
    let constants = list_constants(q.registry, class);
    if let Some(Some(binding)) = find_constant(&constants, member.as_str()) {
        let written = make_through_name(&constants, binding);
        let none: Vec<String> = Vec::new();
        assert(texts(none@) =~= Seq::empty());
        let made = substitute_at(
            h,
            sums,
            q,
            &written,
            class.name.as_str(),
            &class.imports,
            &none,
            go_deeper(depth),
            true,
        );
        if matches!(made, Expr::Array(_)) || does_build_record(q.registry, &made, class) {
            return Some(made);
        }
    }
    None
}

/// The same name asked of the package a body was reached by: a constant it
/// reads may be declared in the interface without a value, and the value stands
/// in the `extends` of whichever package the model chose.
fn asked_as_constant<
    A1: Fn(&ClassDef, &Vec<Expr>, usize) -> Option<Expr>,
    W: Fn(Arith, Number, Number) -> Number,
    O: Fn(&str, &Vec<Number>) -> Option<Vec<Number>>,
    N: Fn(&str) -> String,
>(
    h: &Inliner<A1>,
    sums: &Sums<W, O, N>,
    q: &Knowing,
    name: &str,
    owner: &str,
    depth: usize,
) -> (r: Option<Number>)
    requires
        inlines_true(*h),
        is_steady(*sums),
    ensures
        r == asked_constant(knowing_of(*h, *sums, *q), name@, owner@, depth as nat),
    decreases room_left(depth as nat), owner@.len() + 1, 1int, ExprV::Time, 0int,
{
    if depth > MAX_CONSTANT_DEPTH || !q.settling {
        return None;
    }
    match asked_as_package(q.registry, owner, q.mark) {
        None => None,
        Some(under) => {
            let none: Vec<(String, String)> = Vec::new();
            assert(none.deep_view() =~= Seq::empty());
            let full = dot(under.as_str(), name);
            class_constant_at(
                h,
                sums,
                q,
                full.as_str(),
                under.as_str(),
                &none,
                go_deeper(depth),
            )
        },
    }
}

fn find_owned<
    A1: Fn(&ClassDef, &Vec<Expr>, usize) -> Option<Expr>,
    W: Fn(Arith, Number, Number) -> Number,
    O: Fn(&str, &Vec<Number>) -> Option<Vec<Number>>,
    N: Fn(&str) -> String,
>(
    h: &Inliner<A1>,
    sums: &Sums<W, O, N>,
    q: &Knowing,
    owner: &ClassDef,
    at: &str,
    constants: &Vec<(String, Option<Expr>)>,
    name: &str,
    held: &Option<Expr>,
    depth: usize,
) -> (r: Option<Number>)
    requires
        inlines_true(*h),
        is_steady(*sums),
        constants.deep_view() == package_constants(q.registry@, *owner),
    ensures
        r == owned_constant(
            knowing_of(*h, *sums, *q),
            *owner,
            at@,
            name@,
            held.deep_view(),
            depth as nat,
        ),
    decreases room_left(depth as nat), at@.len() + 1, 2int, ExprV::Time, 0int,
{
    match held {
        None => asked_as_constant(h, sums, q, name, at, depth),
        Some(e) => {
            let put = put_constants(h, sums, q, owner, at, constants, go_deeper(depth));
            let known = settle_constants(sums, &put, false);
            if let Some(worth) = const_eval(e, &known, sums) {
                return Some(worth);
            }
            let none: Vec<String> = Vec::new();
            assert(texts(none@) =~= Seq::empty());
            let made = substitute_at(
                h,
                sums,
                q,
                e,
                at,
                &owner.imports,
                &none,
                go_deeper(depth),
                true,
            );
            const_eval(&made, &known, sums)
        },
    }
}

fn find_package<'a>(registry: &Registry<'a>, name: &str) -> (r: Option<&'a ClassDef>)
    ensures
        is_it(r, package_named(registry@, name@)),
{
    match find_class(registry, name) {
        Some(owner) => if owner.kind == ClassKind::Package {
            Some(owner)
        } else {
            None
        },
        None => None,
    }
}

/// A constant of a package the given scope is written inside. The walk goes
/// out through the enclosing packages only: what a model holds says nothing
/// about what another class of it may write.
pub fn enclosing_constant<
    A1: Fn(&ClassDef, &Vec<Expr>, usize) -> Option<Expr>,
    W: Fn(Arith, Number, Number) -> Number,
    O: Fn(&str, &Vec<Number>) -> Option<Vec<Number>>,
    N: Fn(&str) -> String,
>(
    h: &Inliner<A1>,
    sums: &Sums<W, O, N>,
    q: &Knowing,
    name: &str,
    scope: &str,
    depth: usize,
) -> (r: Option<Number>)
    requires
        inlines_true(*h),
        is_steady(*sums),
    ensures
        r == enclosing_worth(knowing_of(*h, *sums, *q), name@, scope@, depth as nat),
    decreases room_left(depth as nat), scope@.len(), 3int, ExprV::Time, 0int,
{
    let (head, _) = match split_last(scope, '.') {
        Some(cut) => cut,
        None => {
            return None;
        },
    };
    proof {
        lemma_last_of(scope@, '.');
    }
    if let Some(owner) = find_package(q.registry, head.as_str()) {
        let constants = list_constants(q.registry, owner);
        if let Some(held) = find_constant(&constants, name) {
            return find_owned(h, sums, q, owner, head.as_str(), &constants, name, held, depth);
        }
    }
    enclosing_constant(h, sums, q, name, head.as_str(), depth)
}

/// What a name written inside a package was brought in as by that package, or
/// by a package holding it: an import is written once and holds for everything
/// written inside.
pub fn enclosing_import<
    A1: Fn(&ClassDef, &Vec<Expr>, usize) -> Option<Expr>,
    W: Fn(Arith, Number, Number) -> Number,
    O: Fn(&str, &Vec<Number>) -> Option<Vec<Number>>,
    N: Fn(&str) -> String,
>(
    h: &Inliner<A1>,
    sums: &Sums<W, O, N>,
    q: &Knowing,
    name: &str,
    scope: &str,
    depth: usize,
) -> (r: Option<Number>)
    requires
        inlines_true(*h),
        is_steady(*sums),
    ensures
        r == enclosing_brought(knowing_of(*h, *sums, *q), name@, scope@, depth as nat),
    decreases room_left(depth as nat), scope@.len(), 3int, ExprV::Time, 0int,
{
    let (head, _) = match split_last(scope, '.') {
        Some(cut) => cut,
        None => {
            return None;
        },
    };
    proof {
        lemma_last_of(scope@, '.');
    }
    if let Some(owner) = find_class(q.registry, head.as_str()) {
        if let Some(target) = find_import(&owner.imports, name) {
            let value = class_constant_at(
                h,
                sums,
                q,
                target.as_str(),
                head.as_str(),
                &owner.imports,
                depth,
            );
            if value.is_some() {
                return value;
            }
        }
    }
    enclosing_import(h, sums, q, name, head.as_str(), depth)
}

/// What a constant of an enclosing package was declared to be, before anything
/// is made of it, and the package that declares it.
pub fn enclosing_binding<'a>(registry: &Registry<'a>, name: &str, scope: &str) -> (r: Option<
    (&'a ClassDef, Option<Expr>),
>)
    ensures
        match (r, enclosing_declared(registry@, name@, scope@)) {
            (Some(found), Some(meant)) => *found.0 == meant.0 && found.1.deep_view() == meant.1,
            (None, None) => true,
            _ => false,
        },
    decreases scope@.len(),
{
    if let Some(owner) = find_package(registry, scope) {
        let constants = list_constants(registry, owner);
        if let Some(held) = find_constant(&constants, name) {
            return Some((owner, crate::class::copied_value(held)));
        }
    }
    match split_last(scope, '.') {
        None => None,
        Some((head, _)) => {
            proof {
                lemma_last_of(scope@, '.');
            }
            enclosing_binding(registry, name, head.as_str())
        },
    }
}

/// A constant of an enclosing package that comes to a list rather than a
/// number: the binding is read in the package that holds it.
pub fn enclosing_constant_array<
    A1: Fn(&ClassDef, &Vec<Expr>, usize) -> Option<Expr>,
    W: Fn(Arith, Number, Number) -> Number,
    O: Fn(&str, &Vec<Number>) -> Option<Vec<Number>>,
    N: Fn(&str) -> String,
>(
    h: &Inliner<A1>,
    sums: &Sums<W, O, N>,
    q: &Knowing,
    name: &str,
    scope: &str,
    depth: usize,
) -> (r: Option<Expr>)
    requires
        inlines_true(*h),
        is_steady(*sums),
    ensures
        r.deep_view() == enclosing_array(knowing_of(*h, *sums, *q), name@, scope@, depth as nat),
    decreases room_left(depth as nat), scope@.len(), 0int, ExprV::Time, 0int,
{
    if depth > MAX_CONSTANT_DEPTH {
        return None;
    }
    if let Some((owner, Some(binding))) = enclosing_binding(q.registry, name, scope) {
        let none: Vec<String> = Vec::new();
        assert(texts(none@) =~= Seq::empty());
        let made = substitute_at(
            h,
            sums,
            q,
            &binding,
            owner.name.as_str(),
            &owner.imports,
            &none,
            go_deeper(depth),
            true,
        );
        if matches!(made, Expr::Array(_)) {
            return Some(made);
        }
    }
    None
}

fn find_wholesale<
    A1: Fn(&ClassDef, &Vec<Expr>, usize) -> Option<Expr>,
    W: Fn(Arith, Number, Number) -> Number,
    O: Fn(&str, &Vec<Number>) -> Option<Vec<Number>>,
    N: Fn(&str) -> String,
>(
    h: &Inliner<A1>,
    sums: &Sums<W, O, N>,
    q: &Knowing,
    name: &str,
    scope: &str,
    imports: &Vec<(String, String)>,
    depth: usize,
) -> (r: Option<Expr>)
    requires
        inlines_true(*h),
        is_steady(*sums),
    ensures
        r.deep_view() == wholesale(
            knowing_of(*h, *sums, *q),
            name@,
            scope@,
            imports.deep_view(),
            depth as nat,
            0,
        ),
    decreases room_left(depth as nat), scope@.len(), 1int, ExprV::Time, 0int,
{
    let ghost g = knowing_of(*h, *sums, *q);
    let ghost iv = imports.deep_view();
    let mut i: usize = 0;
    while i < imports.len()
        invariant
            i <= imports.len(),
            inlines_true(*h),
            is_steady(*sums),
            g == knowing_of(*h, *sums, *q),
            iv == imports.deep_view(),
            wholesale(g, name@, scope@, iv, depth as nat, 0) == wholesale(
                g,
                name@,
                scope@,
                iv,
                depth as nat,
                i as nat,
            ),
        decreases imports.len() - i,
    {
        assert(iv[i as int] == imports@[i as int].deep_view());
        if same(imports[i].0.as_str(), WILDCARD_IMPORT) {
            let full = dot(imports[i].1.as_str(), name);
            if let Some(value) = class_constant_at(
                h,
                sums,
                q,
                full.as_str(),
                scope,
                imports,
                depth,
            ) {
                let boolean = class_constant_is_boolean(
                    q.registry,
                    full.as_str(),
                    scope,
                    imports,
                    depth,
                );
                return Some(make_in_kind(boolean, value));
            }
        }
        i = i + 1;
    }
    assert(iv.len() == imports@.len());
    None
}

fn find_imported_constant<
    A1: Fn(&ClassDef, &Vec<Expr>, usize) -> Option<Expr>,
    W: Fn(Arith, Number, Number) -> Number,
    O: Fn(&str, &Vec<Number>) -> Option<Vec<Number>>,
    N: Fn(&str) -> String,
>(
    h: &Inliner<A1>,
    sums: &Sums<W, O, N>,
    q: &Knowing,
    name: &str,
    scope: &str,
    imports: &Vec<(String, String)>,
    depth: usize,
) -> (r: Option<Expr>)
    requires
        inlines_true(*h),
        is_steady(*sums),
    ensures
        r.deep_view() == imported_constant(
            knowing_of(*h, *sums, *q),
            name@,
            scope@,
            imports.deep_view(),
            depth as nat,
        ),
    decreases room_left(depth as nat), scope@.len(), 1int, ExprV::Time, 0int,
{
    match find_import(imports, name) {
        None => None,
        Some(target) => match class_constant_at(
            h,
            sums,
            q,
            target.as_str(),
            scope,
            imports,
            depth,
        ) {
            Some(value) => {
                let boolean = class_constant_is_boolean(
                    q.registry,
                    target.as_str(),
                    scope,
                    imports,
                    depth,
                );
                Some(make_in_kind(boolean, value))
            },
            None => class_constant_array_at(h, sums, q, target.as_str(), scope, imports, depth),
        },
    }
}

fn find_enclosing_value<
    A1: Fn(&ClassDef, &Vec<Expr>, usize) -> Option<Expr>,
    W: Fn(Arith, Number, Number) -> Number,
    O: Fn(&str, &Vec<Number>) -> Option<Vec<Number>>,
    N: Fn(&str) -> String,
>(
    h: &Inliner<A1>,
    sums: &Sums<W, O, N>,
    q: &Knowing,
    name: &str,
    scope: &str,
    depth: usize,
) -> (r: Option<Expr>)
    requires
        inlines_true(*h),
        is_steady(*sums),
    ensures
        r.deep_view() == enclosing_value(knowing_of(*h, *sums, *q), name@, scope@, depth as nat),
    decreases room_left(depth as nat), scope@.len(), 4int, ExprV::Time, 0int,
{
    if let Some(value) = enclosing_constant(h, sums, q, name, scope, depth) {
        let boolean = find_enclosing_boolean(q.registry, name, scope, depth);
        return Some(make_in_kind(boolean, value));
    }
    if let Some(value) = enclosing_import(h, sums, q, name, scope, depth) {
        return Some(make::number(value));
    }
    enclosing_constant_array(h, sums, q, name, scope, depth)
}

fn substitute_name<
    A1: Fn(&ClassDef, &Vec<Expr>, usize) -> Option<Expr>,
    W: Fn(Arith, Number, Number) -> Number,
    O: Fn(&str, &Vec<Number>) -> Option<Vec<Number>>,
    N: Fn(&str) -> String,
>(
    h: &Inliner<A1>,
    sums: &Sums<W, O, N>,
    q: &Knowing,
    name: &String,
    scope: &str,
    imports: &Vec<(String, String)>,
    shadow: &Vec<String>,
    depth: usize,
) -> (r: Expr)
    requires
        inlines_true(*h),
        is_steady(*sums),
    ensures
        r.deep_view() == name_substituted(
            knowing_of(*h, *sums, *q),
            name@,
            scope@,
            imports.deep_view(),
            texts(shadow@),
            depth as nat,
        ),
    decreases room_left(depth as nat), scope@.len(), 5int, ExprV::Time, 0int,
{
    if has_dot(name.as_str()) {
        if let Some(value) = class_constant_at(
            h,
            sums,
            q,
            name.as_str(),
            scope,
            imports,
            depth,
        ) {
            let boolean = class_constant_is_boolean(
                q.registry,
                name.as_str(),
                scope,
                imports,
                depth,
            );
            return make_in_kind(boolean, value);
        }
        return match class_constant_array_at(
            h,
            sums,
            q,
            name.as_str(),
            scope,
            imports,
            depth,
        ) {
            Some(made) => made,
            None => make::name(name.clone()),
        };
    }
    if let Some(made) = find_imported_constant(
        h,
        sums,
        q,
        name.as_str(),
        scope,
        imports,
        depth,
    ) {
        return made;
    }
    if holds(shadow, name.as_str()) {
        return make::name(name.clone());
    }
    if let Some(made) = find_wholesale(h, sums, q, name.as_str(), scope, imports, depth) {
        return made;
    }
    match find_enclosing_value(h, sums, q, name.as_str(), scope, depth) {
        Some(made) => made,
        None => make::name(name.clone()),
    }
}

fn settle_call<
    A1: Fn(&ClassDef, &Vec<Expr>, usize) -> Option<Expr>,
    W: Fn(Arith, Number, Number) -> Number,
    O: Fn(&str, &Vec<Number>) -> Option<Vec<Number>>,
    N: Fn(&str) -> String,
>(
    h: &Inliner<A1>,
    sums: &Sums<W, O, N>,
    q: &Knowing,
    name: &String,
    args: Vec<Expr>,
    scope: &str,
    imports: &Vec<(String, String)>,
    depth: usize,
    settle_calls: bool,
) -> (r: Expr)
    requires
        inlines_true(*h),
        is_steady(*sums),
    ensures
        r.deep_view() == call_settled(
            knowing_of(*h, *sums, *q),
            name@,
            args.deep_view(),
            scope@,
            imports.deep_view(),
            depth as nat,
            settle_calls,
        ),
{
    if let Some(class) = lookup(q.registry, name.as_str(), scope, imports) {
        if let Some(builtin) = &class.builtin {
            return make::call(builtin.as_str(), args);
        }
        if settle_calls && depth <= MAX_CONSTANT_DEPTH && class.kind == ClassKind::Function {
            let meant = function_asked_under(class, q.registry, q.mark);
            if let Some(made) = h.do_inline(meant, &args, depth) {
                return made;
            }
        }
    }
    make::call(name.as_str(), args)
}

fn substitute_kids<
    A1: Fn(&ClassDef, &Vec<Expr>, usize) -> Option<Expr>,
    W: Fn(Arith, Number, Number) -> Number,
    O: Fn(&str, &Vec<Number>) -> Option<Vec<Number>>,
    N: Fn(&str) -> String,
>(
    h: &Inliner<A1>,
    sums: &Sums<W, O, N>,
    q: &Knowing,
    expr: &Expr,
    scope: &str,
    imports: &Vec<(String, String)>,
    shadow: &Vec<String>,
    depth: usize,
    settle_calls: bool,
) -> (r: Vec<Expr>)
    requires
        inlines_true(*h),
        is_steady(*sums),
    ensures
        r.deep_view() == kids_substituted(
            knowing_of(*h, *sums, *q),
            expr.deep_view(),
            scope@,
            imports.deep_view(),
            texts(shadow@),
            depth as nat,
            settle_calls,
        ),
    decreases room_left(depth as nat), scope@.len(), 6int, expr.deep_view(), 0int,
{
    let ghost g = knowing_of(*h, *sums, *q);
    let ghost iv = imports.deep_view();
    let ghost dv = texts(shadow@);
    let ghost shape = expr.deep_view();
    let parts = expr.children();
    let mut new: Vec<Expr> = Vec::new();
    let mut i: usize = 0;
    proof {
        lemma_kids_smaller(shape);
    }
    while i < parts.len()
        invariant
            i <= parts.len(),
            inlines_true(*h),
            is_steady(*sums),
            g == knowing_of(*h, *sums, *q),
            iv == imports.deep_view(),
            dv == texts(shadow@),
            shape == expr.deep_view(),
            parts.deep_view() == kids(shape),
            forall|k: int|
                0 <= k < kids(shape).len() ==> (#[trigger] decreases_to!(shape => kids(shape)[k])),
            new.len() == i,
            forall|k: int|
                0 <= k < i ==> (#[trigger] new@[k]).deep_view() == substituted(
                    g,
                    kids(shape)[k],
                    scope@,
                    iv,
                    dv,
                    depth as nat,
                    settle_calls,
                ),
        decreases parts.len() - i,
    {
        assert(parts.deep_view()[i as int] == parts@[i as int].deep_view());
        assert(decreases_to!(shape => kids(shape)[i as int]));
        let part: &Expr = parts[i];
        new.push(substitute_at(h, sums, q, part, scope, imports, shadow, depth, settle_calls));
        i = i + 1;
    }
    assert(new.deep_view() =~= kids_substituted(
        g,
        shape,
        scope@,
        iv,
        dv,
        depth as nat,
        settle_calls,
    ));
    new
}

/// Replace every reference to a class constant with its value. `settle_calls`
/// says whether a call to a library function is to be worked out here as well,
/// which is what a constant's own binding needs.
pub fn substitute_at<
    A1: Fn(&ClassDef, &Vec<Expr>, usize) -> Option<Expr>,
    W: Fn(Arith, Number, Number) -> Number,
    O: Fn(&str, &Vec<Number>) -> Option<Vec<Number>>,
    N: Fn(&str) -> String,
>(
    h: &Inliner<A1>,
    sums: &Sums<W, O, N>,
    q: &Knowing,
    expr: &Expr,
    scope: &str,
    imports: &Vec<(String, String)>,
    shadow: &Vec<String>,
    depth: usize,
    settle_calls: bool,
) -> (r: Expr)
    requires
        inlines_true(*h),
        is_steady(*sums),
    ensures
        r.deep_view() == substituted(
            knowing_of(*h, *sums, *q),
            expr.deep_view(),
            scope@,
            imports.deep_view(),
            texts(shadow@),
            depth as nat,
            settle_calls,
        ),
    decreases room_left(depth as nat), scope@.len(), 6int, expr.deep_view(), 1int,
{
    match expr {
        Expr::Ref(name) => substitute_name(h, sums, q, name, scope, imports, shadow, depth),
        Expr::Call(name, args) => {
            proof {
                lemma_views(*args);
            }
            assert(args.deep_view().len() == args@.len());
            if settle_calls && depth <= MAX_CONSTANT_DEPTH && same(name.as_str(), "size")
                && args.len() > 0 {
                assert(args.deep_view()[0] == args@[0].deep_view());
                if let Expr::Ref(named) = &args[0] {
                    if let Some((_, Some(Expr::Array(items)))) = enclosing_binding(
                        q.registry,
                        named.as_str(),
                        scope,
                    ) {
                        proof {
                            lemma_views(items);
                        }
                        assert(items.deep_view().len() == items@.len());
                        return make::number(from_count(items.len() as u64));
                    }
                    return expr.clone();
                }
            }
            let new = substitute_kids(
                h,
                sums,
                q,
                expr,
                scope,
                imports,
                shadow,
                depth,
                settle_calls,
            );
            settle_call(h, sums, q, name, new, scope, imports, depth, settle_calls)
        },
        _ => {
            let new = substitute_kids(
                h,
                sums,
                q,
                expr,
                scope,
                imports,
                shadow,
                depth,
                settle_calls,
            );
            expr.with_children(new)
        },
    }
}

/// Replace every reference to a class constant with its value, leaving the
/// calls of an expression standing: inlining them is the work of the pass that
/// knows the shapes involved.
pub fn substitute_class_constants<
    A1: Fn(&ClassDef, &Vec<Expr>, usize) -> Option<Expr>,
    W: Fn(Arith, Number, Number) -> Number,
    O: Fn(&str, &Vec<Number>) -> Option<Vec<Number>>,
    N: Fn(&str) -> String,
>(
    h: &Inliner<A1>,
    sums: &Sums<W, O, N>,
    q: &Knowing,
    expr: &Expr,
    scope: &str,
    imports: &Vec<(String, String)>,
    shadow: &Vec<String>,
) -> (r: Expr)
    requires
        inlines_true(*h),
        is_steady(*sums),
    ensures
        r.deep_view() == substituted(
            knowing_of(*h, *sums, *q),
            expr.deep_view(),
            scope@,
            imports.deep_view(),
            texts(shadow@),
            0,
            false,
        ),
{
    substitute_at(h, sums, q, expr, scope, imports, shadow, 0, false)
}

/// A component of the class stands before every constant that a package opened
/// wholesale, or a package around the class, would bring in under its name.
pub proof fn law_a_component_outranks_the_packages(
    g: KnowingV,
    name: Seq<char>,
    scope: Seq<char>,
    imports: Pairs,
    shadow: Seq<Seq<char>>,
    depth: nat,
)
    requires
        !name.contains('.'),
        shadow.contains(name),
        import_of(imports, name) is None,
    ensures
        substituted(g, ExprV::Ref(name), scope, imports, shadow, depth, false) == ExprV::Ref(name),
{
    assert(imported_constant(g, name, scope, imports, depth) is None);
    assert(name_substituted(g, name, scope, imports, shadow, depth) == ExprV::Ref(name));
}

}
