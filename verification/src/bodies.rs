//! Working out the body of a function: what the call handed over, what each
//! local is worth, and what every output comes to.
use crate::asked::{asked_under, scope_asked};
use crate::class::{Causality, ClassDef, ClassKind, Component, ComponentV, MAX_DEPTH, Statement};
use crate::expr::{expr_view, lemma_views, told, Expr, ExprV};
use crate::flat::Checks;
use crate::folding::{const_eval, evaluated, Worths};
use crate::functions::{
    body_of, by_element, declared_by, elements_put, function_body, function_components, places,
    spread_as, spread_out,
};
use crate::lookup::{lookup, meaning, Registry};
use crate::make;
use crate::names::{
    element_name, element_of, index_tuples, same_indices, substitute_refs, substituted, tuples_of,
};
use crate::number::{zero, Number};
use crate::reading::Flow;
use crate::sums::{is_steady, sums_of, Arith, Sums, SumsV};
use crate::table::{entered, lemma_entry_of, lemma_is_entered, overlaid, overlay, Table};
use crate::text::{begins_with, decimal, digits, join2, join3, join4, join5, join7, same, starts};
use crate::value::{written_out, Value, ValueV};
use vstd::prelude::*;

verus! {

/// What names stand for in a body.
pub type Bound = Map<Seq<char>, ExprV>;

/// How long arrays are, by name.
pub type Lengths = Map<Seq<char>, Seq<i64>>;

/// What running the statements of a body came to.
#[derive(Debug)]
pub struct Walked {
    pub flow: Flow,
    pub bindings: Table<Expr>,
    pub checks: Vec<(Expr, String)>,
    /// What the bodies inlined on the way check, in the order it was set aside.
    pub aside: Vec<(Expr, String)>,
}

pub ghost struct WalkedV {
    pub flow: Flow,
    pub bindings: Bound,
    pub checks: Checks,
    pub aside: Checks,
}

impl DeepView for Walked {
    type V = WalkedV;

    open spec fn deep_view(&self) -> WalkedV {
        WalkedV {
            flow: self.flow,
            bindings: self.bindings.deep_view(),
            checks: self.checks.deep_view(),
            aside: self.aside.deep_view(),
        }
    }
}

/// What working out a body leans on, handed in by whoever knows.
///
/// `put` puts the constants of classes into an expression, `filled` is the
/// value a redeclaration filled an input in with, `measure` adds the lengths
/// of the body's declarations, `settle` works an expression out to a number
/// and `spread` to what it stands for, with what the bodies inlined on the way
/// check beside it, `walk` runs the statements; `fields`,
/// `single` and `shaped` are the fields of a record-typed input, those that
/// are single numbers, and those with dimensions; `held` is the fields of a
/// record; and `elsewhere` answers for a body that is not written here.
pub struct Walking<A1, A2, A3, A4, A5, A6, A7, A8, A9, B1, B2> {
    pub put: A1,
    pub filled: A2,
    pub measure: A3,
    pub settle: A4,
    pub spread: A5,
    pub walk: A6,
    pub fields: A7,
    pub single: A8,
    pub shaped: A9,
    pub held: B1,
    pub elsewhere: B2,
    /// What they answer, mathematically.
    pub model: Ghost<WalkingV>,
}

/// The same, mathematically.
pub ghost struct WalkingV {
    pub put: spec_fn(ClassDef, ExprV) -> ExprV,
    pub filled: spec_fn(ClassDef, Seq<char>) -> Option<ExprV>,
    pub measure: spec_fn(ClassDef, Worths, Worths, Lengths) -> Lengths,
    pub settle: spec_fn(ClassDef, ExprV, Bound, Worths, Lengths, usize) -> Option<Number>,
    pub spread: spec_fn(ClassDef, ExprV, Worths, Lengths, usize) -> Result<(ValueV, Checks), Seq<char>>,
    pub walk: spec_fn(ClassDef, Seq<Statement>, Bound, Worths, Lengths, usize) -> Result<WalkedV, Seq<char>>,
    pub fields: spec_fn(ClassDef, ComponentV) -> Option<Seq<Seq<char>>>,
    pub single: spec_fn(ClassDef, ComponentV) -> Seq<Seq<char>>,
    pub shaped: spec_fn(ClassDef, ComponentV) -> Seq<(Seq<char>, Seq<i64>)>,
    pub held: spec_fn(ClassDef) -> Seq<Seq<char>>,
    pub elsewhere: spec_fn(ClassDef, Seq<ExprV>, Seq<Seq<i64>>, Worths) -> Result<Option<Seq<(Seq<char>, ExprV)>>, Seq<char>>,
}

/// Whether each of them may be asked anything, and answers as `m` says.
pub open spec fn walks_true_to<
    A1: Fn(&ClassDef, &Expr) -> Expr,
    A2: Fn(&ClassDef, &str) -> Option<Expr>,
    A3: Fn(&ClassDef, &Table<Number>, &Table<Number>, Table<Vec<i64>>) -> Table<Vec<i64>>,
    A4: Fn(&ClassDef, &Expr, &Table<Expr>, &Table<Number>, &Table<Vec<i64>>, usize) -> Option<Number>,
    A5: Fn(&ClassDef, &Expr, &Table<Number>, &Table<Vec<i64>>, usize) -> Result<(Value, Vec<(Expr, String)>), String>,
    A6: Fn(&ClassDef, &Vec<Statement>, Table<Expr>, &Table<Number>, &Table<Vec<i64>>, usize) -> Result<Walked, String>,
    A7: Fn(&ClassDef, &Component) -> Option<Vec<String>>,
    A8: Fn(&ClassDef, &Component) -> Vec<String>,
    A9: Fn(&ClassDef, &Component) -> Vec<(String, Vec<i64>)>,
    B1: Fn(&ClassDef) -> Vec<String>,
    B2: Fn(&ClassDef, &Vec<Expr>, &Vec<Vec<i64>>, &Table<Number>) -> Result<Option<Vec<(String, Expr)>>, String>,
>(
    put: A1,
    filled: A2,
    measure: A3,
    settle: A4,
    spread: A5,
    walk: A6,
    fields: A7,
    single: A8,
    shaped: A9,
    held: B1,
    elsewhere: B2,
    m: WalkingV,
) -> bool {
    &&& forall|class: &ClassDef, e: &Expr| #[trigger] call_requires(put, (class, e))
    &&& forall|class: &ClassDef, e: &Expr, r: Expr| #[trigger]
        call_ensures(put, (class, e), r) ==> r.deep_view() == (m.put)(*class, e.deep_view())
    &&& forall|class: &ClassDef, name: &str| #[trigger] call_requires(filled, (class, name))
    &&& forall|class: &ClassDef, name: &str, r: Option<Expr>| #[trigger]
        call_ensures(filled, (class, name), r) ==> r.deep_view() == (m.filled)(*class, name@)
    &&& forall|
        class: &ClassDef,
        consts: &Table<Number>,
        given: &Table<Number>,
        sizes: Table<Vec<i64>>,
    | #[trigger] call_requires(measure, (class, consts, given, sizes))
    &&& forall|
        class: &ClassDef,
        consts: &Table<Number>,
        given: &Table<Number>,
        sizes: Table<Vec<i64>>,
        r: Table<Vec<i64>>,
    | #[trigger]
        call_ensures(
            measure,
            (class, consts, given, sizes),
            r,
        ) ==> r.deep_view() == (m.measure)(*class, consts.deep_view(), given.deep_view(), sizes.deep_view())
    &&& forall|
        class: &ClassDef,
        e: &Expr,
        bindings: &Table<Expr>,
        numbers: &Table<Number>,
        sizes: &Table<Vec<i64>>,
        depth: usize,
    | #[trigger] call_requires(settle, (class, e, bindings, numbers, sizes, depth))
    &&& forall|
        class: &ClassDef,
        e: &Expr,
        bindings: &Table<Expr>,
        numbers: &Table<Number>,
        sizes: &Table<Vec<i64>>,
        depth: usize,
        r: Option<Number>,
    | #[trigger]
        call_ensures(
            settle,
            (class, e, bindings, numbers, sizes, depth),
            r,
        ) ==> r == (m.settle)(*class, e.deep_view(), bindings.deep_view(), numbers.deep_view(), sizes.deep_view(), depth)
    &&& forall|
        class: &ClassDef,
        e: &Expr,
        consts: &Table<Number>,
        sizes: &Table<Vec<i64>>,
        depth: usize,
    | #[trigger] call_requires(spread, (class, e, consts, sizes, depth))
    &&& forall|
        class: &ClassDef,
        e: &Expr,
        consts: &Table<Number>,
        sizes: &Table<Vec<i64>>,
        depth: usize,
        r: Result<(Value, Vec<(Expr, String)>), String>,
    | #[trigger]
        call_ensures(
            spread,
            (class, e, consts, sizes, depth),
            r,
        ) ==> told(r) == (m.spread)(*class, e.deep_view(), consts.deep_view(), sizes.deep_view(), depth)
    &&& forall|
        class: &ClassDef,
        list: &Vec<Statement>,
        bindings: Table<Expr>,
        consts: &Table<Number>,
        sizes: &Table<Vec<i64>>,
        depth: usize,
    | #[trigger] call_requires(walk, (class, list, bindings, consts, sizes, depth))
    &&& forall|
        class: &ClassDef,
        list: &Vec<Statement>,
        bindings: Table<Expr>,
        consts: &Table<Number>,
        sizes: &Table<Vec<i64>>,
        depth: usize,
        r: Result<Walked, String>,
    | #[trigger]
        call_ensures(
            walk,
            (class, list, bindings, consts, sizes, depth),
            r,
        ) ==> told(r) == (m.walk)(*class, list@, bindings.deep_view(), consts.deep_view(), sizes.deep_view(), depth)
    &&& forall|class: &ClassDef, input: &Component| #[trigger] call_requires(fields, (class, input))
    &&& forall|class: &ClassDef, input: &Component, r: Option<Vec<String>>| #[trigger]
        call_ensures(
            fields,
            (class, input),
            r,
        ) ==> r.deep_view() == (m.fields)(*class, input.deep_view())
    &&& forall|class: &ClassDef, input: &Component| #[trigger] call_requires(single, (class, input))
    &&& forall|class: &ClassDef, input: &Component, r: Vec<String>| #[trigger]
        call_ensures(
            single,
            (class, input),
            r,
        ) ==> r.deep_view() == (m.single)(*class, input.deep_view())
    &&& forall|class: &ClassDef, input: &Component| #[trigger] call_requires(shaped, (class, input))
    &&& forall|class: &ClassDef, input: &Component, r: Vec<(String, Vec<i64>)>| #[trigger]
        call_ensures(
            shaped,
            (class, input),
            r,
        ) ==> r.deep_view() == (m.shaped)(*class, input.deep_view())
    &&& forall|record: &ClassDef| #[trigger] call_requires(held, (record,))
    &&& forall|record: &ClassDef, r: Vec<String>| #[trigger]
        call_ensures(held, (record,), r) ==> r.deep_view() == (m.held)(*record)
    &&& forall|
        class: &ClassDef,
        args: &Vec<Expr>,
        shapes: &Vec<Vec<i64>>,
        consts: &Table<Number>,
    | #[trigger] call_requires(elsewhere, (class, args, shapes, consts))
    &&& forall|
        class: &ClassDef,
        args: &Vec<Expr>,
        shapes: &Vec<Vec<i64>>,
        consts: &Table<Number>,
        r: Result<Option<Vec<(String, Expr)>>, String>,
    | #[trigger]
        call_ensures(
            elsewhere,
            (class, args, shapes, consts),
            r,
        ) ==> told(r) == (m.elsewhere)(*class, args.deep_view(), shapes.deep_view(), consts.deep_view())
}

/// Whether each of them may be asked anything, and answers as its model says.
pub open spec fn walks_true<
    A1: Fn(&ClassDef, &Expr) -> Expr,
    A2: Fn(&ClassDef, &str) -> Option<Expr>,
    A3: Fn(&ClassDef, &Table<Number>, &Table<Number>, Table<Vec<i64>>) -> Table<Vec<i64>>,
    A4: Fn(&ClassDef, &Expr, &Table<Expr>, &Table<Number>, &Table<Vec<i64>>, usize) -> Option<Number>,
    A5: Fn(&ClassDef, &Expr, &Table<Number>, &Table<Vec<i64>>, usize) -> Result<(Value, Vec<(Expr, String)>), String>,
    A6: Fn(&ClassDef, &Vec<Statement>, Table<Expr>, &Table<Number>, &Table<Vec<i64>>, usize) -> Result<Walked, String>,
    A7: Fn(&ClassDef, &Component) -> Option<Vec<String>>,
    A8: Fn(&ClassDef, &Component) -> Vec<String>,
    A9: Fn(&ClassDef, &Component) -> Vec<(String, Vec<i64>)>,
    B1: Fn(&ClassDef) -> Vec<String>,
    B2: Fn(&ClassDef, &Vec<Expr>, &Vec<Vec<i64>>, &Table<Number>) -> Result<Option<Vec<(String, Expr)>>, String>,
>(s: Walking<A1, A2, A3, A4, A5, A6, A7, A8, A9, B1, B2>) -> bool {
    walks_true_to(
        s.put,
        s.filled,
        s.measure,
        s.settle,
        s.spread,
        s.walk,
        s.fields,
        s.single,
        s.shaped,
        s.held,
        s.elsewhere,
        s.model@,
    )
}

/// What they answer, mathematically.
pub open spec fn walking_of<
    A1: Fn(&ClassDef, &Expr) -> Expr,
    A2: Fn(&ClassDef, &str) -> Option<Expr>,
    A3: Fn(&ClassDef, &Table<Number>, &Table<Number>, Table<Vec<i64>>) -> Table<Vec<i64>>,
    A4: Fn(&ClassDef, &Expr, &Table<Expr>, &Table<Number>, &Table<Vec<i64>>, usize) -> Option<Number>,
    A5: Fn(&ClassDef, &Expr, &Table<Number>, &Table<Vec<i64>>, usize) -> Result<(Value, Vec<(Expr, String)>), String>,
    A6: Fn(&ClassDef, &Vec<Statement>, Table<Expr>, &Table<Number>, &Table<Vec<i64>>, usize) -> Result<Walked, String>,
    A7: Fn(&ClassDef, &Component) -> Option<Vec<String>>,
    A8: Fn(&ClassDef, &Component) -> Vec<String>,
    A9: Fn(&ClassDef, &Component) -> Vec<(String, Vec<i64>)>,
    B1: Fn(&ClassDef) -> Vec<String>,
    B2: Fn(&ClassDef, &Vec<Expr>, &Vec<Vec<i64>>, &Table<Number>) -> Result<Option<Vec<(String, Expr)>>, String>,
>(s: Walking<A1, A2, A3, A4, A5, A6, A7, A8, A9, B1, B2>) -> WalkingV {
    s.model@
}

impl<
    A1: Fn(&ClassDef, &Expr) -> Expr,
    A2: Fn(&ClassDef, &str) -> Option<Expr>,
    A3: Fn(&ClassDef, &Table<Number>, &Table<Number>, Table<Vec<i64>>) -> Table<Vec<i64>>,
    A4: Fn(&ClassDef, &Expr, &Table<Expr>, &Table<Number>, &Table<Vec<i64>>, usize) -> Option<Number>,
    A5: Fn(&ClassDef, &Expr, &Table<Number>, &Table<Vec<i64>>, usize) -> Result<(Value, Vec<(Expr, String)>), String>,
    A6: Fn(&ClassDef, &Vec<Statement>, Table<Expr>, &Table<Number>, &Table<Vec<i64>>, usize) -> Result<Walked, String>,
    A7: Fn(&ClassDef, &Component) -> Option<Vec<String>>,
    A8: Fn(&ClassDef, &Component) -> Vec<String>,
    A9: Fn(&ClassDef, &Component) -> Vec<(String, Vec<i64>)>,
    B1: Fn(&ClassDef) -> Vec<String>,
    B2: Fn(&ClassDef, &Vec<Expr>, &Vec<Vec<i64>>, &Table<Number>) -> Result<Option<Vec<(String, Expr)>>, String>,
> Walking<A1, A2, A3, A4, A5, A6, A7, A8, A9, B1, B2> {
    /// The bundle of such functions, where there is anything they answer at all.
    pub fn new(
        put: A1,
        filled: A2,
        measure: A3,
        settle: A4,
        spread: A5,
        walk: A6,
        fields: A7,
        single: A8,
        shaped: A9,
        held: B1,
        elsewhere: B2,
    ) -> (r: Self)
        requires
            exists|m: WalkingV| #[trigger] walks_true_to(
                put,
                filled,
                measure,
                settle,
                spread,
                walk,
                fields,
                single,
                shaped,
                held,
                elsewhere,
                m,
            ),
        ensures
            walks_true(r),
            r.put == put,
            r.filled == filled,
            r.measure == measure,
            r.settle == settle,
            r.spread == spread,
            r.walk == walk,
            r.fields == fields,
            r.single == single,
            r.shaped == shaped,
            r.held == held,
            r.elsewhere == elsewhere,
    {
        Walking {
            put,
            filled,
            measure,
            settle,
            spread,
            walk,
            fields,
            single,
            shaped,
            held,
            elsewhere,
            model: Ghost(choose|m: WalkingV| #[trigger] walks_true_to(put, filled, measure, settle, spread, walk, fields, single, shaped, held, elsewhere, m)),
        }
    }

    pub fn do_put(&self, class: &ClassDef, e: &Expr) -> (r: Expr)
        requires
            walks_true(*self),
        ensures
            r.deep_view() == (walking_of(*self).put)(*class, e.deep_view()),
    {
        let f = &self.put;
        f(class, e)
    }

    pub fn do_filled(&self, class: &ClassDef, name: &str) -> (r: Option<Expr>)
        requires
            walks_true(*self),
        ensures
            r.deep_view() == (walking_of(*self).filled)(*class, name@),
    {
        let f = &self.filled;
        f(class, name)
    }

    pub fn do_measure(
        &self,
        class: &ClassDef,
        consts: &Table<Number>,
        given: &Table<Number>,
        sizes: Table<Vec<i64>>,
    ) -> (r: Table<Vec<i64>>)
        requires
            walks_true(*self),
        ensures
            r.deep_view() == (walking_of(*self).measure)(*class, consts.deep_view(), given.deep_view(), sizes.deep_view()),
    {
        let f = &self.measure;
        f(class, consts, given, sizes)
    }

    pub fn do_settle(
        &self,
        class: &ClassDef,
        e: &Expr,
        bindings: &Table<Expr>,
        numbers: &Table<Number>,
        sizes: &Table<Vec<i64>>,
        depth: usize,
    ) -> (r: Option<Number>)
        requires
            walks_true(*self),
        ensures
            r == (walking_of(*self).settle)(*class, e.deep_view(), bindings.deep_view(), numbers.deep_view(), sizes.deep_view(), depth),
    {
        let f = &self.settle;
        f(class, e, bindings, numbers, sizes, depth)
    }

    pub fn do_spread(
        &self,
        class: &ClassDef,
        e: &Expr,
        consts: &Table<Number>,
        sizes: &Table<Vec<i64>>,
        depth: usize,
    ) -> (r: Result<(Value, Vec<(Expr, String)>), String>)
        requires
            walks_true(*self),
        ensures
            told(
                r,
            ) == (walking_of(*self).spread)(*class, e.deep_view(), consts.deep_view(), sizes.deep_view(), depth),
    {
        let f = &self.spread;
        f(class, e, consts, sizes, depth)
    }

    pub fn do_walk(
        &self,
        class: &ClassDef,
        list: &Vec<Statement>,
        bindings: Table<Expr>,
        consts: &Table<Number>,
        sizes: &Table<Vec<i64>>,
        depth: usize,
    ) -> (r: Result<Walked, String>)
        requires
            walks_true(*self),
        ensures
            told(
                r,
            ) == (walking_of(*self).walk)(*class, list@, bindings.deep_view(), consts.deep_view(), sizes.deep_view(), depth),
    {
        let f = &self.walk;
        f(class, list, bindings, consts, sizes, depth)
    }

    pub fn do_fields(&self, class: &ClassDef, input: &Component) -> (r: Option<Vec<String>>)
        requires
            walks_true(*self),
        ensures
            r.deep_view() == (walking_of(*self).fields)(*class, input.deep_view()),
    {
        let f = &self.fields;
        f(class, input)
    }

    pub fn do_single(&self, class: &ClassDef, input: &Component) -> (r: Vec<String>)
        requires
            walks_true(*self),
        ensures
            r.deep_view() == (walking_of(*self).single)(*class, input.deep_view()),
    {
        let f = &self.single;
        f(class, input)
    }

    pub fn do_shaped(&self, class: &ClassDef, input: &Component) -> (r: Vec<(String, Vec<i64>)>)
        requires
            walks_true(*self),
        ensures
            r.deep_view() == (walking_of(*self).shaped)(*class, input.deep_view()),
    {
        let f = &self.shaped;
        f(class, input)
    }

    pub fn do_held(&self, record: &ClassDef) -> (r: Vec<String>)
        requires
            walks_true(*self),
        ensures
            r.deep_view() == (walking_of(*self).held)(*record),
    {
        let f = &self.held;
        f(record)
    }

    pub fn do_elsewhere(
        &self,
        class: &ClassDef,
        args: &Vec<Expr>,
        shapes: &Vec<Vec<i64>>,
        consts: &Table<Number>,
    ) -> (r: Result<Option<Vec<(String, Expr)>>, String>)
        requires
            walks_true(*self),
        ensures
            told(
                r,
            ) == (walking_of(*self).elsewhere)(*class, args.deep_view(), shapes.deep_view(), consts.deep_view()),
    {
        let f = &self.elsewhere;
        f(class, args, shapes, consts)
    }
}

/// What a call is worked out with.
pub ghost struct BodyV<'a> {
    pub h: WalkingV,
    pub v: SumsV,
    pub classes: Seq<&'a ClassDef>,
    pub class: ClassDef,
    pub mark: Option<Seq<char>>,
    pub consts: Worths,
    pub landed: Seq<char>,
    pub depth: usize,
}

/// What is fixed while a body is worked out: the class, the scope it was asked
/// under, the numbers in view, what is said of where names landed, and how
/// deep the asking is.
pub struct Asking<'b> {
    pub class: &'b ClassDef,
    pub mark: &'b Option<String>,
    pub consts: &'b Table<Number>,
    pub landed: &'b str,
    pub depth: usize,
}

pub open spec fn body_desk<'a, 'b,
    A1: Fn(&ClassDef, &Expr) -> Expr,
    A2: Fn(&ClassDef, &str) -> Option<Expr>,
    A3: Fn(&ClassDef, &Table<Number>, &Table<Number>, Table<Vec<i64>>) -> Table<Vec<i64>>,
    A4: Fn(&ClassDef, &Expr, &Table<Expr>, &Table<Number>, &Table<Vec<i64>>, usize) -> Option<Number>,
    A5: Fn(&ClassDef, &Expr, &Table<Number>, &Table<Vec<i64>>, usize) -> Result<(Value, Vec<(Expr, String)>), String>,
    A6: Fn(&ClassDef, &Vec<Statement>, Table<Expr>, &Table<Number>, &Table<Vec<i64>>, usize) -> Result<Walked, String>,
    A7: Fn(&ClassDef, &Component) -> Option<Vec<String>>,
    A8: Fn(&ClassDef, &Component) -> Vec<String>,
    A9: Fn(&ClassDef, &Component) -> Vec<(String, Vec<i64>)>,
    B1: Fn(&ClassDef) -> Vec<String>,
    B2: Fn(&ClassDef, &Vec<Expr>, &Vec<Vec<i64>>, &Table<Number>) -> Result<Option<Vec<(String, Expr)>>, String>,
    W: Fn(Arith, Number, Number) -> Number,
    O: Fn(&str, &Vec<Number>) -> Option<Vec<Number>>,
    N: Fn(&str) -> String,
>(
    h: Walking<A1, A2, A3, A4, A5, A6, A7, A8, A9, B1, B2>,
    sums: Sums<W, O, N>,
    classes: Seq<&'a ClassDef>,
    q: Asking<'b>,
) -> BodyV<'a> {
    BodyV {
        h: walking_of(h),
        v: sums_of(sums),
        classes,
        class: *q.class,
        mark: q.mark.deep_view(),
        consts: q.consts.deep_view(),
        landed: q.landed@,
        depth: q.depth,
    }
}

/// The declarations of one causality.
pub open spec fn of_causality(list: Seq<ComponentV>, wanted: Causality) -> Seq<ComponentV>
    decreases list.len(),
{
    if list.len() == 0 {
        Seq::empty()
    } else if list.last().causality == wanted {
        of_causality(list.drop_last(), wanted).push(list.last())
    } else {
        of_causality(list.drop_last(), wanted)
    }
}

fn pick_causality(list: &Vec<Component>, wanted: Causality) -> (r: Vec<Component>)
    ensures
        r.deep_view() == of_causality(list.deep_view(), wanted),
{
    let ghost all = list.deep_view();
    let mut out: Vec<Component> = Vec::new();
    let mut i: usize = 0;
    assert(out.deep_view() =~= of_causality(all.take(0), wanted));
    while i < list.len()
        invariant
            i <= list.len(),
            all == list.deep_view(),
            out.deep_view() == of_causality(all.take(i as int), wanted),
        decreases list.len() - i,
    {
        let ghost before = out.deep_view();
        assert(all.take(i + 1).drop_last() =~= all.take(i as int));
        assert(all[i as int] == list@[i as int].deep_view());
        if list[i].causality == wanted {
            out.push(list[i].clone());
            assert(out.deep_view() =~= before.push(all[i as int]));
        }
        i = i + 1;
    }
    assert(all.take(i as int) =~= all);
    out
}

pub open spec fn is_among(list: Seq<ComponentV>, name: Seq<char>) -> bool {
    exists|i: int| 0 <= i < list.len() && (#[trigger] list[i]).name == name
}

fn is_named(list: &Vec<Component>, name: &str) -> (r: bool)
    ensures
        r == is_among(list.deep_view(), name@),
{
    let ghost all = list.deep_view();
    let mut i: usize = 0;
    while i < list.len()
        invariant
            i <= list.len(),
            all == list.deep_view(),
            forall|k: int| 0 <= k < i ==> (#[trigger] all[k]).name != name@,
        decreases list.len() - i,
    {
        assert(all[i as int] == list@[i as int].deep_view());
        if same(list[i].name.as_str(), name) {
            assert(all[i as int].name == name@);
            return true;
        }
        i = i + 1;
    }
    false
}

/// What is bound while the arguments are read: the names, the lengths, whether
/// a named one was seen, and which input is next.
pub ghost struct BindingV {
    pub bound: Bound,
    pub lengths: Lengths,
    pub named_seen: bool,
    pub position: nat,
}

/// A table with the fields of a record given as a list, the first `n` of them.
pub open spec fn fields_listed(
    bound: Bound,
    input: Seq<char>,
    fields: Seq<Seq<char>>,
    items: Seq<ExprV>,
    n: nat,
) -> Bound
    decreases n,
{
    if n == 0 || n > fields.len() || n > items.len() {
        bound
    } else {
        let before = fields_listed(bound, input, fields, items, (n - 1) as nat);
        let here = input + "."@ + fields[n - 1];
        elements_put(before, here, items[n - 1], Seq::empty()).insert(here, items[n - 1])
    }
}

/// A table with the single-number fields of a record given by name, the first
/// `n` of them.
pub open spec fn fields_named(
    bound: Bound,
    input: Seq<char>,
    given: Seq<char>,
    fields: Seq<Seq<char>>,
    n: nat,
) -> Bound
    decreases n,
{
    if n == 0 || n > fields.len() {
        bound
    } else {
        fields_named(bound, input, given, fields, (n - 1) as nat).insert(
            input + "."@ + fields[n - 1],
            ExprV::Ref(given + "."@ + fields[n - 1]),
        )
    }
}

/// A table with the first `n` elements of one array bound to those of another.
pub open spec fn elements_bound(
    bound: Bound,
    here: Seq<char>,
    there: Seq<char>,
    tuples: Seq<Seq<i64>>,
    n: nat,
) -> Bound
    decreases n,
{
    if n == 0 || n > tuples.len() {
        bound
    } else {
        elements_bound(bound, here, there, tuples, (n - 1) as nat).insert(
            element_of(here, tuples[n - 1]),
            ExprV::Ref(element_of(there, tuples[n - 1])),
        )
    }
}

/// A table with the fields of a record given by name that have dimensions, the
/// first `n` of them: element by element as well as whole.
pub open spec fn shapes_named(
    bound: Bound,
    input: Seq<char>,
    given: Seq<char>,
    fields: Seq<(Seq<char>, Seq<i64>)>,
    n: nat,
) -> Bound
    decreases n,
{
    if n == 0 || n > fields.len() {
        bound
    } else {
        let before = shapes_named(bound, input, given, fields, (n - 1) as nat);
        let here = input + "."@ + fields[n - 1].0;
        let there = given + "."@ + fields[n - 1].0;
        let tuples = tuples_of(fields[n - 1].1);
        elements_bound(before, here, there, tuples, tuples.len()).insert(
            here,
            spread_as(there, fields[n - 1].1, Seq::empty()),
        )
    }
}

fn list_fields(bound: &mut Table<Expr>, input: &str, fields: &Vec<String>, items: &Vec<Expr>)
    requires
        fields@.len() == items@.len(),
    ensures
        final(bound).deep_view() == fields_listed(
            old(bound).deep_view(),
            input@,
            fields.deep_view(),
            items.deep_view(),
            items@.len(),
        ),
{
    let ghost was = bound.deep_view();
    let ghost fv = fields.deep_view();
    let ghost all = items.deep_view();
    let mut i: usize = 0;
    while i < items.len()
        invariant
            i <= items.len(),
            fields@.len() == items@.len(),
            fv == fields.deep_view(),
            all == items.deep_view(),
            bound.deep_view() == fields_listed(was, input@, fv, all, i as nat),
        decreases items.len() - i,
    {
        assert(fv[i as int] == fields@[i as int]@);
        assert(all[i as int] == items@[i as int].deep_view());
        let here = join3(input, ".", fields[i].as_str());
        let mut path: Vec<i64> = Vec::new();
        assert(path@ =~= Seq::empty());
        by_element(here.as_str(), &items[i], &mut path, bound);
        bound.put(here, items[i].clone());
        i = i + 1;
    }
}

fn name_fields(bound: &mut Table<Expr>, input: &str, given: &str, fields: &Vec<String>)
    ensures
        final(bound).deep_view() == fields_named(
            old(bound).deep_view(),
            input@,
            given@,
            fields.deep_view(),
            fields@.len(),
        ),
{
    let ghost was = bound.deep_view();
    let ghost fv = fields.deep_view();
    let mut i: usize = 0;
    while i < fields.len()
        invariant
            i <= fields.len(),
            fv == fields.deep_view(),
            bound.deep_view() == fields_named(was, input@, given@, fv, i as nat),
        decreases fields.len() - i,
    {
        assert(fv[i as int] == fields@[i as int]@);
        let here = join3(input, ".", fields[i].as_str());
        let there = join3(given, ".", fields[i].as_str());
        bound.put(here, make::name(there));
        i = i + 1;
    }
}

fn bind_elements(bound: &mut Table<Expr>, here: &str, there: &str, tuples: &Vec<Vec<i64>>)
    ensures
        final(bound).deep_view() == elements_bound(
            old(bound).deep_view(),
            here@,
            there@,
            tuples.deep_view(),
            tuples@.len(),
        ),
{
    let ghost was = bound.deep_view();
    let ghost tv = tuples.deep_view();
    let mut i: usize = 0;
    while i < tuples.len()
        invariant
            i <= tuples.len(),
            tv == tuples.deep_view(),
            bound.deep_view() == elements_bound(was, here@, there@, tv, i as nat),
        decreases tuples.len() - i,
    {
        assert(tv[i as int] == tuples@[i as int].deep_view());
        assert(tuples@[i as int].deep_view() =~= tuples@[i as int]@);
        let source = make::name(element_name(there, &tuples[i]));
        bound.put(element_name(here, &tuples[i]), source);
        i = i + 1;
    }
}

fn name_shapes(bound: &mut Table<Expr>, input: &str, given: &str, fields: &Vec<(String, Vec<i64>)>)
    ensures
        final(bound).deep_view() == shapes_named(
            old(bound).deep_view(),
            input@,
            given@,
            fields.deep_view(),
            fields@.len(),
        ),
{
    let ghost was = bound.deep_view();
    let ghost fv = fields.deep_view();
    let mut i: usize = 0;
    while i < fields.len()
        invariant
            i <= fields.len(),
            fv == fields.deep_view(),
            bound.deep_view() == shapes_named(was, input@, given@, fv, i as nat),
        decreases fields.len() - i,
    {
        assert(fv[i as int] == fields@[i as int].deep_view());
        assert(fields@[i as int].1.deep_view() =~= fields@[i as int].1@);
        let here = join3(input, ".", fields[i].0.as_str());
        let there = join3(given, ".", fields[i].0.as_str());
        let shape = &fields[i].1;
        let tuples = index_tuples(shape);
        assert(tuples.deep_view().len() == tuples@.len());
        bind_elements(bound, here.as_str(), there.as_str(), &tuples);
        let mut path: Vec<i64> = Vec::new();
        assert(path@ =~= Seq::empty());
        let whole = spread_out(there.as_str(), shape, 0, &mut path);
        assert(shape@.skip(0) =~= shape@);
        bound.put(here, whole);
        i = i + 1;
    }
}

/// The lengths with those of one argument: a `[:]` input is as long as
/// whatever was handed to it, under the caller's name too.
pub open spec fn lengths_with(
    lengths: Lengths,
    input: ComponentV,
    arg: ExprV,
    shapes: Seq<Seq<i64>>,
    index: nat,
) -> Lengths {
    if input.dimensions.len() > 0 && index < shapes.len() && shapes[index as int].len() > 0 {
        let own = lengths.insert(input.name, shapes[index as int]);
        match arg {
            ExprV::Ref(given) => own.insert(given, shapes[index as int]),
            _ => own,
        }
    } else {
        lengths
    }
}

/// One argument given in order.
pub open spec fn positional_bound(
    k: BodyV,
    before: BindingV,
    inputs: Seq<ComponentV>,
    arg: ExprV,
    shapes: Seq<Seq<i64>>,
    index: nat,
) -> Result<BindingV, Seq<char>> {
    if before.named_seen {
        Err(
            "function `"@ + k.class.name@
                + "`: positional arguments must come before named ones"@,
        )
    } else if before.position >= inputs.len() {
        Err(
            "function `"@ + k.class.name@ + "` expects "@ + digits(inputs.len())
                + " argument(s), got more"@,
        )
    } else {
        let input = inputs[before.position as int];
        let lengths = lengths_with(before.lengths, input, arg, shapes, index);
        let fields = if input.dimensions.len() == 0 {
            (k.h.fields)(k.class, input)
        } else {
            None
        };
        match (fields, arg) {
            (Some(fields), ExprV::Array(items)) => if items.len() != fields.len() {
                Err(
                    "function `"@ + k.class.name@ + "` wants "@ + digits(fields.len())
                        + " field(s) for `"@ + input.name + "`, got "@ + digits(items.len())
                        + k.landed,
                )
            } else {
                Ok(
                    BindingV {
                        bound: fields_listed(
                            before.bound,
                            input.name,
                            fields,
                            items,
                            items.len(),
                        ),
                        lengths,
                        named_seen: false,
                        position: before.position + 1,
                    },
                )
            },
            (Some(fields), ExprV::Ref(given)) => {
                let single = (k.h.single)(k.class, input);
                let shaped = (k.h.shaped)(k.class, input);
                Ok(
                    BindingV {
                        bound: shapes_named(
                            fields_named(
                                before.bound,
                                input.name,
                                given,
                                single,
                                single.len(),
                            ),
                            input.name,
                            given,
                            shaped,
                            shaped.len(),
                        ).insert(input.name, arg),
                        lengths,
                        named_seen: false,
                        position: before.position + 1,
                    },
                )
            },
            _ => Ok(
                BindingV {
                    bound: before.bound.insert(input.name, arg),
                    lengths,
                    named_seen: false,
                    position: before.position + 1,
                },
            ),
        }
    }
}

/// One argument given by name.
pub open spec fn named_bound(
    k: BodyV,
    before: BindingV,
    inputs: Seq<ComponentV>,
    name: Seq<char>,
    value: ExprV,
) -> Result<BindingV, Seq<char>> {
    if !is_among(inputs, name) {
        Err("function `"@ + k.class.name@ + "` has no input named `"@ + name + "`"@)
    } else if before.bound.contains_key(name) {
        Err("argument `"@ + name + "` of function `"@ + k.class.name@ + "` is given twice"@)
    } else {
        Ok(BindingV { bound: before.bound.insert(name, value), named_seen: true, ..before })
    }
}

/// The first `n` arguments of a call, under the names the body knows them by.
pub open spec fn arguments_bound(
    k: BodyV,
    inputs: Seq<ComponentV>,
    args: Seq<ExprV>,
    shapes: Seq<Seq<i64>>,
    n: nat,
) -> Result<BindingV, Seq<char>>
    decreases n,
{
    if n == 0 || n > args.len() {
        Ok(
            BindingV {
                bound: Map::empty(),
                lengths: Map::empty(),
                named_seen: false,
                position: 0,
            },
        )
    } else {
        match arguments_bound(k, inputs, args, shapes, (n - 1) as nat) {
            Err(why) => Err(why),
            Ok(before) => match args[n - 1] {
                ExprV::NamedArg(name, value) => named_bound(k, before, inputs, name, *value),
                arg => positional_bound(k, before, inputs, arg, shapes, (n - 1) as nat),
            },
        }
    }
}

proof fn lemma_arguments_bound_stops(
    k: BodyV,
    inputs: Seq<ComponentV>,
    args: Seq<ExprV>,
    shapes: Seq<Seq<i64>>,
    n: nat,
    all: nat,
)
    requires
        n <= all <= args.len(),
        arguments_bound(k, inputs, args, shapes, n) is Err,
    ensures
        arguments_bound(
            k,
            inputs,
            args,
            shapes,
            all,
        ) == arguments_bound(k, inputs, args, shapes, n),
    decreases all,
{
    if n < all {
        lemma_arguments_bound_stops(k, inputs, args, shapes, n, (all - 1) as nat);
    }
}

/// What is bound while the arguments are read, as it is held.
struct Binding {
    bound: Table<Expr>,
    lengths: Table<Vec<i64>>,
    named_seen: bool,
    position: usize,
}

impl Binding {
    spec fn shape(self) -> BindingV {
        BindingV {
            bound: self.bound.deep_view(),
            lengths: self.lengths.deep_view(),
            named_seen: self.named_seen,
            position: self.position as nat,
        }
    }
}

spec fn binding_told(r: Result<Binding, String>) -> Result<BindingV, Seq<char>> {
    match r {
        Ok(made) => Ok(made.shape()),
        Err(why) => Err(why@),
    }
}

fn put_lengths(
    lengths: &mut Table<Vec<i64>>,
    input: &Component,
    arg: &Expr,
    shapes: &Vec<Vec<i64>>,
    index: usize,
)
    ensures
        final(lengths).deep_view() == lengths_with(
            old(lengths).deep_view(),
            input.deep_view(),
            arg.deep_view(),
            shapes.deep_view(),
            index as nat,
        ),
{
    let ghost sv = shapes.deep_view();
    assert(input.deep_view().dimensions.len() == input.dimensions@.len());
    assert(sv.len() == shapes@.len());
    if input.dimensions.len() > 0 && index < shapes.len() {
        assert(sv[index as int] == shapes@[index as int].deep_view());
        assert(shapes@[index as int].deep_view() =~= shapes@[index as int]@);
        if shapes[index].len() > 0 {
            let copy = same_indices(&shapes[index]);
            assert(copy.deep_view() =~= sv[index as int]);
            lengths.put(input.name.clone(), copy);
            if let Expr::Ref(given) = arg {
                let copy = same_indices(&shapes[index]);
                assert(copy.deep_view() =~= sv[index as int]);
                lengths.put(given.clone(), copy);
            }
        }
    }
}

fn bind_positional<
    A1: Fn(&ClassDef, &Expr) -> Expr,
    A2: Fn(&ClassDef, &str) -> Option<Expr>,
    A3: Fn(&ClassDef, &Table<Number>, &Table<Number>, Table<Vec<i64>>) -> Table<Vec<i64>>,
    A4: Fn(&ClassDef, &Expr, &Table<Expr>, &Table<Number>, &Table<Vec<i64>>, usize) -> Option<Number>,
    A5: Fn(&ClassDef, &Expr, &Table<Number>, &Table<Vec<i64>>, usize) -> Result<(Value, Vec<(Expr, String)>), String>,
    A6: Fn(&ClassDef, &Vec<Statement>, Table<Expr>, &Table<Number>, &Table<Vec<i64>>, usize) -> Result<Walked, String>,
    A7: Fn(&ClassDef, &Component) -> Option<Vec<String>>,
    A8: Fn(&ClassDef, &Component) -> Vec<String>,
    A9: Fn(&ClassDef, &Component) -> Vec<(String, Vec<i64>)>,
    B1: Fn(&ClassDef) -> Vec<String>,
    B2: Fn(&ClassDef, &Vec<Expr>, &Vec<Vec<i64>>, &Table<Number>) -> Result<Option<Vec<(String, Expr)>>, String>,
    W: Fn(Arith, Number, Number) -> Number,
    O: Fn(&str, &Vec<Number>) -> Option<Vec<Number>>,
    N: Fn(&str) -> String,
>(
    h: &Walking<A1, A2, A3, A4, A5, A6, A7, A8, A9, B1, B2>,
    sums: &Sums<W, O, N>,
    registry: &Registry,
    q: &Asking,
    before: Binding,
    inputs: &Vec<Component>,
    arg: &Expr,
    shapes: &Vec<Vec<i64>>,
    index: usize,
) -> (r: Result<Binding, String>)
    requires
        walks_true(*h),
        is_steady(*sums),
        before.position <= index,
        index < usize::MAX,
    ensures
        binding_told(r) == positional_bound(
            body_desk(*h, *sums, registry@, *q),
            before.shape(),
            inputs.deep_view(),
            arg.deep_view(),
            shapes.deep_view(),
            index as nat,
        ),
        r matches Ok(made) ==> made.position <= index + 1,
{
    let ghost iv = inputs.deep_view();
    assert(iv.len() == inputs@.len());
    let Binding { mut bound, mut lengths, named_seen, position } = before;
    if named_seen {
        return Err(
            join3(
                "function `",
                q.class.name.as_str(),
                "`: positional arguments must come before named ones",
            ),
        );
    }
    if position >= inputs.len() {
        let count = decimal(inputs.len() as u64);
        return Err(
            join5(
                "function `",
                q.class.name.as_str(),
                "` expects ",
                count.as_str(),
                " argument(s), got more",
            ),
        );
    }
    let input = &inputs[position];
    assert(iv[position as int] == input.deep_view());
    assert(input.deep_view().dimensions.len() == input.dimensions@.len());
    put_lengths(&mut lengths, input, arg, shapes, index);
    let fields: Option<Vec<String>> = if input.dimensions.len() == 0 {
        h.do_fields(q.class, input)
    } else {
        None
    };
    if let Some(fields) = &fields {
        assert(fields.deep_view().len() == fields@.len());
        if let Expr::Array(items) = arg {
            proof {
                lemma_views(*items);
            }
            assert(items.deep_view().len() == items@.len());
            if items.len() != fields.len() {
                let a = decimal(fields.len() as u64);
                let b = decimal(items.len() as u64);
                let said = join7(
                    "function `",
                    q.class.name.as_str(),
                    "` wants ",
                    a.as_str(),
                    " field(s) for `",
                    input.name.as_str(),
                    "`, got ",
                );
                return Err(join3(said.as_str(), b.as_str(), q.landed));
            }
            list_fields(&mut bound, input.name.as_str(), fields, items);
            return Ok(Binding { bound, lengths, named_seen: false, position: position + 1 });
        }
        if let Expr::Ref(given) = arg {
            let single = h.do_single(q.class, input);
            assert(single.deep_view().len() == single@.len());
            name_fields(&mut bound, input.name.as_str(), given.as_str(), &single);
            let shaped = h.do_shaped(q.class, input);
            assert(shaped.deep_view().len() == shaped@.len());
            name_shapes(&mut bound, input.name.as_str(), given.as_str(), &shaped);
        }
    }
    bound.put(input.name.clone(), arg.clone());
    Ok(Binding { bound, lengths, named_seen: false, position: position + 1 })
}

/// What the call handed over, under the names the body knows them by.
///
/// An argument may be given in order or by name; a record arrives as its
/// fields, since the body reads them by name; and a `[:]` input is as long as
/// whatever was handed to it.
fn bind_the_arguments<
    A1: Fn(&ClassDef, &Expr) -> Expr,
    A2: Fn(&ClassDef, &str) -> Option<Expr>,
    A3: Fn(&ClassDef, &Table<Number>, &Table<Number>, Table<Vec<i64>>) -> Table<Vec<i64>>,
    A4: Fn(&ClassDef, &Expr, &Table<Expr>, &Table<Number>, &Table<Vec<i64>>, usize) -> Option<Number>,
    A5: Fn(&ClassDef, &Expr, &Table<Number>, &Table<Vec<i64>>, usize) -> Result<(Value, Vec<(Expr, String)>), String>,
    A6: Fn(&ClassDef, &Vec<Statement>, Table<Expr>, &Table<Number>, &Table<Vec<i64>>, usize) -> Result<Walked, String>,
    A7: Fn(&ClassDef, &Component) -> Option<Vec<String>>,
    A8: Fn(&ClassDef, &Component) -> Vec<String>,
    A9: Fn(&ClassDef, &Component) -> Vec<(String, Vec<i64>)>,
    B1: Fn(&ClassDef) -> Vec<String>,
    B2: Fn(&ClassDef, &Vec<Expr>, &Vec<Vec<i64>>, &Table<Number>) -> Result<Option<Vec<(String, Expr)>>, String>,
    W: Fn(Arith, Number, Number) -> Number,
    O: Fn(&str, &Vec<Number>) -> Option<Vec<Number>>,
    N: Fn(&str) -> String,
>(
    h: &Walking<A1, A2, A3, A4, A5, A6, A7, A8, A9, B1, B2>,
    sums: &Sums<W, O, N>,
    registry: &Registry,
    q: &Asking,
    inputs: &Vec<Component>,
    args: &Vec<Expr>,
    shapes: &Vec<Vec<i64>>,
) -> (r: Result<Binding, String>)
    requires
        walks_true(*h),
        is_steady(*sums),
    ensures
        binding_told(r) == arguments_bound(
            body_desk(*h, *sums, registry@, *q),
            inputs.deep_view(),
            args.deep_view(),
            shapes.deep_view(),
            args@.len(),
        ),
{
    let ghost k = body_desk(*h, *sums, registry@, *q);
    let ghost iv = inputs.deep_view();
    let ghost all = args.deep_view();
    let ghost sv = shapes.deep_view();
    let mut now = Binding {
        bound: Table::new(),
        lengths: Table::new(),
        named_seen: false,
        position: 0,
    };
    let mut i: usize = 0;
    while i < args.len()
        invariant
            i <= args.len(),
            walks_true(*h),
            is_steady(*sums),
            k == body_desk(*h, *sums, registry@, *q),
            iv == inputs.deep_view(),
            all == args.deep_view(),
            sv == shapes.deep_view(),
            now.position <= i,
            arguments_bound(k, iv, all, sv, i as nat) == Ok::<BindingV, Seq<char>>(now.shape()),
        decreases args.len() - i,
    {
        assert(all[i as int] == args@[i as int].deep_view());
        proof {
            if arguments_bound(k, iv, all, sv, (i + 1) as nat) is Err {
                lemma_arguments_bound_stops(k, iv, all, sv, (i + 1) as nat, all.len());
            }
        }
        if let Expr::NamedArg(name, value) = &args[i] {
            assert((**value).deep_view() == expr_view(**value));
            if !is_named(inputs, name.as_str()) {
                return Err(
                    join5(
                        "function `",
                        q.class.name.as_str(),
                        "` has no input named `",
                        name.as_str(),
                        "`",
                    ),
                );
            }
            if now.bound.has(name.as_str()) {
                return Err(
                    join5(
                        "argument `",
                        name.as_str(),
                        "` of function `",
                        q.class.name.as_str(),
                        "` is given twice",
                    ),
                );
            }
            now.bound.put(name.clone(), (**value).clone());
            now.named_seen = true;
        } else {
            match bind_positional(h, sums, registry, q, now, inputs, &args[i], shapes, i) {
                Err(why) => return Err(why),
                Ok(next) => {
                    now = next;
                },
            }
        }
        i = i + 1;
    }
    Ok(now)
}

/// Whether an input was given: by its own name, or field by field.
pub open spec fn is_bound(bound: Bound, name: Seq<char>) -> bool {
    bound.contains_key(name) || exists|other: Seq<char>| #[trigger]
        bound.contains_key(other) && begins_with(other, name + "."@)
}

fn has_bound(bound: &Table<Expr>, name: &str) -> (r: bool)
    ensures
        r == is_bound(bound.deep_view(), name@),
{
    if bound.has(name) {
        return true;
    }
    let head = join2(name, ".");
    let ghost all = bound.entries.deep_view();
    let mut i: usize = 0;
    while i < bound.entries.len()
        invariant
            i <= bound.entries.len(),
            all == bound.entries.deep_view(),
            head@ == name@ + "."@,
            forall|k: int| 0 <= k < i ==> !begins_with((#[trigger] all[k]).0, head@),
        decreases bound.entries.len() - i,
    {
        assert(all[i as int] == bound.entries@[i as int].deep_view());
        if starts(bound.entries[i].0.as_str(), head.as_str()) {
            proof {
                lemma_is_entered(all, i as int);
                assert(bound.deep_view().contains_key(all[i as int].0));
            }
            return true;
        }
        i = i + 1;
    }
    proof {
        assert forall|other: Seq<char>| #[trigger]
            bound.deep_view().contains_key(other) implies !begins_with(other, name@ + "."@) by {
            let at = lemma_entry_of(all, other);
            assert(all[at].0 == other);
        }
    }
    false
}

/// The names with whatever the call left unsaid of the first `n` inputs.
/// Defaults may name earlier inputs, so they are read against what is bound.
pub open spec fn defaults_bound(k: BodyV, start: Bound, inputs: Seq<ComponentV>, n: nat) -> Result<
    Bound,
    Seq<char>,
>
    decreases n,
{
    if n == 0 || n > inputs.len() {
        Ok(start)
    } else {
        match defaults_bound(k, start, inputs, (n - 1) as nat) {
            Err(why) => Err(why),
            Ok(before) => if is_bound(before, inputs[n - 1].name) {
                Ok(before)
            } else {
                match (k.h.filled)(k.class, inputs[n - 1].name) {
                    Some(value) => Ok(before.insert(inputs[n - 1].name, value)),
                    None => match inputs[n - 1].binding {
                        None => Err(
                            "function `"@ + k.class.name@ + "` is missing its argument `"@
                                + inputs[n - 1].name + "`"@,
                        ),
                        Some(default) => Ok(
                            before.insert(
                                inputs[n - 1].name,
                                substituted((k.h.put)(k.class, default), before),
                            ),
                        ),
                    },
                }
            },
        }
    }
}

proof fn lemma_defaults_bound_stops(
    k: BodyV,
    start: Bound,
    inputs: Seq<ComponentV>,
    n: nat,
    all: nat,
)
    requires
        n <= all <= inputs.len(),
        defaults_bound(k, start, inputs, n) is Err,
    ensures
        defaults_bound(k, start, inputs, all) == defaults_bound(k, start, inputs, n),
    decreases all,
{
    if n < all {
        lemma_defaults_bound_stops(k, start, inputs, n, (all - 1) as nat);
    }
}

fn bind_defaults<
    A1: Fn(&ClassDef, &Expr) -> Expr,
    A2: Fn(&ClassDef, &str) -> Option<Expr>,
    A3: Fn(&ClassDef, &Table<Number>, &Table<Number>, Table<Vec<i64>>) -> Table<Vec<i64>>,
    A4: Fn(&ClassDef, &Expr, &Table<Expr>, &Table<Number>, &Table<Vec<i64>>, usize) -> Option<Number>,
    A5: Fn(&ClassDef, &Expr, &Table<Number>, &Table<Vec<i64>>, usize) -> Result<(Value, Vec<(Expr, String)>), String>,
    A6: Fn(&ClassDef, &Vec<Statement>, Table<Expr>, &Table<Number>, &Table<Vec<i64>>, usize) -> Result<Walked, String>,
    A7: Fn(&ClassDef, &Component) -> Option<Vec<String>>,
    A8: Fn(&ClassDef, &Component) -> Vec<String>,
    A9: Fn(&ClassDef, &Component) -> Vec<(String, Vec<i64>)>,
    B1: Fn(&ClassDef) -> Vec<String>,
    B2: Fn(&ClassDef, &Vec<Expr>, &Vec<Vec<i64>>, &Table<Number>) -> Result<Option<Vec<(String, Expr)>>, String>,
    W: Fn(Arith, Number, Number) -> Number,
    O: Fn(&str, &Vec<Number>) -> Option<Vec<Number>>,
    N: Fn(&str) -> String,
>(
    h: &Walking<A1, A2, A3, A4, A5, A6, A7, A8, A9, B1, B2>,
    sums: &Sums<W, O, N>,
    registry: &Registry,
    q: &Asking,
    bound: Table<Expr>,
    inputs: &Vec<Component>,
) -> (r: Result<Table<Expr>, String>)
    requires
        walks_true(*h),
        is_steady(*sums),
    ensures
        told(r) == defaults_bound(
            body_desk(*h, *sums, registry@, *q),
            bound.deep_view(),
            inputs.deep_view(),
            inputs@.len(),
        ),
{
    let ghost k = body_desk(*h, *sums, registry@, *q);
    let ghost start = bound.deep_view();
    let ghost all = inputs.deep_view();
    let mut now = bound;
    let mut i: usize = 0;
    while i < inputs.len()
        invariant
            i <= inputs.len(),
            walks_true(*h),
            k == body_desk(*h, *sums, registry@, *q),
            start == bound.deep_view(),
            all == inputs.deep_view(),
            defaults_bound(k, start, all, i as nat) == Ok::<Bound, Seq<char>>(now.deep_view()),
        decreases inputs.len() - i,
    {
        let input = &inputs[i];
        assert(all[i as int] == input.deep_view());
        if !has_bound(&now, input.name.as_str()) {
            match h.do_filled(q.class, input.name.as_str()) {
                Some(value) => {
                    now.put(input.name.clone(), value);
                },
                None => match &input.binding {
                    None => {
                        proof {
                            lemma_defaults_bound_stops(k, start, all, (i + 1) as nat, all.len());
                        }
                        return Err(
                            join5(
                                "function `",
                                q.class.name.as_str(),
                                "` is missing its argument `",
                                input.name.as_str(),
                                "`",
                            ),
                        );
                    },
                    Some(default) => {
                        let plain = h.do_put(q.class, default);
                        let value = substitute_refs(&plain, &now);
                        now.put(input.name.clone(), value);
                    },
                },
            }
        }
        i = i + 1;
    }
    Ok(now)
}

/// What the call handed over as numbers.
pub open spec fn numbers_given(bound: Bound, consts: Worths, v: SumsV) -> Worths {
    Map::new(
        |name: Seq<char>| bound.contains_key(name) && evaluated(bound[name], consts, v) is Some,
        |name: Seq<char>| evaluated(bound[name], consts, v)->0,
    )
}

fn give_numbers<
    W: Fn(Arith, Number, Number) -> Number,
    O: Fn(&str, &Vec<Number>) -> Option<Vec<Number>>,
    N: Fn(&str) -> String,
>(bound: &Table<Expr>, consts: &Table<Number>, sums: &Sums<W, O, N>) -> (r: Table<Number>)
    requires
        is_steady(*sums),
    ensures
        r.deep_view() == numbers_given(bound.deep_view(), consts.deep_view(), sums_of(*sums)),
{
    let ghost bv = bound.deep_view();
    let ghost cv = consts.deep_view();
    let ghost v = sums_of(*sums);
    let ghost all = bound.entries.deep_view();
    let mut out: Table<Number> = Table::new();
    let mut i: usize = 0;
    while i < bound.entries.len()
        invariant
            i <= bound.entries.len(),
            is_steady(*sums),
            bv == bound.deep_view(),
            cv == consts.deep_view(),
            v == sums_of(*sums),
            all == bound.entries.deep_view(),
            forall|name: Seq<char>| #[trigger]
                out.deep_view().contains_key(name) ==> bv.contains_key(name) && evaluated(
                    bv[name],
                    cv,
                    v,
                ) == Some(out.deep_view()[name]),
            forall|k: int|
                0 <= k < i && evaluated(bv[(#[trigger] all[k]).0], cv, v) is Some
                    ==> out.deep_view().contains_key(all[k].0),
        decreases bound.entries.len() - i,
    {
        let name = &bound.entries[i].0;
        assert(all[i as int] == bound.entries@[i as int].deep_view());
        proof {
            lemma_is_entered(all, i as int);
        }
        if let Some(value) = bound.get(name.as_str()) {
            if let Some(worth) = const_eval(value, consts, sums) {
                out.put(name.clone(), worth);
            }
        }
        i = i + 1;
    }
    proof {
        assert forall|name: Seq<char>|
            bv.contains_key(name) && evaluated(bv[name], cv, v) is Some implies #[trigger]
            out.deep_view().contains_key(name) by {
            let at = lemma_entry_of(all, name);
            assert(all[at].0 == name);
        }
        assert(out.deep_view() =~= numbers_given(bv, cv, v));
    }
    out
}

/// The lengths of the first `n` dimensions of a declaration, worked out.
pub open spec fn dimensions_settled(
    k: BodyV,
    dimensions: Seq<ExprV>,
    bound: Bound,
    numbers: Worths,
    sizes: Lengths,
    n: nat,
) -> Option<Seq<i64>>
    decreases n,
{
    if n == 0 || n > dimensions.len() {
        Some(Seq::empty())
    } else {
        match dimensions_settled(k, dimensions, bound, numbers, sizes, (n - 1) as nat) {
            None => None,
            Some(before) => match (k.h.settle)(
                k.class,
                dimensions[n - 1],
                bound,
                numbers,
                sizes,
                k.depth,
            ) {
                Some(length) => if length.is_finite() && !length.below(zero()) {
                    Some(before.push(length.clipped() as i64))
                } else {
                    None
                },
                None => None,
            },
        }
    }
}

proof fn lemma_dimensions_stop(
    k: BodyV,
    dimensions: Seq<ExprV>,
    bound: Bound,
    numbers: Worths,
    sizes: Lengths,
    n: nat,
    all: nat,
)
    requires
        n <= all <= dimensions.len(),
        dimensions_settled(k, dimensions, bound, numbers, sizes, n) is None,
    ensures
        dimensions_settled(k, dimensions, bound, numbers, sizes, all) is None,
    decreases all,
{
    if n < all {
        lemma_dimensions_stop(k, dimensions, bound, numbers, sizes, n, (all - 1) as nat);
    }
}

fn settle_dimensions<
    A1: Fn(&ClassDef, &Expr) -> Expr,
    A2: Fn(&ClassDef, &str) -> Option<Expr>,
    A3: Fn(&ClassDef, &Table<Number>, &Table<Number>, Table<Vec<i64>>) -> Table<Vec<i64>>,
    A4: Fn(&ClassDef, &Expr, &Table<Expr>, &Table<Number>, &Table<Vec<i64>>, usize) -> Option<Number>,
    A5: Fn(&ClassDef, &Expr, &Table<Number>, &Table<Vec<i64>>, usize) -> Result<(Value, Vec<(Expr, String)>), String>,
    A6: Fn(&ClassDef, &Vec<Statement>, Table<Expr>, &Table<Number>, &Table<Vec<i64>>, usize) -> Result<Walked, String>,
    A7: Fn(&ClassDef, &Component) -> Option<Vec<String>>,
    A8: Fn(&ClassDef, &Component) -> Vec<String>,
    A9: Fn(&ClassDef, &Component) -> Vec<(String, Vec<i64>)>,
    B1: Fn(&ClassDef) -> Vec<String>,
    B2: Fn(&ClassDef, &Vec<Expr>, &Vec<Vec<i64>>, &Table<Number>) -> Result<Option<Vec<(String, Expr)>>, String>,
    W: Fn(Arith, Number, Number) -> Number,
    O: Fn(&str, &Vec<Number>) -> Option<Vec<Number>>,
    N: Fn(&str) -> String,
>(
    h: &Walking<A1, A2, A3, A4, A5, A6, A7, A8, A9, B1, B2>,
    sums: &Sums<W, O, N>,
    registry: &Registry,
    q: &Asking,
    dimensions: &Vec<Expr>,
    bound: &Table<Expr>,
    numbers: &Table<Number>,
    sizes: &Table<Vec<i64>>,
) -> (r: Option<Vec<i64>>)
    requires
        walks_true(*h),
        is_steady(*sums),
    ensures
        r.deep_view() == dimensions_settled(
            body_desk(*h, *sums, registry@, *q),
            dimensions.deep_view(),
            bound.deep_view(),
            numbers.deep_view(),
            sizes.deep_view(),
            dimensions@.len(),
        ),
{
    let ghost k = body_desk(*h, *sums, registry@, *q);
    let ghost all = dimensions.deep_view();
    let ghost bv = bound.deep_view();
    let ghost nv = numbers.deep_view();
    let ghost sv = sizes.deep_view();
    let mut out: Vec<i64> = Vec::new();
    let mut i: usize = 0;
    while i < dimensions.len()
        invariant
            i <= dimensions.len(),
            walks_true(*h),
            k == body_desk(*h, *sums, registry@, *q),
            all == dimensions.deep_view(),
            bv == bound.deep_view(),
            nv == numbers.deep_view(),
            sv == sizes.deep_view(),
            dimensions_settled(k, all, bv, nv, sv, i as nat) == Some(out@),
        decreases dimensions.len() - i,
    {
        assert(all[i as int] == dimensions@[i as int].deep_view());
        proof {
            if dimensions_settled(k, all, bv, nv, sv, (i + 1) as nat) is None {
                lemma_dimensions_stop(k, all, bv, nv, sv, (i + 1) as nat, all.len());
            }
        }
        match h.do_settle(q.class, &dimensions[i], bound, numbers, sizes, q.depth) {
            Some(length) => {
                if !length.finite() || length.less(zero()) {
                    return None;
                }
                out.push(length.to_int());
            },
            None => return None,
        }
        i = i + 1;
    }
    assert(out.deep_view() =~= out@);
    Some(out)
}

/// The lengths with those of the first `n` declarations that nothing measured
/// yet and that can be worked out.
pub open spec fn lengths_settled(
    k: BodyV,
    list: Seq<ComponentV>,
    bound: Bound,
    numbers: Worths,
    sizes: Lengths,
    n: nat,
) -> Lengths
    decreases n,
{
    if n == 0 || n > list.len() {
        sizes
    } else {
        let before = lengths_settled(k, list, bound, numbers, sizes, (n - 1) as nat);
        let c = list[n - 1];
        if c.dimensions.len() == 0 || before.contains_key(c.name) {
            before
        } else {
            match dimensions_settled(k, c.dimensions, bound, numbers, before, c.dimensions.len()) {
                Some(lengths) => before.insert(c.name, lengths),
                None => before,
            }
        }
    }
}

fn settle_lengths<
    A1: Fn(&ClassDef, &Expr) -> Expr,
    A2: Fn(&ClassDef, &str) -> Option<Expr>,
    A3: Fn(&ClassDef, &Table<Number>, &Table<Number>, Table<Vec<i64>>) -> Table<Vec<i64>>,
    A4: Fn(&ClassDef, &Expr, &Table<Expr>, &Table<Number>, &Table<Vec<i64>>, usize) -> Option<Number>,
    A5: Fn(&ClassDef, &Expr, &Table<Number>, &Table<Vec<i64>>, usize) -> Result<(Value, Vec<(Expr, String)>), String>,
    A6: Fn(&ClassDef, &Vec<Statement>, Table<Expr>, &Table<Number>, &Table<Vec<i64>>, usize) -> Result<Walked, String>,
    A7: Fn(&ClassDef, &Component) -> Option<Vec<String>>,
    A8: Fn(&ClassDef, &Component) -> Vec<String>,
    A9: Fn(&ClassDef, &Component) -> Vec<(String, Vec<i64>)>,
    B1: Fn(&ClassDef) -> Vec<String>,
    B2: Fn(&ClassDef, &Vec<Expr>, &Vec<Vec<i64>>, &Table<Number>) -> Result<Option<Vec<(String, Expr)>>, String>,
    W: Fn(Arith, Number, Number) -> Number,
    O: Fn(&str, &Vec<Number>) -> Option<Vec<Number>>,
    N: Fn(&str) -> String,
>(
    h: &Walking<A1, A2, A3, A4, A5, A6, A7, A8, A9, B1, B2>,
    sums: &Sums<W, O, N>,
    registry: &Registry,
    q: &Asking,
    bound: &Table<Expr>,
    numbers: &Table<Number>,
    sizes: Table<Vec<i64>>,
) -> (r: Table<Vec<i64>>)
    requires
        walks_true(*h),
        is_steady(*sums),
    ensures
        r.deep_view() == lengths_settled(
            body_desk(*h, *sums, registry@, *q),
            q.class.components.deep_view(),
            bound.deep_view(),
            numbers.deep_view(),
            sizes.deep_view(),
            q.class.components@.len(),
        ),
{
    let ghost k = body_desk(*h, *sums, registry@, *q);
    let list = &q.class.components;
    let ghost all = list.deep_view();
    let ghost bv = bound.deep_view();
    let ghost nv = numbers.deep_view();
    let ghost start = sizes.deep_view();
    let mut now = sizes;
    let mut i: usize = 0;
    while i < list.len()
        invariant
            i <= list.len(),
            walks_true(*h),
            is_steady(*sums),
            *list == q.class.components,
            k == body_desk(*h, *sums, registry@, *q),
            all == list.deep_view(),
            bv == bound.deep_view(),
            nv == numbers.deep_view(),
            start == sizes.deep_view(),
            now.deep_view() == lengths_settled(k, all, bv, nv, start, i as nat),
        decreases list.len() - i,
    {
        let c = &list[i];
        assert(all[i as int] == c.deep_view());
        assert(c.deep_view().dimensions.len() == c.dimensions@.len());
        if c.dimensions.len() > 0 && !now.has(c.name.as_str()) {
            if let Some(lengths) = settle_dimensions(
                h,
                sums,
                registry,
                q,
                &c.dimensions,
                bound,
                numbers,
                &now,
            ) {
                now.put(c.name.clone(), lengths);
            }
        }
        i = i + 1;
    }
    now
}

/// What names stand for once the locals are read, and what a later local array
/// is written against.
pub ghost struct LocalsV {
    pub bound: Bound,
    pub handed: Bound,
    pub aside: Checks,
}

/// What a local is given, before the array layer sees it: a single number that
/// can be read here is.
pub open spec fn local_bound(
    k: BodyV,
    st: LocalsV,
    sizes: Lengths,
    c: ComponentV,
    binding: ExprV,
) -> ExprV {
    let plain = (k.h.put)(k.class, binding);
    let scalar = c.dimensions.len() == 0;
    let bound = if scalar {
        substituted(plain, st.bound)
    } else {
        substituted(plain, st.handed)
    };
    let settled = (k.h.settle)(k.class, bound, Map::empty(), k.consts, sizes, k.depth);
    if scalar && settled is Some {
        ExprV::Number(settled->0)
    } else {
        bound
    }
}

/// What a local comes to: where it is one number it is read here rather than
/// where it is used, and an array is worked out by the array layer.
pub open spec fn local_worth(
    k: BodyV,
    st: LocalsV,
    sizes: Lengths,
    c: ComponentV,
    binding: ExprV,
) -> ExprV {
    let bound = local_bound(k, st, sizes, c, binding);
    match (k.h.spread)(k.class, bound, k.consts, sizes, (k.depth + 1) as usize) {
        Ok((value, _)) => if c.dimensions.len() == 0 {
            bound
        } else {
            substituted(written_out(value), st.bound)
        },
        Err(_) => bound,
    }
}

/// What the bodies inlined for a local check.
pub open spec fn local_leaves(
    k: BodyV,
    st: LocalsV,
    sizes: Lengths,
    c: ComponentV,
    binding: ExprV,
) -> Checks {
    let bound = local_bound(k, st, sizes, c, binding);
    match (k.h.spread)(k.class, bound, k.consts, sizes, (k.depth + 1) as usize) {
        Ok((_, more)) => more,
        Err(_) => Seq::empty(),
    }
}

/// The names before any local is read.
pub open spec fn locals_before(bound: Bound) -> LocalsV {
    LocalsV { bound, handed: bound, aside: Seq::empty() }
}

/// The names with one local read. An array written out is also bound element
/// by element.
pub open spec fn local_read(k: BodyV, st: LocalsV, sizes: Lengths, c: ComponentV) -> LocalsV {
    if c.causality == Causality::Acausal {
        match c.binding {
            None => st,
            Some(binding) => {
                let worth = local_worth(k, st, sizes, c, binding);
                let aside = st.aside + local_leaves(k, st, sizes, c, binding);
                if worth is Array {
                    LocalsV {
                        bound: elements_put(st.bound, c.name, worth, Seq::empty()).insert(
                            c.name,
                            worth,
                        ),
                        handed: elements_put(st.handed, c.name, worth, Seq::empty()),
                        aside,
                    }
                } else {
                    LocalsV { bound: st.bound.insert(c.name, worth), aside, ..st }
                }
            },
        }
    } else {
        st
    }
}

/// The names with the first `n` locals read.
pub open spec fn locals_read(
    k: BodyV,
    st: LocalsV,
    sizes: Lengths,
    list: Seq<ComponentV>,
    n: nat,
) -> LocalsV
    decreases n,
{
    if n == 0 || n > list.len() {
        st
    } else {
        local_read(k, locals_read(k, st, sizes, list, (n - 1) as nat), sizes, list[n - 1])
    }
}

fn find_local<
    A1: Fn(&ClassDef, &Expr) -> Expr,
    A2: Fn(&ClassDef, &str) -> Option<Expr>,
    A3: Fn(&ClassDef, &Table<Number>, &Table<Number>, Table<Vec<i64>>) -> Table<Vec<i64>>,
    A4: Fn(&ClassDef, &Expr, &Table<Expr>, &Table<Number>, &Table<Vec<i64>>, usize) -> Option<Number>,
    A5: Fn(&ClassDef, &Expr, &Table<Number>, &Table<Vec<i64>>, usize) -> Result<(Value, Vec<(Expr, String)>), String>,
    A6: Fn(&ClassDef, &Vec<Statement>, Table<Expr>, &Table<Number>, &Table<Vec<i64>>, usize) -> Result<Walked, String>,
    A7: Fn(&ClassDef, &Component) -> Option<Vec<String>>,
    A8: Fn(&ClassDef, &Component) -> Vec<String>,
    A9: Fn(&ClassDef, &Component) -> Vec<(String, Vec<i64>)>,
    B1: Fn(&ClassDef) -> Vec<String>,
    B2: Fn(&ClassDef, &Vec<Expr>, &Vec<Vec<i64>>, &Table<Number>) -> Result<Option<Vec<(String, Expr)>>, String>,
    W: Fn(Arith, Number, Number) -> Number,
    O: Fn(&str, &Vec<Number>) -> Option<Vec<Number>>,
    N: Fn(&str) -> String,
>(
    h: &Walking<A1, A2, A3, A4, A5, A6, A7, A8, A9, B1, B2>,
    sums: &Sums<W, O, N>,
    registry: &Registry,
    q: &Asking,
    bound: &Table<Expr>,
    handed: &Table<Expr>,
    sizes: &Table<Vec<i64>>,
    c: &Component,
    binding: &Expr,
    Ghost(aside): Ghost<Checks>,
) -> (r: (Expr, Vec<(Expr, String)>))
    requires
        walks_true(*h),
        is_steady(*sums),
        q.depth <= MAX_DEPTH,
    ensures
        r.0.deep_view() == local_worth(
            body_desk(*h, *sums, registry@, *q),
            LocalsV { bound: bound.deep_view(), handed: handed.deep_view(), aside },
            sizes.deep_view(),
            c.deep_view(),
            binding.deep_view(),
        ),
        r.1.deep_view() == local_leaves(
            body_desk(*h, *sums, registry@, *q),
            LocalsV { bound: bound.deep_view(), handed: handed.deep_view(), aside },
            sizes.deep_view(),
            c.deep_view(),
            binding.deep_view(),
        ),
{
    assert(c.deep_view().dimensions.len() == c.dimensions@.len());
    let plain = h.do_put(q.class, binding);
    let scalar = c.dimensions.len() == 0;
    let mut now = if scalar {
        substitute_refs(&plain, bound)
    } else {
        substitute_refs(&plain, handed)
    };
    let none: Table<Expr> = Table::new();
    let settled = h.do_settle(q.class, &now, &none, q.consts, sizes, q.depth);
    if scalar {
        if let Some(number) = settled {
            now = make::number(number);
        }
    }
    match h.do_spread(q.class, &now, q.consts, sizes, q.depth + 1) {
        Ok((value, more)) => if scalar {
            (now, more)
        } else {
            let whole = value.into_expr();
            (substitute_refs(&whole, bound), more)
        },
        Err(_) => {
            let none: Vec<(Expr, String)> = Vec::new();
            assert(none.deep_view() =~= Seq::empty());
            (now, none)
        },
    }
}

fn copy_bound(table: &Table<Expr>) -> (r: Table<Expr>)
    ensures
        r.deep_view() == table.deep_view(),
{
    let ghost all = table.entries.deep_view();
    let mut out: Table<Expr> = Table::new();
    let mut i: usize = 0;
    assert(all.take(0) =~= Seq::empty());
    while i < table.entries.len()
        invariant
            i <= table.entries.len(),
            all == table.entries.deep_view(),
            out.deep_view() == entered(all.take(i as int)),
        decreases table.entries.len() - i,
    {
        assert(all[i as int] == table.entries@[i as int].deep_view());
        assert(all.take(i + 1).drop_last() =~= all.take(i as int));
        out.put(table.entries[i].0.clone(), table.entries[i].1.clone());
        i = i + 1;
    }
    assert(all.take(i as int) =~= all);
    out
}

fn read_locals<
    A1: Fn(&ClassDef, &Expr) -> Expr,
    A2: Fn(&ClassDef, &str) -> Option<Expr>,
    A3: Fn(&ClassDef, &Table<Number>, &Table<Number>, Table<Vec<i64>>) -> Table<Vec<i64>>,
    A4: Fn(&ClassDef, &Expr, &Table<Expr>, &Table<Number>, &Table<Vec<i64>>, usize) -> Option<Number>,
    A5: Fn(&ClassDef, &Expr, &Table<Number>, &Table<Vec<i64>>, usize) -> Result<(Value, Vec<(Expr, String)>), String>,
    A6: Fn(&ClassDef, &Vec<Statement>, Table<Expr>, &Table<Number>, &Table<Vec<i64>>, usize) -> Result<Walked, String>,
    A7: Fn(&ClassDef, &Component) -> Option<Vec<String>>,
    A8: Fn(&ClassDef, &Component) -> Vec<String>,
    A9: Fn(&ClassDef, &Component) -> Vec<(String, Vec<i64>)>,
    B1: Fn(&ClassDef) -> Vec<String>,
    B2: Fn(&ClassDef, &Vec<Expr>, &Vec<Vec<i64>>, &Table<Number>) -> Result<Option<Vec<(String, Expr)>>, String>,
    W: Fn(Arith, Number, Number) -> Number,
    O: Fn(&str, &Vec<Number>) -> Option<Vec<Number>>,
    N: Fn(&str) -> String,
>(
    h: &Walking<A1, A2, A3, A4, A5, A6, A7, A8, A9, B1, B2>,
    sums: &Sums<W, O, N>,
    registry: &Registry,
    q: &Asking,
    bound: Table<Expr>,
    sizes: &Table<Vec<i64>>,
) -> (r: (Table<Expr>, Vec<(Expr, String)>))
    requires
        walks_true(*h),
        is_steady(*sums),
        q.depth <= MAX_DEPTH,
    ensures
        ({
            let made = locals_read(
                body_desk(*h, *sums, registry@, *q),
                locals_before(bound.deep_view()),
                sizes.deep_view(),
                q.class.components.deep_view(),
                q.class.components@.len(),
            );
            r.0.deep_view() == made.bound && r.1.deep_view() == made.aside
        }),
{
    let ghost k = body_desk(*h, *sums, registry@, *q);
    let ghost st = locals_before(bound.deep_view());
    let ghost sv = sizes.deep_view();
    let list = &q.class.components;
    let ghost all = list.deep_view();
    let mut handed = copy_bound(&bound);
    let mut now = bound;
    let mut aside: Vec<(Expr, String)> = Vec::new();
    let mut i: usize = 0;
    assert(aside.deep_view() =~= Seq::empty());
    while i < list.len()
        invariant
            i <= list.len(),
            walks_true(*h),
            is_steady(*sums),
            q.depth <= MAX_DEPTH,
            *list == q.class.components,
            k == body_desk(*h, *sums, registry@, *q),
            sv == sizes.deep_view(),
            all == list.deep_view(),
            st == locals_before(bound.deep_view()),
            (LocalsV {
                bound: now.deep_view(),
                handed: handed.deep_view(),
                aside: aside.deep_view(),
            }) == locals_read(k, st, sv, all, i as nat),
        decreases list.len() - i,
    {
        let c = &list[i];
        assert(all[i as int] == c.deep_view());
        if c.causality == Causality::Acausal {
            if let Some(binding) = &c.binding {
                let ghost before = aside.deep_view();
                let (worth, mut more) = find_local(
                    h,
                    sums,
                    registry,
                    q,
                    &now,
                    &handed,
                    sizes,
                    c,
                    binding,
                    Ghost(before),
                );
                let ghost left = more.deep_view();
                aside.append(&mut more);
                assert(aside.deep_view() =~= before + left);
                if matches!(worth, Expr::Array(_)) {
                    let mut path: Vec<i64> = Vec::new();
                    assert(path@ =~= Seq::empty());
                    by_element(c.name.as_str(), &worth, &mut path, &mut handed);
                    by_element(c.name.as_str(), &worth, &mut path, &mut now);
                }
                now.put(c.name.clone(), worth);
            }
        }
        i = i + 1;
    }
    (now, aside)
}

/// An output that was assigned element by element, gathered in order from
/// the `so_far` on.
pub open spec fn output_gathered(
    k: BodyV,
    name: Seq<char>,
    dimensions: Seq<i64>,
    so_far: Seq<i64>,
    bound: Bound,
) -> Result<ExprV, Seq<char>>
    decreases dimensions.len(), 1int, 0nat,
{
    if dimensions.len() == 0 {
        let element = element_of(name, so_far);
        if bound.contains_key(element) {
            Ok(bound[element])
        } else {
            Err(
                "function `"@ + k.class.name@ + "` never assigns `"@ + element
                    + "` of its output"@,
            )
        }
    } else {
        match rows_gathered(k, name, dimensions, so_far, bound, places(dimensions[0])) {
            Err(why) => Err(why),
            Ok(items) => Ok(ExprV::Array(items)),
        }
    }
}

/// The first `n` rows of an output.
pub open spec fn rows_gathered(
    k: BodyV,
    name: Seq<char>,
    dimensions: Seq<i64>,
    so_far: Seq<i64>,
    bound: Bound,
    n: nat,
) -> Result<Seq<ExprV>, Seq<char>>
    decreases dimensions.len(), 0int, n,
{
    if n == 0 || dimensions.len() == 0 {
        Ok(Seq::empty())
    } else {
        match rows_gathered(k, name, dimensions, so_far, bound, (n - 1) as nat) {
            Err(why) => Err(why),
            Ok(before) => match output_gathered(
                k,
                name,
                dimensions.drop_first(),
                so_far.push(n as i64),
                bound,
            ) {
                Err(why) => Err(why),
                Ok(row) => Ok(before.push(row)),
            },
        }
    }
}

proof fn lemma_rows_gathered_stop(
    k: BodyV,
    name: Seq<char>,
    dimensions: Seq<i64>,
    so_far: Seq<i64>,
    bound: Bound,
    n: nat,
    all: nat,
)
    requires
        n <= all,
        rows_gathered(k, name, dimensions, so_far, bound, n) is Err,
    ensures
        rows_gathered(k, name, dimensions, so_far, bound, all) == rows_gathered(
            k,
            name,
            dimensions,
            so_far,
            bound,
            n,
        ),
    decreases all,
{
    if n < all {
        lemma_rows_gathered_stop(k, name, dimensions, so_far, bound, n, (all - 1) as nat);
    }
}

fn gather_output(
    class: &ClassDef,
    name: &str,
    dimensions: &Vec<i64>,
    at: usize,
    so_far: &mut Vec<i64>,
    bound: &Table<Expr>,
    k: Ghost<BodyV>,
) -> (r: Result<Expr, String>)
    requires
        at <= dimensions@.len(),
        k@.class == *class,
    ensures
        told(r) == output_gathered(
            k@,
            name@,
            dimensions@.skip(at as int),
            old(so_far)@,
            bound.deep_view(),
        ),
        r is Ok ==> final(so_far)@ == old(so_far)@,
    decreases dimensions@.len() - at,
{
    let ghost path = so_far@;
    let ghost here = dimensions@.skip(at as int);
    let ghost bv = bound.deep_view();
    let total: usize = dimensions.len();
    if at == total {
        let element = element_name(name, so_far);
        return match bound.get(element.as_str()) {
            Some(value) => Ok(value.clone()),
            None => Err(
                join5(
                    "function `",
                    class.name.as_str(),
                    "` never assigns `",
                    element.as_str(),
                    "` of its output",
                ),
            ),
        };
    }
    let length: i64 = dimensions[at];
    assert(here[0] == length);
    assert(here.drop_first() =~= dimensions@.skip(at + 1));
    let mut items: Vec<Expr> = Vec::new();
    let mut i: i64 = 0;
    assert(items.deep_view() =~= Seq::empty());
    while i < length
        invariant
            0 <= i <= places(length),
            at < total,
            total == dimensions@.len(),
            k@.class == *class,
            here == dimensions@.skip(at as int),
            here.len() > 0,
            here[0] == length,
            here.drop_first() == dimensions@.skip(at + 1),
            bv == bound.deep_view(),
            so_far@ == path,
            path == old(so_far)@,
            rows_gathered(k@, name@, here, path, bv, i as nat) == Ok::<Seq<ExprV>, Seq<char>>(
                items.deep_view(),
            ),
        decreases length - i,
    {
        let ghost before = items.deep_view();
        so_far.push(i + 1);
        let row = gather_output(class, name, dimensions, at + 1, so_far, bound, k);
        match row {
            Err(why) => {
                proof {
                    lemma_rows_gathered_stop(
                        k@,
                        name@,
                        here,
                        path,
                        bv,
                        (i + 1) as nat,
                        places(length),
                    );
                }
                return Err(why);
            },
            Ok(row) => {
                so_far.pop();
                assert(so_far@ =~= path);
                let ghost rv = row.deep_view();
                items.push(row);
                assert(items.deep_view() =~= before.push(rv));
            },
        }
        i = i + 1;
    }
    Ok(make::array(items))
}

/// The class of an output, asked under the name the body was called by.
pub open spec fn output_class(k: BodyV, of_type: Seq<char>) -> Option<ClassDef> {
    let under = scope_asked(k.class, k.mark);
    let imports = k.class.imports.deep_view();
    let own = meaning(k.classes, of_type, k.class.name@, imports);
    let found = if under == k.class.name@ {
        own
    } else {
        match meaning(k.classes, of_type, under, imports) {
            Some(found) => Some(found),
            None => own,
        }
    };
    match found {
        Some(found) => if found.kind == ClassKind::Record {
            Some(found)
        } else {
            None
        },
        None => None,
    }
}

/// The value a declaration gives a field.
pub open spec fn field_said(
    list: Seq<(Seq<char>, ExprV)>,
    field: Seq<char>,
    i: nat,
) -> Option<ExprV>
    decreases list.len() - i,
{
    if i >= list.len() {
        None
    } else if list[i as int].0 == field {
        Some(list[i as int].1)
    } else {
        field_said(list, field, i + 1)
    }
}

fn find_said<'m>(list: &'m Vec<(String, Expr)>, field: &str) -> (r: Option<&'m Expr>)
    ensures
        match r {
            Some(value) => field_said(list.deep_view(), field@, 0) == Some(value.deep_view()),
            None => field_said(list.deep_view(), field@, 0) is None,
        },
{
    let ghost all = list.deep_view();
    let mut i: usize = 0;
    while i < list.len()
        invariant
            i <= list.len(),
            all == list.deep_view(),
            field_said(all, field@, 0) == field_said(all, field@, i as nat),
        decreases list.len() - i,
    {
        assert(all[i as int] == list@[i as int].deep_view());
        if same(list[i].0.as_str(), field) {
            return Some(&list[i].1);
        }
        i = i + 1;
    }
    None
}

/// The first `n` fields of a record-typed output: as the body assigned them, or
/// as the declaration says.
pub open spec fn fields_gathered(
    k: BodyV,
    bound: Bound,
    output: ComponentV,
    fields: Seq<Seq<char>>,
    n: nat,
) -> Result<Seq<ExprV>, Seq<char>>
    decreases n,
{
    if n == 0 || n > fields.len() {
        Ok(Seq::empty())
    } else {
        match fields_gathered(k, bound, output, fields, (n - 1) as nat) {
            Err(why) => Err(why),
            Ok(before) => {
                let member = output.name + "."@ + fields[n - 1];
                if bound.contains_key(member) {
                    Ok(before.push(bound[member]))
                } else {
                    match field_said(output.modifiers, fields[n - 1], 0) {
                        Some(value) => Ok(
                            before.push(substituted((k.h.put)(k.class, value), bound)),
                        ),
                        None => Err(
                            "function `"@ + k.class.name@ + "` never assigns `"@ + member
                                + "` of its output, and its declaration says nothing about it either"@,
                        ),
                    }
                }
            },
        }
    }
}

proof fn lemma_fields_gathered_stops(
    k: BodyV,
    bound: Bound,
    output: ComponentV,
    fields: Seq<Seq<char>>,
    n: nat,
    all: nat,
)
    requires
        n <= all <= fields.len(),
        fields_gathered(k, bound, output, fields, n) is Err,
    ensures
        fields_gathered(
            k,
            bound,
            output,
            fields,
            all,
        ) == fields_gathered(k, bound, output, fields, n),
    decreases all,
{
    if n < all {
        lemma_fields_gathered_stops(k, bound, output, fields, n, (all - 1) as nat);
    }
}

fn gather_fields<
    A1: Fn(&ClassDef, &Expr) -> Expr,
    A2: Fn(&ClassDef, &str) -> Option<Expr>,
    A3: Fn(&ClassDef, &Table<Number>, &Table<Number>, Table<Vec<i64>>) -> Table<Vec<i64>>,
    A4: Fn(&ClassDef, &Expr, &Table<Expr>, &Table<Number>, &Table<Vec<i64>>, usize) -> Option<Number>,
    A5: Fn(&ClassDef, &Expr, &Table<Number>, &Table<Vec<i64>>, usize) -> Result<(Value, Vec<(Expr, String)>), String>,
    A6: Fn(&ClassDef, &Vec<Statement>, Table<Expr>, &Table<Number>, &Table<Vec<i64>>, usize) -> Result<Walked, String>,
    A7: Fn(&ClassDef, &Component) -> Option<Vec<String>>,
    A8: Fn(&ClassDef, &Component) -> Vec<String>,
    A9: Fn(&ClassDef, &Component) -> Vec<(String, Vec<i64>)>,
    B1: Fn(&ClassDef) -> Vec<String>,
    B2: Fn(&ClassDef, &Vec<Expr>, &Vec<Vec<i64>>, &Table<Number>) -> Result<Option<Vec<(String, Expr)>>, String>,
    W: Fn(Arith, Number, Number) -> Number,
    O: Fn(&str, &Vec<Number>) -> Option<Vec<Number>>,
    N: Fn(&str) -> String,
>(
    h: &Walking<A1, A2, A3, A4, A5, A6, A7, A8, A9, B1, B2>,
    sums: &Sums<W, O, N>,
    registry: &Registry,
    q: &Asking,
    bound: &Table<Expr>,
    output: &Component,
    fields: &Vec<String>,
) -> (r: Result<Vec<Expr>, String>)
    requires
        walks_true(*h),
        is_steady(*sums),
    ensures
        told(r) == fields_gathered(
            body_desk(*h, *sums, registry@, *q),
            bound.deep_view(),
            output.deep_view(),
            fields.deep_view(),
            fields@.len(),
        ),
{
    let ghost k = body_desk(*h, *sums, registry@, *q);
    let ghost bv = bound.deep_view();
    let ghost ov = output.deep_view();
    let ghost all = fields.deep_view();
    let mut out: Vec<Expr> = Vec::new();
    let mut i: usize = 0;
    assert(out.deep_view() =~= Seq::empty());
    while i < fields.len()
        invariant
            i <= fields.len(),
            walks_true(*h),
            k == body_desk(*h, *sums, registry@, *q),
            bv == bound.deep_view(),
            ov == output.deep_view(),
            all == fields.deep_view(),
            fields_gathered(k, bv, ov, all, i as nat) == Ok::<Seq<ExprV>, Seq<char>>(
                out.deep_view(),
            ),
        decreases fields.len() - i,
    {
        let ghost before = out.deep_view();
        assert(all[i as int] == fields@[i as int]@);
        let member = join3(output.name.as_str(), ".", fields[i].as_str());
        match bound.get(member.as_str()) {
            Some(value) => {
                out.push(value.clone());
                assert(out.deep_view() =~= before.push(bv[member@]));
            },
            None => match find_said(&output.modifiers, fields[i].as_str()) {
                Some(value) => {
                    let plain = h.do_put(q.class, value);
                    let worth = substitute_refs(&plain, bound);
                    let ghost wv = worth.deep_view();
                    out.push(worth);
                    assert(out.deep_view() =~= before.push(wv));
                },
                None => {
                    proof {
                        lemma_fields_gathered_stops(k, bv, ov, all, (i + 1) as nat, all.len());
                    }
                    return Err(
                        join5(
                            "function `",
                            q.class.name.as_str(),
                            "` never assigns `",
                            member.as_str(),
                            "` of its output, and its declaration says nothing about it either",
                        ),
                    );
                },
            },
        }
        i = i + 1;
    }
    Ok(out)
}

/// What one output of a body came to.
pub open spec fn output_worth(k: BodyV, bound: Bound, sizes: Lengths, output: ComponentV) -> Result<
    ExprV,
    Seq<char>,
> {
    if bound.contains_key(output.name) {
        Ok(bound[output.name])
    } else if sizes.contains_key(output.name) {
        output_gathered(k, output.name, sizes[output.name], Seq::empty(), bound)
    } else {
        match output_class(k, output.of_type) {
            Some(record) => {
                let fields = (k.h.held)(record);
                if fields.len() == 0 {
                    Err(
                        "`"@ + k.class.name@ + "` answers with `"@ + output.of_type
                            + "`, which declares no fields: it is a record kept for another to redeclare, and the redeclaration did not reach here"@
                            + k.landed,
                    )
                } else {
                    match fields_gathered(k, bound, output, fields, fields.len()) {
                        Err(why) => Err(why),
                        Ok(items) => Ok(ExprV::Array(items)),
                    }
                }
            },
            None => match output.binding {
                Some(value) => Ok(substituted((k.h.put)(k.class, value), bound)),
                None => Err(
                    "function `"@ + k.class.name@ + "` never assigns its output `"@ + output.name
                        + "`"@,
                ),
            },
        }
    }
}

fn find_output<
    A1: Fn(&ClassDef, &Expr) -> Expr,
    A2: Fn(&ClassDef, &str) -> Option<Expr>,
    A3: Fn(&ClassDef, &Table<Number>, &Table<Number>, Table<Vec<i64>>) -> Table<Vec<i64>>,
    A4: Fn(&ClassDef, &Expr, &Table<Expr>, &Table<Number>, &Table<Vec<i64>>, usize) -> Option<Number>,
    A5: Fn(&ClassDef, &Expr, &Table<Number>, &Table<Vec<i64>>, usize) -> Result<(Value, Vec<(Expr, String)>), String>,
    A6: Fn(&ClassDef, &Vec<Statement>, Table<Expr>, &Table<Number>, &Table<Vec<i64>>, usize) -> Result<Walked, String>,
    A7: Fn(&ClassDef, &Component) -> Option<Vec<String>>,
    A8: Fn(&ClassDef, &Component) -> Vec<String>,
    A9: Fn(&ClassDef, &Component) -> Vec<(String, Vec<i64>)>,
    B1: Fn(&ClassDef) -> Vec<String>,
    B2: Fn(&ClassDef, &Vec<Expr>, &Vec<Vec<i64>>, &Table<Number>) -> Result<Option<Vec<(String, Expr)>>, String>,
    W: Fn(Arith, Number, Number) -> Number,
    O: Fn(&str, &Vec<Number>) -> Option<Vec<Number>>,
    N: Fn(&str) -> String,
>(
    h: &Walking<A1, A2, A3, A4, A5, A6, A7, A8, A9, B1, B2>,
    sums: &Sums<W, O, N>,
    registry: &Registry,
    q: &Asking,
    bound: &Table<Expr>,
    sizes: &Table<Vec<i64>>,
    output: &Component,
) -> (r: Result<Expr, String>)
    requires
        walks_true(*h),
        is_steady(*sums),
    ensures
        told(r) == output_worth(
            body_desk(*h, *sums, registry@, *q),
            bound.deep_view(),
            sizes.deep_view(),
            output.deep_view(),
        ),
{
    let ghost k = body_desk(*h, *sums, registry@, *q);
    if let Some(value) = bound.get(output.name.as_str()) {
        return Ok(value.clone());
    }
    if let Some(dimensions) = sizes.get(output.name.as_str()) {
        assert(dimensions.deep_view() =~= dimensions@);
        assert(dimensions@.skip(0) =~= dimensions@);
        let mut path: Vec<i64> = Vec::new();
        assert(path@ =~= Seq::empty());
        return gather_output(
            q.class,
            output.name.as_str(),
            dimensions,
            0,
            &mut path,
            bound,
            Ghost(k),
        );
    }
    let under = asked_under(q.class, q.mark);
    let found = if same(under.as_str(), q.class.name.as_str()) {
        lookup(registry, output.of_type.as_str(), q.class.name.as_str(), &q.class.imports)
    } else {
        match lookup(registry, output.of_type.as_str(), under.as_str(), &q.class.imports) {
            Some(found) => Some(found),
            None => lookup(
                registry,
                output.of_type.as_str(),
                q.class.name.as_str(),
                &q.class.imports,
            ),
        }
    };
    if let Some(record) = found {
        if record.kind == ClassKind::Record {
            let fields = h.do_held(record);
            assert(fields.deep_view().len() == fields@.len());
            if fields.len() == 0 {
                let said = join5(
                    "`",
                    q.class.name.as_str(),
                    "` answers with `",
                    output.of_type.as_str(),
                    "`, which declares no fields: it is a record kept for another to redeclare, and the redeclaration did not reach here",
                );
                return Err(join2(said.as_str(), q.landed));
            }
            return match gather_fields(h, sums, registry, q, bound, output, &fields) {
                Ok(items) => Ok(make::array(items)),
                Err(why) => Err(why),
            };
        }
    }
    match &output.binding {
        Some(value) => {
            let plain = h.do_put(q.class, value);
            Ok(substitute_refs(&plain, bound))
        },
        None => Err(
            join5(
                "function `",
                q.class.name.as_str(),
                "` never assigns its output `",
                output.name.as_str(),
                "`",
            ),
        ),
    }
}

/// What the first `n` outputs of a body came to.
pub open spec fn outputs_worth(
    k: BodyV,
    bound: Bound,
    sizes: Lengths,
    list: Seq<ComponentV>,
    n: nat,
) -> Result<Seq<(Seq<char>, ExprV)>, Seq<char>>
    decreases n,
{
    if n == 0 || n > list.len() {
        Ok(Seq::empty())
    } else {
        match outputs_worth(k, bound, sizes, list, (n - 1) as nat) {
            Err(why) => Err(why),
            Ok(before) => match output_worth(k, bound, sizes, list[n - 1]) {
                Err(why) => Err(why),
                Ok(value) => Ok(before.push((list[n - 1].name, value))),
            },
        }
    }
}

proof fn lemma_outputs_worth_stops(
    k: BodyV,
    bound: Bound,
    sizes: Lengths,
    list: Seq<ComponentV>,
    n: nat,
    all: nat,
)
    requires
        n <= all <= list.len(),
        outputs_worth(k, bound, sizes, list, n) is Err,
    ensures
        outputs_worth(k, bound, sizes, list, all) == outputs_worth(k, bound, sizes, list, n),
    decreases all,
{
    if n < all {
        lemma_outputs_worth_stops(k, bound, sizes, list, n, (all - 1) as nat);
    }
}

fn find_outputs<
    A1: Fn(&ClassDef, &Expr) -> Expr,
    A2: Fn(&ClassDef, &str) -> Option<Expr>,
    A3: Fn(&ClassDef, &Table<Number>, &Table<Number>, Table<Vec<i64>>) -> Table<Vec<i64>>,
    A4: Fn(&ClassDef, &Expr, &Table<Expr>, &Table<Number>, &Table<Vec<i64>>, usize) -> Option<Number>,
    A5: Fn(&ClassDef, &Expr, &Table<Number>, &Table<Vec<i64>>, usize) -> Result<(Value, Vec<(Expr, String)>), String>,
    A6: Fn(&ClassDef, &Vec<Statement>, Table<Expr>, &Table<Number>, &Table<Vec<i64>>, usize) -> Result<Walked, String>,
    A7: Fn(&ClassDef, &Component) -> Option<Vec<String>>,
    A8: Fn(&ClassDef, &Component) -> Vec<String>,
    A9: Fn(&ClassDef, &Component) -> Vec<(String, Vec<i64>)>,
    B1: Fn(&ClassDef) -> Vec<String>,
    B2: Fn(&ClassDef, &Vec<Expr>, &Vec<Vec<i64>>, &Table<Number>) -> Result<Option<Vec<(String, Expr)>>, String>,
    W: Fn(Arith, Number, Number) -> Number,
    O: Fn(&str, &Vec<Number>) -> Option<Vec<Number>>,
    N: Fn(&str) -> String,
>(
    h: &Walking<A1, A2, A3, A4, A5, A6, A7, A8, A9, B1, B2>,
    sums: &Sums<W, O, N>,
    registry: &Registry,
    q: &Asking,
    bound: &Table<Expr>,
    sizes: &Table<Vec<i64>>,
    list: &Vec<Component>,
) -> (r: Result<Vec<(String, Expr)>, String>)
    requires
        walks_true(*h),
        is_steady(*sums),
    ensures
        told(r) == outputs_worth(
            body_desk(*h, *sums, registry@, *q),
            bound.deep_view(),
            sizes.deep_view(),
            list.deep_view(),
            list@.len(),
        ),
{
    let ghost k = body_desk(*h, *sums, registry@, *q);
    let ghost bv = bound.deep_view();
    let ghost sv = sizes.deep_view();
    let ghost all = list.deep_view();
    let mut out: Vec<(String, Expr)> = Vec::new();
    let mut i: usize = 0;
    assert(out.deep_view() =~= Seq::empty());
    while i < list.len()
        invariant
            i <= list.len(),
            walks_true(*h),
            is_steady(*sums),
            k == body_desk(*h, *sums, registry@, *q),
            bv == bound.deep_view(),
            sv == sizes.deep_view(),
            all == list.deep_view(),
            outputs_worth(k, bv, sv, all, i as nat) == Ok::<
                Seq<(Seq<char>, ExprV)>,
                Seq<char>,
            >(out.deep_view()),
        decreases list.len() - i,
    {
        let ghost before = out.deep_view();
        assert(all[i as int] == list@[i as int].deep_view());
        match find_output(h, sums, registry, q, bound, sizes, &list[i]) {
            Err(why) => {
                proof {
                    lemma_outputs_worth_stops(k, bv, sv, all, (i + 1) as nat, all.len());
                }
                return Err(why);
            },
            Ok(value) => {
                let ghost one = (list@[i as int].name@, value.deep_view());
                out.push((list[i].name.clone(), value));
                assert(out.deep_view() =~= before.push(one));
            },
        }
        i = i + 1;
    }
    Ok(out)
}

/// What a body answers with, what it checked on the way, and what the bodies it
/// called set aside.
pub ghost struct AnswerV {
    pub outputs: Seq<(Seq<char>, ExprV)>,
    pub checks: Checks,
    pub aside: Checks,
}

/// What a body comes to once its arguments and defaults are bound.
pub open spec fn body_walked(k: BodyV, bound: Bound, lengths: Lengths) -> Result<
    AnswerV,
    Seq<char>,
> {
    let given = numbers_given(bound, k.consts, k.v);
    let measured = (k.h.measure)(k.class, k.consts, given, lengths);
    let own = k.class.components.deep_view();
    let sizes = lengths_settled(
        k,
        own,
        bound,
        overlaid(k.consts, given),
        measured,
        own.len(),
    );
    let locals = locals_read(k, locals_before(bound), sizes, own, own.len());
    match (k.h.walk)(
        k.class,
        body_of(k.classes, k.class, k.mark, 0),
        locals.bound,
        k.consts,
        sizes,
        (k.depth + 1) as usize,
    ) {
        Err(why) => Err(why),
        Ok(walked) => if walked.flow == Flow::Break {
            Err("`break` outside of a loop in function `"@ + k.class.name@ + "`"@)
        } else {
            let wanted = of_causality(declared_by(k.classes, k.class, 0), Causality::Output);
            match outputs_worth(k, walked.bindings, sizes, wanted, wanted.len()) {
                Err(why) => Err(why),
                Ok(outputs) => Ok(
                    AnswerV {
                        outputs,
                        checks: walked.checks,
                        aside: locals.aside + walked.aside,
                    },
                ),
            }
        },
    }
}

/// What a call of a function comes to.
pub open spec fn body_worked(
    k: BodyV,
    args: Seq<ExprV>,
    shapes: Seq<Seq<i64>>,
    no_bottom: Seq<char>,
) -> Result<AnswerV, Seq<char>> {
    if k.depth > MAX_DEPTH {
        Err("`"@ + k.class.name@ + "` "@ + no_bottom)
    } else {
        match (k.h.elsewhere)(k.class, args, shapes, k.consts) {
            Err(why) => Err(why),
            Ok(Some(outputs)) => Ok(
                AnswerV { outputs, checks: Seq::empty(), aside: Seq::empty() },
            ),
            Ok(None) => {
                let inputs = of_causality(declared_by(k.classes, k.class, 0), Causality::Input);
                match arguments_bound(k, inputs, args, shapes, args.len()) {
                    Err(why) => Err(why),
                    Ok(made) => match defaults_bound(k, made.bound, inputs, inputs.len()) {
                        Err(why) => Err(why),
                        Ok(bound) => body_walked(k, bound, made.lengths),
                    },
                }
            },
        }
    }
}

/// What a body answers with, as it is held: its outputs, its checks, and what
/// the bodies it called set aside.
#[derive(Debug)]
pub struct Answer {
    pub outputs: Vec<(String, Expr)>,
    pub checks: Vec<(Expr, String)>,
    pub aside: Vec<(Expr, String)>,
}

impl DeepView for Answer {
    type V = AnswerV;

    open spec fn deep_view(&self) -> AnswerV {
        AnswerV {
            outputs: self.outputs.deep_view(),
            checks: self.checks.deep_view(),
            aside: self.aside.deep_view(),
        }
    }
}

fn walk_body<
    A1: Fn(&ClassDef, &Expr) -> Expr,
    A2: Fn(&ClassDef, &str) -> Option<Expr>,
    A3: Fn(&ClassDef, &Table<Number>, &Table<Number>, Table<Vec<i64>>) -> Table<Vec<i64>>,
    A4: Fn(&ClassDef, &Expr, &Table<Expr>, &Table<Number>, &Table<Vec<i64>>, usize) -> Option<Number>,
    A5: Fn(&ClassDef, &Expr, &Table<Number>, &Table<Vec<i64>>, usize) -> Result<(Value, Vec<(Expr, String)>), String>,
    A6: Fn(&ClassDef, &Vec<Statement>, Table<Expr>, &Table<Number>, &Table<Vec<i64>>, usize) -> Result<Walked, String>,
    A7: Fn(&ClassDef, &Component) -> Option<Vec<String>>,
    A8: Fn(&ClassDef, &Component) -> Vec<String>,
    A9: Fn(&ClassDef, &Component) -> Vec<(String, Vec<i64>)>,
    B1: Fn(&ClassDef) -> Vec<String>,
    B2: Fn(&ClassDef, &Vec<Expr>, &Vec<Vec<i64>>, &Table<Number>) -> Result<Option<Vec<(String, Expr)>>, String>,
    W: Fn(Arith, Number, Number) -> Number,
    O: Fn(&str, &Vec<Number>) -> Option<Vec<Number>>,
    N: Fn(&str) -> String,
>(
    h: &Walking<A1, A2, A3, A4, A5, A6, A7, A8, A9, B1, B2>,
    sums: &Sums<W, O, N>,
    registry: &Registry,
    q: &Asking,
    declared: &Vec<Component>,
    bound: Table<Expr>,
    lengths: Table<Vec<i64>>,
) -> (r: Result<Answer, String>)
    requires
        walks_true(*h),
        is_steady(*sums),
        q.depth <= MAX_DEPTH,
        declared.deep_view() == declared_by(registry@, *q.class, 0),
    ensures
        told(r) == body_walked(
            body_desk(*h, *sums, registry@, *q),
            bound.deep_view(),
            lengths.deep_view(),
        ),
{
    assert(q.class.components.deep_view().len() == q.class.components@.len());
    let given = give_numbers(&bound, q.consts, sums);
    let measured = h.do_measure(q.class, q.consts, &given, lengths);
    let numbers = overlay(q.consts, &given);
    let sizes = settle_lengths(h, sums, registry, q, &bound, &numbers, measured);
    let (locals, aside) = read_locals(h, sums, registry, q, bound, &sizes);
    let body = function_body(registry, q.class, q.mark, 0);
    let Walked { flow, bindings, checks, aside: mut behind } = match h.do_walk(
        q.class,
        body,
        locals,
        q.consts,
        &sizes,
        q.depth + 1,
    ) {
        Ok(walked) => walked,
        Err(why) => return Err(why),
    };
    if flow == Flow::Break {
        return Err(
            join3("`break` outside of a loop in function `", q.class.name.as_str(), "`"),
        );
    }
    let wanted = pick_causality(declared, Causality::Output);
    assert(wanted.deep_view().len() == wanted@.len());
    match find_outputs(h, sums, registry, q, &bindings, &sizes, &wanted) {
        Err(why) => Err(why),
        Ok(outputs) => {
            let ghost before = aside.deep_view();
            let ghost after = behind.deep_view();
            let mut aside = aside;
            aside.append(&mut behind);
            assert(aside.deep_view() =~= before + after);
            Ok(Answer { outputs, checks, aside })
        },
    }
}

/// Work out the body of a function: bind what the call handed over, read the
/// locals, run the statements, and say what every output came to.
///
/// `no_bottom` is what is said of a body that will not come to an end.
pub fn worked_body<
    A1: Fn(&ClassDef, &Expr) -> Expr,
    A2: Fn(&ClassDef, &str) -> Option<Expr>,
    A3: Fn(&ClassDef, &Table<Number>, &Table<Number>, Table<Vec<i64>>) -> Table<Vec<i64>>,
    A4: Fn(&ClassDef, &Expr, &Table<Expr>, &Table<Number>, &Table<Vec<i64>>, usize) -> Option<Number>,
    A5: Fn(&ClassDef, &Expr, &Table<Number>, &Table<Vec<i64>>, usize) -> Result<(Value, Vec<(Expr, String)>), String>,
    A6: Fn(&ClassDef, &Vec<Statement>, Table<Expr>, &Table<Number>, &Table<Vec<i64>>, usize) -> Result<Walked, String>,
    A7: Fn(&ClassDef, &Component) -> Option<Vec<String>>,
    A8: Fn(&ClassDef, &Component) -> Vec<String>,
    A9: Fn(&ClassDef, &Component) -> Vec<(String, Vec<i64>)>,
    B1: Fn(&ClassDef) -> Vec<String>,
    B2: Fn(&ClassDef, &Vec<Expr>, &Vec<Vec<i64>>, &Table<Number>) -> Result<Option<Vec<(String, Expr)>>, String>,
    W: Fn(Arith, Number, Number) -> Number,
    O: Fn(&str, &Vec<Number>) -> Option<Vec<Number>>,
    N: Fn(&str) -> String,
>(
    h: &Walking<A1, A2, A3, A4, A5, A6, A7, A8, A9, B1, B2>,
    sums: &Sums<W, O, N>,
    registry: &Registry,
    q: &Asking,
    args: &Vec<Expr>,
    shapes: &Vec<Vec<i64>>,
    no_bottom: &str,
) -> (r: Result<Answer, String>)
    requires
        walks_true(*h),
        is_steady(*sums),
    ensures
        told(r) == body_worked(
            body_desk(*h, *sums, registry@, *q),
            args.deep_view(),
            shapes.deep_view(),
            no_bottom@,
        ),
{
    assert(args.deep_view().len() == args@.len());
    if q.depth > MAX_DEPTH {
        return Err(join4("`", q.class.name.as_str(), "` ", no_bottom));
    }
    match h.do_elsewhere(q.class, args, shapes, q.consts) {
        Err(why) => return Err(why),
        Ok(Some(outputs)) => {
            let none: Vec<(Expr, String)> = Vec::new();
            assert(none.deep_view() =~= Seq::empty());
            let aside: Vec<(Expr, String)> = Vec::new();
            assert(aside.deep_view() =~= Seq::empty());
            return Ok(Answer { outputs, checks: none, aside });
        },
        Ok(None) => {},
    }
    let declared = function_components(registry, q.class, 0);
    let inputs = pick_causality(&declared, Causality::Input);
    assert(inputs.deep_view().len() == inputs@.len());
    let Binding { bound, lengths, named_seen: _, position: _ } = match bind_the_arguments(
        h,
        sums,
        registry,
        q,
        &inputs,
        args,
        shapes,
    ) {
        Ok(made) => made,
        Err(why) => return Err(why),
    };
    match bind_defaults(h, sums, registry, q, bound, &inputs) {
        Err(why) => Err(why),
        Ok(bound) => walk_body(h, sums, registry, q, &declared, bound, lengths),
    }
}

proof fn lemma_still_bound(bound: Bound, name: Seq<char>, other: Seq<char>, value: ExprV)
    requires
        is_bound(bound, name),
    ensures
        is_bound(bound.insert(other, value), name),
{
    let more = bound.insert(other, value);
    if !bound.contains_key(name) {
        let held = choose|held: Seq<char>| #[trigger]
            bound.contains_key(held) && begins_with(held, name + "."@);
        assert(more.contains_key(held));
    }
}

proof fn lemma_defaults_cover(k: BodyV, start: Bound, inputs: Seq<ComponentV>, n: nat, i: int)
    requires
        0 <= i < n <= inputs.len(),
        defaults_bound(k, start, inputs, n) is Ok,
    ensures
        is_bound(defaults_bound(k, start, inputs, n)->Ok_0, inputs[i].name),
    decreases n,
{
    let before = defaults_bound(k, start, inputs, (n - 1) as nat)->Ok_0;
    let after = defaults_bound(k, start, inputs, n)->Ok_0;
    if i < n - 1 {
        lemma_defaults_cover(k, start, inputs, (n - 1) as nat, i);
        if !is_bound(before, inputs[n - 1].name) {
            lemma_still_bound(
                before,
                inputs[i].name,
                inputs[n - 1].name,
                after[inputs[n - 1].name],
            );
            assert(after =~= before.insert(inputs[n - 1].name, after[inputs[n - 1].name]));
        }
    } else if !is_bound(before, inputs[i].name) {
        assert(after.contains_key(inputs[i].name));
    }
}

proof fn lemma_outputs_named(
    k: BodyV,
    bound: Bound,
    sizes: Lengths,
    wanted: Seq<ComponentV>,
    n: nat,
)
    requires
        n <= wanted.len(),
        outputs_worth(k, bound, sizes, wanted, n) is Ok,
    ensures
        outputs_worth(k, bound, sizes, wanted, n)->Ok_0.len() == n,
        forall|i: int|
            0 <= i < n ==> (#[trigger] outputs_worth(k, bound, sizes, wanted, n)->Ok_0[i]).0
                == wanted[i].name && output_worth(k, bound, sizes, wanted[i])
                == Ok::<ExprV, Seq<char>>(outputs_worth(k, bound, sizes, wanted, n)->Ok_0[i].1),
    decreases n,
{
    if n > 0 {
        lemma_outputs_named(k, bound, sizes, wanted, (n - 1) as nat);
        let before = outputs_worth(k, bound, sizes, wanted, (n - 1) as nat)->Ok_0;
        let after = outputs_worth(k, bound, sizes, wanted, n)->Ok_0;
        assert forall|i: int| 0 <= i < n implies (#[trigger] after[i]).0 == wanted[i].name
            && output_worth(k, bound, sizes, wanted[i]) == Ok::<ExprV, Seq<char>>(after[i].1) by {
            if i < n - 1 {
                assert(after[i] == before[i]);
            }
        }
    }
}

/// A body that is worked out was handed every input it declares, or has a
/// default for it: one that is missing an argument is refused.
pub proof fn law_no_argument_is_missing(
    k: BodyV,
    args: Seq<ExprV>,
    shapes: Seq<Seq<i64>>,
    no_bottom: Seq<char>,
    i: int,
)
    requires
        body_worked(k, args, shapes, no_bottom) is Ok,
        (k.h.elsewhere)(k.class, args, shapes, k.consts) == Ok::<
            Option<Seq<(Seq<char>, ExprV)>>,
            Seq<char>,
        >(None),
        0 <= i < of_causality(declared_by(k.classes, k.class, 0), Causality::Input).len(),
    ensures
        ({
            let inputs = of_causality(declared_by(k.classes, k.class, 0), Causality::Input);
            let made = arguments_bound(k, inputs, args, shapes, args.len())->Ok_0;
            let bound = defaults_bound(k, made.bound, inputs, inputs.len());
            bound is Ok && is_bound(bound->Ok_0, inputs[i].name)
        }),
{
    let inputs = of_causality(declared_by(k.classes, k.class, 0), Causality::Input);
    let made = arguments_bound(k, inputs, args, shapes, args.len())->Ok_0;
    lemma_defaults_cover(k, made.bound, inputs, inputs.len(), i);
}

/// A body that is worked out answers with every output it declares, in the
/// order it declares them: one that never assigns an output is refused.
pub proof fn law_every_output_is_answered(
    k: BodyV,
    args: Seq<ExprV>,
    shapes: Seq<Seq<i64>>,
    no_bottom: Seq<char>,
)
    requires
        body_worked(k, args, shapes, no_bottom) is Ok,
        (k.h.elsewhere)(k.class, args, shapes, k.consts) == Ok::<
            Option<Seq<(Seq<char>, ExprV)>>,
            Seq<char>,
        >(None),
    ensures
        ({
            let wanted = of_causality(declared_by(k.classes, k.class, 0), Causality::Output);
            let outputs = body_worked(k, args, shapes, no_bottom)->Ok_0.outputs;
            &&& outputs.len() == wanted.len()
            &&& forall|i: int| 0 <= i < wanted.len() ==> (#[trigger] outputs[i]).0 == wanted[i].name
        }),
{
    let inputs = of_causality(declared_by(k.classes, k.class, 0), Causality::Input);
    let wanted = of_causality(declared_by(k.classes, k.class, 0), Causality::Output);
    let made = arguments_bound(k, inputs, args, shapes, args.len())->Ok_0;
    let bound = defaults_bound(k, made.bound, inputs, inputs.len())->Ok_0;
    let lengths = made.lengths;
    let given = numbers_given(bound, k.consts, k.v);
    let measured = (k.h.measure)(k.class, k.consts, given, lengths);
    let own = k.class.components.deep_view();
    let sizes = lengths_settled(k, own, bound, overlaid(k.consts, given), measured, own.len());
    let locals = locals_read(k, locals_before(bound), sizes, own, own.len());
    let walked = (k.h.walk)(
        k.class,
        body_of(k.classes, k.class, k.mark, 0),
        locals.bound,
        k.consts,
        sizes,
        (k.depth + 1) as usize,
    )->Ok_0;
    lemma_outputs_named(k, walked.bindings, sizes, wanted, wanted.len());
}

}
