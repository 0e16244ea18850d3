//! Inlining a call: the body run in place of it, and what it answers with put
//! where the call stood.
use crate::bodies::{Answer, AnswerV};
use crate::class::{Causality, ClassDef, Component, ComponentV, MAX_DEPTH};
use crate::expr::{kids, lemma_kids_smaller, told, Expr, ExprV};
use crate::external::{answered_here, is_answered_here};
use crate::flat::Checks;
use crate::folding::{const_eval, evaluated, Worths};
use crate::functions::{
    declared_by, function_components, gathered_over, places, with_inherited_components,
};
use crate::lookup::{lookup, meaning, Pairs, Registry};
use crate::make;
use crate::number::{from_count, from_int, nearest, nearest_to, one, Number};
use crate::operators::{inputs_of, list_inputs};
use crate::shapes::{dimension_value, length_told, Lengths};
use crate::sums::{is_steady, sums_of, Arith, Sums, SumsV};
use crate::table::Table;
use crate::text::{decimal, digits, join2, join3, join5, join7, join_all, joined, same, texts};
use vstd::prelude::*;

verus! {

/// What inlining a call leans on, handed in by whoever knows.
///
/// `body` is what a body comes to, with the checks it makes; `put` puts the
/// constants of classes into an expression; `recursive` says whether a function
/// leads back to itself and `unbounded` whether an expression still calls one
/// that does; `endless` and `leaves` tell a failure that means a loop or a
/// recursion that does not end here from one that means a body left early;
/// `sketch` writes an expression out; and `written` says whether a body of
/// that name is at hand, with `outside` how many numbers it answers with. A
/// call is worked out one body deeper than it stands: `body` and `put` are what
/// they are there, and `again` inlines a call from there.
pub struct Inlining<A1, A2, A3, A4, A5, A6, A7, A8, A9, B1> {
    pub body: A1,
    pub put: A2,
    pub recursive: A3,
    pub unbounded: A4,
    pub endless: A5,
    pub leaves: A6,
    pub sketch: A7,
    pub outside: A8,
    pub written: A9,
    pub again: B1,
    /// What they answer, mathematically.
    pub model: Ghost<InliningV>,
}

/// The same, mathematically.
pub ghost struct InliningV {
    pub body: spec_fn(ClassDef, Seq<ExprV>, Seq<Seq<i64>>, usize) -> Result<AnswerV, Seq<char>>,
    pub put: spec_fn(ExprV, Seq<char>, Pairs) -> ExprV,
    pub recursive: spec_fn(ClassDef) -> bool,
    pub unbounded: spec_fn(ExprV) -> bool,
    pub endless: spec_fn(Seq<char>) -> bool,
    pub leaves: spec_fn(Seq<char>) -> bool,
    pub sketch: spec_fn(ExprV) -> Seq<char>,
    pub outside: spec_fn(Seq<char>, Seq<u64>) -> Option<u64>,
    pub written: spec_fn(Seq<char>) -> bool,
    pub again: spec_fn(ClassDef, Seq<ExprV>, Seq<Seq<i64>>, usize) -> Result<InlinedV, Seq<char>>,
}

/// Whether each of them may be asked anything, and answers as `m` says.
pub open spec fn inlining_true_to<
    A1: Fn(&ClassDef, &Vec<Expr>, &Vec<Vec<i64>>, usize) -> Result<Answer, String>,
    A2: Fn(&Expr, &str, &Vec<(String, String)>) -> Expr,
    A3: Fn(&ClassDef) -> bool,
    A4: Fn(&Expr) -> bool,
    A5: Fn(&str) -> bool,
    A6: Fn(&str) -> bool,
    A7: Fn(&Expr) -> String,
    A8: Fn(&str, &Vec<u64>) -> Option<u64>,
    A9: Fn(&str) -> bool,
    B1: Fn(&ClassDef, &Vec<Expr>, &Vec<Vec<i64>>, usize) -> Result<Inlined, String>,
>(
    body: A1,
    put: A2,
    recursive: A3,
    unbounded: A4,
    endless: A5,
    leaves: A6,
    sketch: A7,
    outside: A8,
    written: A9,
    again: B1,
    m: InliningV,
) -> bool {
    &&& forall|
        class: &ClassDef,
        args: &Vec<Expr>,
        shapes: &Vec<Vec<i64>>,
        depth: usize,
    | #[trigger] call_requires(body, (class, args, shapes, depth))
    &&& forall|
        class: &ClassDef,
        args: &Vec<Expr>,
        shapes: &Vec<Vec<i64>>,
        depth: usize,
        r: Result<Answer, String>,
    | #[trigger]
        call_ensures(
            body,
            (class, args, shapes, depth),
            r,
        ) ==> told(r) == (m.body)(*class, args.deep_view(), shapes.deep_view(), depth)
    &&& forall|
        e: &Expr,
        scope: &str,
        imports: &Vec<(String, String)>,
    | #[trigger] call_requires(put, (e, scope, imports))
    &&& forall|e: &Expr, scope: &str, imports: &Vec<(String, String)>, r: Expr| #[trigger]
        call_ensures(
            put,
            (e, scope, imports),
            r,
        ) ==> r.deep_view() == (m.put)(e.deep_view(), scope@, imports.deep_view())
    &&& forall|class: &ClassDef| #[trigger] call_requires(recursive, (class,))
    &&& forall|class: &ClassDef, r: bool| #[trigger]
        call_ensures(recursive, (class,), r) ==> r == (m.recursive)(*class)
    &&& forall|e: &Expr| #[trigger] call_requires(unbounded, (e,))
    &&& forall|e: &Expr, r: bool| #[trigger]
        call_ensures(unbounded, (e,), r) ==> r == (m.unbounded)(e.deep_view())
    &&& forall|why: &str| #[trigger] call_requires(endless, (why,))
    &&& forall|why: &str, r: bool| #[trigger]
        call_ensures(endless, (why,), r) ==> r == (m.endless)(why@)
    &&& forall|why: &str| #[trigger] call_requires(leaves, (why,))
    &&& forall|why: &str, r: bool| #[trigger]
        call_ensures(leaves, (why,), r) ==> r == (m.leaves)(why@)
    &&& forall|e: &Expr| #[trigger] call_requires(sketch, (e,))
    &&& forall|e: &Expr, r: String| #[trigger]
        call_ensures(sketch, (e,), r) ==> r@ == (m.sketch)(e.deep_view())
    &&& forall|called: &str, handed: &Vec<u64>| #[trigger] call_requires(outside, (called, handed))
    &&& forall|called: &str, handed: &Vec<u64>, r: Option<u64>| #[trigger]
        call_ensures(outside, (called, handed), r) ==> r == (m.outside)(called@, handed@)
    &&& forall|called: &str| #[trigger] call_requires(written, (called,))
    &&& forall|called: &str, r: bool| #[trigger]
        call_ensures(written, (called,), r) ==> r == (m.written)(called@)
    &&& forall|
        class: &ClassDef,
        args: &Vec<Expr>,
        shapes: &Vec<Vec<i64>>,
        depth: usize,
    | #[trigger] call_requires(again, (class, args, shapes, depth))
    &&& forall|
        class: &ClassDef,
        args: &Vec<Expr>,
        shapes: &Vec<Vec<i64>>,
        depth: usize,
        r: Result<Inlined, String>,
    | #[trigger]
        call_ensures(
            again,
            (class, args, shapes, depth),
            r,
        ) ==> told(r) == (m.again)(*class, args.deep_view(), shapes.deep_view(), depth)
}

/// Whether each of them may be asked anything, and answers as its model says.
pub open spec fn inlining_true<
    A1: Fn(&ClassDef, &Vec<Expr>, &Vec<Vec<i64>>, usize) -> Result<Answer, String>,
    A2: Fn(&Expr, &str, &Vec<(String, String)>) -> Expr,
    A3: Fn(&ClassDef) -> bool,
    A4: Fn(&Expr) -> bool,
    A5: Fn(&str) -> bool,
    A6: Fn(&str) -> bool,
    A7: Fn(&Expr) -> String,
    A8: Fn(&str, &Vec<u64>) -> Option<u64>,
    A9: Fn(&str) -> bool,
    B1: Fn(&ClassDef, &Vec<Expr>, &Vec<Vec<i64>>, usize) -> Result<Inlined, String>,
>(s: Inlining<A1, A2, A3, A4, A5, A6, A7, A8, A9, B1>) -> bool {
    inlining_true_to(
        s.body,
        s.put,
        s.recursive,
        s.unbounded,
        s.endless,
        s.leaves,
        s.sketch,
        s.outside,
        s.written,
        s.again,
        s.model@,
    )
}

/// What they answer, mathematically.
pub open spec fn inlining_of<
    A1: Fn(&ClassDef, &Vec<Expr>, &Vec<Vec<i64>>, usize) -> Result<Answer, String>,
    A2: Fn(&Expr, &str, &Vec<(String, String)>) -> Expr,
    A3: Fn(&ClassDef) -> bool,
    A4: Fn(&Expr) -> bool,
    A5: Fn(&str) -> bool,
    A6: Fn(&str) -> bool,
    A7: Fn(&Expr) -> String,
    A8: Fn(&str, &Vec<u64>) -> Option<u64>,
    A9: Fn(&str) -> bool,
    B1: Fn(&ClassDef, &Vec<Expr>, &Vec<Vec<i64>>, usize) -> Result<Inlined, String>,
>(s: Inlining<A1, A2, A3, A4, A5, A6, A7, A8, A9, B1>) -> InliningV {
    s.model@
}

impl<
    A1: Fn(&ClassDef, &Vec<Expr>, &Vec<Vec<i64>>, usize) -> Result<Answer, String>,
    A2: Fn(&Expr, &str, &Vec<(String, String)>) -> Expr,
    A3: Fn(&ClassDef) -> bool,
    A4: Fn(&Expr) -> bool,
    A5: Fn(&str) -> bool,
    A6: Fn(&str) -> bool,
    A7: Fn(&Expr) -> String,
    A8: Fn(&str, &Vec<u64>) -> Option<u64>,
    A9: Fn(&str) -> bool,
    B1: Fn(&ClassDef, &Vec<Expr>, &Vec<Vec<i64>>, usize) -> Result<Inlined, String>,
> Inlining<A1, A2, A3, A4, A5, A6, A7, A8, A9, B1> {
    /// The bundle of such functions, where there is anything they answer at all.
    pub fn new(
        body: A1,
        put: A2,
        recursive: A3,
        unbounded: A4,
        endless: A5,
        leaves: A6,
        sketch: A7,
        outside: A8,
        written: A9,
        again: B1,
    ) -> (r: Self)
        requires
            exists|m: InliningV| #[trigger] inlining_true_to(
                body,
                put,
                recursive,
                unbounded,
                endless,
                leaves,
                sketch,
                outside,
                written,
                again,
                m,
            ),
        ensures
            inlining_true(r),
            r.body == body,
            r.put == put,
            r.recursive == recursive,
            r.unbounded == unbounded,
            r.endless == endless,
            r.leaves == leaves,
            r.sketch == sketch,
            r.outside == outside,
            r.written == written,
            r.again == again,
    {
        Inlining {
            body,
            put,
            recursive,
            unbounded,
            endless,
            leaves,
            sketch,
            outside,
            written,
            again,
            model: Ghost(choose|m: InliningV| #[trigger] inlining_true_to(body, put, recursive, unbounded, endless, leaves, sketch, outside, written, again, m)),
        }
    }

    pub fn do_body(
        &self,
        class: &ClassDef,
        args: &Vec<Expr>,
        shapes: &Vec<Vec<i64>>,
        depth: usize,
    ) -> (r: Result<Answer, String>)
        requires
            inlining_true(*self),
        ensures
            told(
                r,
            ) == (inlining_of(*self).body)(*class, args.deep_view(), shapes.deep_view(), depth),
    {
        let f = &self.body;
        f(class, args, shapes, depth)
    }

    pub fn do_put(&self, e: &Expr, scope: &str, imports: &Vec<(String, String)>) -> (r: Expr)
        requires
            inlining_true(*self),
        ensures
            r.deep_view() == (inlining_of(*self).put)(e.deep_view(), scope@, imports.deep_view()),
    {
        let f = &self.put;
        f(e, scope, imports)
    }

    pub fn do_recursive(&self, class: &ClassDef) -> (r: bool)
        requires
            inlining_true(*self),
        ensures
            r == (inlining_of(*self).recursive)(*class),
    {
        let f = &self.recursive;
        f(class)
    }

    pub fn do_unbounded(&self, e: &Expr) -> (r: bool)
        requires
            inlining_true(*self),
        ensures
            r == (inlining_of(*self).unbounded)(e.deep_view()),
    {
        let f = &self.unbounded;
        f(e)
    }

    pub fn do_endless(&self, why: &str) -> (r: bool)
        requires
            inlining_true(*self),
        ensures
            r == (inlining_of(*self).endless)(why@),
    {
        let f = &self.endless;
        f(why)
    }

    pub fn do_leaves(&self, why: &str) -> (r: bool)
        requires
            inlining_true(*self),
        ensures
            r == (inlining_of(*self).leaves)(why@),
    {
        let f = &self.leaves;
        f(why)
    }

    pub fn do_sketch(&self, e: &Expr) -> (r: String)
        requires
            inlining_true(*self),
        ensures
            r@ == (inlining_of(*self).sketch)(e.deep_view()),
    {
        let f = &self.sketch;
        f(e)
    }

    pub fn do_outside(&self, called: &str, handed: &Vec<u64>) -> (r: Option<u64>)
        requires
            inlining_true(*self),
        ensures
            r == (inlining_of(*self).outside)(called@, handed@),
    {
        let f = &self.outside;
        f(called, handed)
    }

    pub fn do_again(
        &self,
        class: &ClassDef,
        args: &Vec<Expr>,
        shapes: &Vec<Vec<i64>>,
        depth: usize,
    ) -> (r: Result<Inlined, String>)
        requires
            inlining_true(*self),
        ensures
            told(
                r,
            ) == (inlining_of(*self).again)(*class, args.deep_view(), shapes.deep_view(), depth),
    {
        let f = &self.again;
        f(class, args, shapes, depth)
    }

    pub fn do_written(&self, called: &str) -> (r: bool)
        requires
            inlining_true(*self),
        ensures
            r == (inlining_of(*self).written)(called@),
    {
        let f = &self.written;
        f(called)
    }
}

/// What is the same for every call that is inlined.
#[derive(Debug)]
pub struct Unfolding<'q, 'a> {
    pub registry: &'q Registry<'a>,
    /// How deep a body may be inlined into a body.
    pub most: usize,
    /// Whether what is being settled is a parameter's value.
    pub settling: bool,
}

pub ghost struct UnfoldingV<'a> {
    pub h: InliningV,
    pub v: SumsV,
    pub classes: Seq<&'a ClassDef>,
    pub most: nat,
    pub settling: bool,
}

pub open spec fn unfolding_of<'q, 'a,
    A1: Fn(&ClassDef, &Vec<Expr>, &Vec<Vec<i64>>, usize) -> Result<Answer, String>,
    A2: Fn(&Expr, &str, &Vec<(String, String)>) -> Expr,
    A3: Fn(&ClassDef) -> bool,
    A4: Fn(&Expr) -> bool,
    A5: Fn(&str) -> bool,
    A6: Fn(&str) -> bool,
    A7: Fn(&Expr) -> String,
    A8: Fn(&str, &Vec<u64>) -> Option<u64>,
    A9: Fn(&str) -> bool,
    B1: Fn(&ClassDef, &Vec<Expr>, &Vec<Vec<i64>>, usize) -> Result<Inlined, String>,
    W: Fn(Arith, Number, Number) -> Number,
    O: Fn(&str, &Vec<Number>) -> Option<Vec<Number>>,
    N: Fn(&str) -> String,
>(
    h: Inlining<A1, A2, A3, A4, A5, A6, A7, A8, A9, B1>,
    sums: Sums<W, O, N>,
    q: Unfolding<'q, 'a>,
) -> UnfoldingV<'a> {
    UnfoldingV {
        h: inlining_of(h),
        v: sums_of(sums),
        classes: q.registry@,
        most: q.most as nat,
        settling: q.settling,
    }
}

/// Whether the one length of an output is one the compiler can see: a number,
/// or a constant of the package the function belongs to.
pub open spec fn length_is_seen(g: UnfoldingV, class: ClassDef, c: Component) -> bool {
    c.dimensions@.len() == 1 && (c.dimensions.deep_view()[0] is Number || evaluated(
        (g.h.put)(c.dimensions.deep_view()[0], class.name@, class.imports.deep_view()),
        Map::empty(),
        g.v,
    ) is Some)
}

/// What stands against a declaration of a body that the run walks.
pub open spec fn part_trouble(g: UnfoldingV, class: ClassDef, c: Component) -> Option<Seq<char>> {
    let spread = c.causality == Causality::Output && c.dimensions@.len() > 0;
    if spread && !length_is_seen(g, class, c) {
        Some(
            "`"@ + class.name@
                + "` is called where nothing could inline it, so the run walks its body - and it answers with `"@
                + c.name@ + "`, whose length is not one the compiler can see"@,
        )
    } else if spread && !(c.dimensions.deep_view()[0] is Number) {
        None
    } else if c.of_type@ == "String"@ {
        Some(
            "`"@ + class.name@
                + "` is called where nothing could inline it, so the run walks its body - and `"@
                + c.name@ + "` is a String, which no step carries"@,
        )
    } else {
        None
    }
}

/// The first thing that stands against the declarations of a body, from the
/// `i`-th on.
pub open spec fn parts_trouble(g: UnfoldingV, class: ClassDef, i: nat) -> Option<Seq<char>>
    decreases class.components@.len() - i,
{
    if i >= class.components@.len() {
        None
    } else {
        match part_trouble(g, class, class.components@[i as int]) {
            Some(why) => Some(why),
            None => parts_trouble(g, class, i + 1),
        }
    }
}

/// The outputs among a list of declarations.
pub open spec fn outputs_among(list: Seq<ComponentV>) -> Seq<ComponentV>
    decreases list.len(),
{
    if list.len() == 0 {
        Seq::empty()
    } else {
        let before = outputs_among(list.drop_last());
        if list.last().causality == Causality::Output {
            before.push(list.last())
        } else {
            before
        }
    }
}

/// The first of a list that is an array, from the `i`-th on.
pub open spec fn first_spread(list: Seq<ComponentV>, i: nat) -> Option<Seq<char>>
    decreases list.len() - i,
{
    if i >= list.len() {
        None
    } else if list[i as int].dimensions.len() > 0 {
        Some(list[i as int].name)
    } else {
        first_spread(list, i + 1)
    }
}

/// What stands against the run walking a body: it carries numbers, so anything
/// shaped otherwise is refused.
pub open spec fn walk_trouble(g: UnfoldingV, class: ClassDef) -> Option<Seq<char>> {
    match parts_trouble(g, class, 0) {
        Some(why) => Some(why),
        None => {
            let outputs = outputs_among(gathered_over(g.classes, class, Seq::empty(), 0));
            if outputs.len() == 0 {
                Some(
                    "`"@ + class.name@
                        + "` is called where nothing could inline it, so the run walks its body - and a body walked at run time answers with something, not nothing"@,
                )
            } else if outputs.len() == 1 {
                None
            } else {
                match first_spread(outputs, 0) {
                    None => None,
                    Some(name) => Some(
                        "`"@ + class.name@
                            + "` is called where nothing could inline it, so the run walks its body - and it answers with "@
                            + digits(outputs.len()) + " things, of which `"@ + name
                            + "` is an array: the run lays the answers end to end, and cannot say where one of unknown length leaves off"@,
                    ),
                }
            }
        },
    }
}

fn find_part_trouble<
    A1: Fn(&ClassDef, &Vec<Expr>, &Vec<Vec<i64>>, usize) -> Result<Answer, String>,
    A2: Fn(&Expr, &str, &Vec<(String, String)>) -> Expr,
    A3: Fn(&ClassDef) -> bool,
    A4: Fn(&Expr) -> bool,
    A5: Fn(&str) -> bool,
    A6: Fn(&str) -> bool,
    A7: Fn(&Expr) -> String,
    A8: Fn(&str, &Vec<u64>) -> Option<u64>,
    A9: Fn(&str) -> bool,
    B1: Fn(&ClassDef, &Vec<Expr>, &Vec<Vec<i64>>, usize) -> Result<Inlined, String>,
    W: Fn(Arith, Number, Number) -> Number,
    O: Fn(&str, &Vec<Number>) -> Option<Vec<Number>>,
    N: Fn(&str) -> String,
>(
    h: &Inlining<A1, A2, A3, A4, A5, A6, A7, A8, A9, B1>,
    sums: &Sums<W, O, N>,
    q: &Unfolding,
    class: &ClassDef,
    c: &Component,
) -> (r: Option<String>)
    requires
        inlining_true(*h),
        is_steady(*sums),
    ensures
        r.deep_view() == part_trouble(unfolding_of(*h, *sums, *q), *class, *c),
{
    assert(c.dimensions.deep_view().len() == c.dimensions@.len());
    if c.causality == Causality::Output && c.dimensions.len() > 0 {
        assert(c.dimensions.deep_view()[0] == c.dimensions@[0].deep_view());
        let plain = matches!(c.dimensions[0], Expr::Number(_));
        let seen = if c.dimensions.len() != 1 {
            false
        } else if plain {
            true
        } else {
            let named = h.do_put(&c.dimensions[0], class.name.as_str(), &class.imports);
            let none: Table<Number> = Table::new();
            const_eval(&named, &none, sums).is_some()
        };
        if !seen {
            return Some(
                join5(
                    "`",
                    class.name.as_str(),
                    "` is called where nothing could inline it, so the run walks its body - and it answers with `",
                    c.name.as_str(),
                    "`, whose length is not one the compiler can see",
                ),
            );
        }
        if !plain {
            return None;
        }
    }
    if same(c.of_type.as_str(), "String") {
        return Some(
            join5(
                "`",
                class.name.as_str(),
                "` is called where nothing could inline it, so the run walks its body - and `",
                c.name.as_str(),
                "` is a String, which no step carries",
            ),
        );
    }
    None
}

fn list_outputs(list: &Vec<Component>) -> (r: Vec<Component>)
    ensures
        r.deep_view() == outputs_among(list.deep_view()),
{
    let ghost all = list.deep_view();
    let mut out: Vec<Component> = Vec::new();
    let mut i: usize = 0;
    assert(out.deep_view() =~= outputs_among(all.take(0)));
    while i < list.len()
        invariant
            i <= list.len(),
            all == list.deep_view(),
            out.deep_view() == outputs_among(all.take(i as int)),
        decreases list.len() - i,
    {
        let ghost before = out.deep_view();
        assert(all[i as int] == list@[i as int].deep_view());
        assert(all.take(i + 1).drop_last() =~= all.take(i as int));
        if list[i].causality == Causality::Output {
            out.push(list[i].clone());
            assert(out.deep_view() =~= before.push(all[i as int]));
        }
        i = i + 1;
    }
    assert(all.take(i as int) =~= all);
    out
}

fn find_spread(list: &Vec<Component>) -> (r: Option<String>)
    ensures
        r.deep_view() == first_spread(list.deep_view(), 0),
{
    let ghost all = list.deep_view();
    let mut i: usize = 0;
    while i < list.len()
        invariant
            i <= list.len(),
            all == list.deep_view(),
            first_spread(all, 0) == first_spread(all, i as nat),
        decreases list.len() - i,
    {
        assert(all[i as int] == list@[i as int].deep_view());
        assert(list@[i as int].dimensions.deep_view().len() == list@[i as int].dimensions@.len());
        if list[i].dimensions.len() > 0 {
            return Some(list[i].name.clone());
        }
        i = i + 1;
    }
    assert(all.len() == list@.len());
    None
}

/// What stands against the run walking a body, where anything does. A body may
/// answer with several numbers, and the call asks for the one it wants; what
/// the run cannot carry is a mixture of shapes.
pub fn walkable<
    A1: Fn(&ClassDef, &Vec<Expr>, &Vec<Vec<i64>>, usize) -> Result<Answer, String>,
    A2: Fn(&Expr, &str, &Vec<(String, String)>) -> Expr,
    A3: Fn(&ClassDef) -> bool,
    A4: Fn(&Expr) -> bool,
    A5: Fn(&str) -> bool,
    A6: Fn(&str) -> bool,
    A7: Fn(&Expr) -> String,
    A8: Fn(&str, &Vec<u64>) -> Option<u64>,
    A9: Fn(&str) -> bool,
    B1: Fn(&ClassDef, &Vec<Expr>, &Vec<Vec<i64>>, usize) -> Result<Inlined, String>,
    W: Fn(Arith, Number, Number) -> Number,
    O: Fn(&str, &Vec<Number>) -> Option<Vec<Number>>,
    N: Fn(&str) -> String,
>(
    h: &Inlining<A1, A2, A3, A4, A5, A6, A7, A8, A9, B1>,
    sums: &Sums<W, O, N>,
    q: &Unfolding,
    class: &ClassDef,
) -> (r: Option<String>)
    requires
        inlining_true(*h),
        is_steady(*sums),
    ensures
        r.deep_view() == walk_trouble(unfolding_of(*h, *sums, *q), *class),
{
    let ghost g = unfolding_of(*h, *sums, *q);
    let mut i: usize = 0;
    while i < class.components.len()
        invariant
            i <= class.components.len(),
            inlining_true(*h),
            is_steady(*sums),
            g == unfolding_of(*h, *sums, *q),
            parts_trouble(g, *class, 0) == parts_trouble(g, *class, i as nat),
        decreases class.components.len() - i,
    {
        if let Some(why) = find_part_trouble(h, sums, q, class, &class.components[i]) {
            return Some(why);
        }
        i = i + 1;
    }
    let held = with_inherited_components(q.registry, class);
    let outputs = list_outputs(&held);
    assert(outputs.deep_view().len() == outputs@.len());
    if outputs.len() == 0 {
        return Some(
            join3(
                "`",
                class.name.as_str(),
                "` is called where nothing could inline it, so the run walks its body - and a body walked at run time answers with something, not nothing",
            ),
        );
    }
    if outputs.len() == 1 {
        return None;
    }
    match find_spread(&outputs) {
        None => None,
        Some(name) => {
            let many = decimal(outputs.len() as u64);
            Some(
                join7(
                    "`",
                    class.name.as_str(),
                    "` is called where nothing could inline it, so the run walks its body - and it answers with ",
                    many.as_str(),
                    " things, of which `",
                    name.as_str(),
                    "` is an array: the run lays the answers end to end, and cannot say where one of unknown length leaves off",
                ),
            )
        },
    }
}

/// Whether a class declares a name with a causality.
pub open spec fn is_declared(class: ClassDef, name: Seq<char>, causality: Causality) -> bool {
    exists|i: int|
        0 <= i < class.components@.len() && (#[trigger] class.components@[i]).name@ == name
            && class.components@[i].causality == causality
}

fn does_declare(class: &ClassDef, name: &str, causality: Causality) -> (r: bool)
    ensures
        r == is_declared(*class, name@, causality),
{
    let mut i: usize = 0;
    while i < class.components.len()
        invariant
            i <= class.components.len(),
            forall|k: int|
                0 <= k < i ==> !((#[trigger] class.components@[k]).name@ == name@
                    && class.components@[k].causality == causality),
        decreases class.components.len() - i,
    {
        if same(class.components[i].name.as_str(), name) && class.components[i].causality
            == causality {
            assert(class.components@[i as int].name@ == name@);
            return true;
        }
        i = i + 1;
    }
    false
}

/// The first argument from the `i`-th on that a class neither takes nor gives.
pub open spec fn first_stranger(class: ClassDef, list: Seq<String>, i: nat) -> Option<Seq<char>>
    decreases list.len() - i,
{
    if i >= list.len() {
        None
    } else if is_declared(class, list[i as int]@, Causality::Input) || is_declared(
        class,
        list[i as int]@,
        Causality::Output,
    ) {
        first_stranger(class, list, i + 1)
    } else {
        Some(list[i as int]@)
    }
}

/// What stands against an inverse that a function claims.
pub open spec fn inverse_trouble(
    classes: Seq<&ClassDef>,
    class: ClassDef,
    claim: (String, String, Vec<String>),
) -> Option<Seq<char>> {
    if meaning(classes, claim.1@, class.name@, class.imports.deep_view()) is None {
        Some(
            "`"@ + class.name@ + "` says `"@ + claim.1@ + "` inverts it, and there is no such function"@,
        )
    } else if !is_declared(class, claim.0@, Causality::Input) {
        Some(
            "`"@ + class.name@ + "` says its inverse solves for `"@ + claim.0@
                + "`, which is not one of its inputs"@,
        )
    } else {
        match first_stranger(class, claim.2@, 0) {
            None => None,
            Some(argument) => Some(
                "the inverse of `"@ + class.name@ + "` is handed `"@ + argument + "`, which `"@
                    + class.name@ + "` neither takes nor gives"@,
            ),
        }
    }
}

/// What stands against the inverses that a function claims, from the `i`-th
/// on.
pub open spec fn inverses_trouble(classes: Seq<&ClassDef>, class: ClassDef, i: nat) -> Option<
    Seq<char>,
>
    decreases class.inverse@.len() - i,
{
    if i >= class.inverse@.len() {
        None
    } else {
        match inverse_trouble(classes, class, class.inverse@[i as int]) {
            Some(why) => Some(why),
            None => inverses_trouble(classes, class, i + 1),
        }
    }
}

fn find_stranger(class: &ClassDef, list: &Vec<String>) -> (r: Option<String>)
    ensures
        r.deep_view() == first_stranger(*class, list@, 0),
{
    let mut i: usize = 0;
    while i < list.len()
        invariant
            i <= list.len(),
            first_stranger(*class, list@, 0) == first_stranger(*class, list@, i as nat),
        decreases list.len() - i,
    {
        if !does_declare(class, list[i].as_str(), Causality::Input) && !does_declare(
            class,
            list[i].as_str(),
            Causality::Output,
        ) {
            return Some(list[i].clone());
        }
        i = i + 1;
    }
    None
}

/// Check what a function says about its own inverse: the function it names has
/// to be there, the input it claims to solve for has to be one of its own, and
/// what it hands the inverse has to be something it has to hand.
pub fn check_inverse(registry: &Registry, class: &ClassDef) -> (r: Option<String>)
    ensures
        r.deep_view() == inverses_trouble(registry@, *class, 0),
{
    let mut i: usize = 0;
    while i < class.inverse.len()
        invariant
            i <= class.inverse.len(),
            inverses_trouble(registry@, *class, 0) == inverses_trouble(
                registry@,
                *class,
                i as nat,
            ),
        decreases class.inverse.len() - i,
    {
        let claim = &class.inverse[i];
        if lookup(registry, claim.1.as_str(), class.name.as_str(), &class.imports).is_none() {
            return Some(
                join5(
                    "`",
                    class.name.as_str(),
                    "` says `",
                    claim.1.as_str(),
                    "` inverts it, and there is no such function",
                ),
            );
        }
        if !does_declare(class, claim.0.as_str(), Causality::Input) {
            return Some(
                join5(
                    "`",
                    class.name.as_str(),
                    "` says its inverse solves for `",
                    claim.0.as_str(),
                    "`, which is not one of its inputs",
                ),
            );
        }
        if let Some(argument) = find_stranger(class, &claim.2) {
            return Some(
                join7(
                    "the inverse of `",
                    class.name.as_str(),
                    "` is handed `",
                    argument.as_str(),
                    "`, which `",
                    class.name.as_str(),
                    "` neither takes nor gives",
                ),
            );
        }
        i = i + 1;
    }
    None
}

/// Whether a type is `Real` by so many steps through the aliases a library
/// wraps it in: each step is a name written inside the class before it.
pub open spec fn is_real_type(
    classes: Seq<&ClassDef>,
    named: Seq<char>,
    scope: Seq<char>,
    imports: Pairs,
    steps: nat,
) -> bool
    decreases steps,
{
    if steps == 0 {
        false
    } else if named == "Real"@ {
        true
    } else {
        match meaning(classes, named, scope, imports) {
            None => false,
            Some(of) => match of.alias_of {
                None => false,
                Some(alias) => is_real_type(
                    classes,
                    alias.0@,
                    of.name@,
                    of.imports.deep_view(),
                    (steps - 1) as nat,
                ),
            },
        }
    }
}

/// Whether a declaration is of `Real`, following the aliases a library wraps it
/// in: what this decides is which inputs of a function have a rate of change
/// to be handed alongside them.
pub fn is_real(
    registry: &Registry,
    of_type: &str,
    scope: &str,
    imports: &Vec<(String, String)>,
    steps: usize,
) -> (r: bool)
    ensures
        r == is_real_type(registry@, of_type@, scope@, imports.deep_view(), steps as nat),
    decreases steps,
{
    if steps == 0 {
        return false;
    }
    if same(of_type, "Real") {
        return true;
    }
    match lookup(registry, of_type, scope, imports) {
        None => false,
        Some(of) => match &of.alias_of {
            None => false,
            Some(alias) => is_real(
                registry,
                alias.0.as_str(),
                of.name.as_str(),
                &of.imports,
                steps - 1,
            ),
        },
    }
}

/// Whether the `i`-th input of a function has a rate of change; one that is not
/// declared counts as having one.
pub open spec fn has_a_rate(classes: Seq<&ClassDef>, class: ClassDef, i: int) -> bool {
    let inputs = inputs_of(classes, class);
    if 0 <= i < inputs.len() {
        is_real_type(
            classes,
            inputs[i].of_type,
            class.name@,
            class.imports.deep_view(),
            MAX_DEPTH as nat,
        )
    } else {
        true
    }
}

/// How many of the first `n` inputs of a function have a rate of change.
pub open spec fn rates_among(classes: Seq<&ClassDef>, class: ClassDef, n: nat) -> nat
    decreases n,
{
    if n == 0 {
        0
    } else {
        rates_among(classes, class, (n - 1) as nat) + (if has_a_rate(
            classes,
            class,
            n - 1,
        ) {
            1nat
        } else {
            0nat
        })
    }
}

/// The names standing in for the rates of change of the first `n` arguments,
/// each with the argument it is the rate of.
pub open spec fn seeds_of(
    classes: Seq<&ClassDef>,
    class: ClassDef,
    args: Seq<ExprV>,
    n: nat,
) -> Seq<(Seq<char>, ExprV)>
    decreases n,
{
    if n == 0 || n > args.len() {
        Seq::empty()
    } else {
        let before = seeds_of(classes, class, args, (n - 1) as nat);
        if has_a_rate(classes, class, n - 1) {
            before.push(("$seed"@ + digits((n - 1) as nat), args[n - 1]))
        } else {
            before
        }
    }
}

/// The shapes of those of the first `n` arguments that have a rate of change.
pub open spec fn seeded_shapes(
    classes: Seq<&ClassDef>,
    class: ClassDef,
    shapes: Seq<Seq<i64>>,
    n: nat,
) -> Seq<Seq<i64>>
    decreases n,
{
    if n == 0 {
        Seq::empty()
    } else {
        let before = seeded_shapes(classes, class, shapes, (n - 1) as nat);
        if has_a_rate(classes, class, n - 1) && n - 1 < shapes.len() {
            before.push(shapes[n - 1])
        } else {
            before
        }
    }
}

fn find_rates(registry: &Registry, class: &ClassDef) -> (r: Vec<bool>)
    ensures
        r@.len() == inputs_of(registry@, *class).len(),
        forall|i: int| 0 <= i < r@.len() ==> #[trigger] r@[i] == has_a_rate(registry@, *class, i),
{
    let inputs = list_inputs(registry, class);
    let ghost iv = inputs.deep_view();
    assert(iv.len() == inputs@.len());
    let mut out: Vec<bool> = Vec::new();
    let mut i: usize = 0;
    while i < inputs.len()
        invariant
            i <= inputs.len(),
            iv == inputs.deep_view(),
            iv == inputs_of(registry@, *class),
            iv.len() == inputs@.len(),
            out.len() == i,
            forall|k: int|
                0 <= k < i ==> #[trigger] out@[k] == has_a_rate(registry@, *class, k),
        decreases inputs.len() - i,
    {
        assert(iv[i as int] == inputs@[i as int].deep_view());
        out.push(
            is_real(
                registry,
                inputs[i].of_type.as_str(),
                class.name.as_str(),
                &class.imports,
                MAX_DEPTH,
            ),
        );
        i = i + 1;
    }
    out
}

fn rate_at(rates: &Vec<bool>, i: usize) -> (r: bool)
    ensures
        r == (if i < rates@.len() {
            rates@[i as int]
        } else {
            true
        }),
{
    if i < rates.len() {
        rates[i]
    } else {
        true
    }
}

/// What an inlined call comes to, and the checks it sets aside.
#[derive(Debug)]
pub struct Inlined {
    pub value: Expr,
    pub aside: Vec<(Expr, String)>,
}

pub ghost struct InlinedV {
    pub value: ExprV,
    pub aside: Seq<(ExprV, Seq<char>)>,
}

impl DeepView for Inlined {
    type V = InlinedV;

    open spec fn deep_view(&self) -> InlinedV {
        InlinedV { value: self.value.deep_view(), aside: self.aside.deep_view() }
    }
}

/// Whether an expression still names anything.
pub open spec fn names_something(e: ExprV) -> bool
    decreases e,
{
    proof {
        lemma_kids_smaller(e);
    }
    e is Ref || exists|i: int| 0 <= i < kids(e).len() && names_something(#[trigger] kids(e)[i])
}

/// Whether an expression still names anything, rather than being arithmetic
/// over numbers alone.
pub fn holds_a_name(expr: &Expr) -> (r: bool)
    ensures
        r == names_something(expr.deep_view()),
    decreases expr.deep_view(),
{
    if matches!(expr, Expr::Ref(_)) {
        return true;
    }
    let ghost shape = expr.deep_view();
    let parts = expr.children();
    let mut i: usize = 0;
    proof {
        lemma_kids_smaller(shape);
    }
    while i < parts.len()
        invariant
            i <= parts.len(),
            shape == expr.deep_view(),
            parts.deep_view() == kids(shape),
            forall|k: int|
                0 <= k < kids(shape).len() ==> (#[trigger] decreases_to!(shape => kids(shape)[k])),
            forall|k: int| 0 <= k < i ==> !names_something(#[trigger] kids(shape)[k]),
        decreases parts.len() - i,
    {
        assert(parts.deep_view()[i as int] == parts@[i as int].deep_view());
        assert(decreases_to!(shape => kids(shape)[i as int]));
        let part: &Expr = parts[i];
        if holds_a_name(part) {
            assert(names_something(kids(shape)[i as int]));
            return true;
        }
        i = i + 1;
    }
    assert(parts.deep_view().len() == parts@.len());
    false
}

/// An output with the constants of the package its body is written in put in,
/// while a parameter is being settled: nothing encloses the names any more
/// once the body is inlined.
pub open spec fn output_put(g: UnfoldingV, class: ClassDef, e: ExprV) -> ExprV {
    if g.settling && names_something(e) {
        (g.h.put)(e, class.name@, class.imports.deep_view())
    } else {
        e
    }
}

/// What a call of a function comes to: every output, in declaration order.
pub open spec fn outputs_inlined(
    g: UnfoldingV,
    class: ClassDef,
    args: Seq<ExprV>,
    shapes: Seq<Seq<i64>>,
    depth: usize,
) -> Result<AnswerV, Seq<char>> {
    match (g.h.body)(class, args, shapes, depth) {
        Err(why) => Err(why),
        Ok(answer) => if answer.outputs.len() == 0 {
            Err("function `"@ + class.name@ + "` declares no output"@)
        } else {
            Ok(
                AnswerV {
                    outputs: Seq::new(
                        answer.outputs.len(),
                        |i: int|
                            (answer.outputs[i].0, output_put(g, class, answer.outputs[i].1)),
                    ),
                    checks: answer.checks,
                    aside: answer.aside,
                },
            )
        },
    }
}

/// The outputs of a body that was inlined, and what it leaves aside.
pub fn leave_aside(answer: Answer) -> (r: (Vec<(String, Expr)>, Vec<(Expr, String)>))
    ensures
        r.0.deep_view() == answer.deep_view().outputs,
        r.1.deep_view() == left_aside(answer.deep_view()),
{
    let ghost av = answer.deep_view();
    let Answer { outputs, checks, aside } = answer;
    let mut left = aside;
    let mut own = checks;
    left.append(&mut own);
    assert(left.deep_view() =~= av.aside + av.checks);
    (outputs, left)
}

/// Execute a function body symbolically and return every output, in declaration
/// order, with the checks the body made for the model being built to take up.
pub fn inline_function_outputs<
    A1: Fn(&ClassDef, &Vec<Expr>, &Vec<Vec<i64>>, usize) -> Result<Answer, String>,
    A2: Fn(&Expr, &str, &Vec<(String, String)>) -> Expr,
    A3: Fn(&ClassDef) -> bool,
    A4: Fn(&Expr) -> bool,
    A5: Fn(&str) -> bool,
    A6: Fn(&str) -> bool,
    A7: Fn(&Expr) -> String,
    A8: Fn(&str, &Vec<u64>) -> Option<u64>,
    A9: Fn(&str) -> bool,
    B1: Fn(&ClassDef, &Vec<Expr>, &Vec<Vec<i64>>, usize) -> Result<Inlined, String>,
    W: Fn(Arith, Number, Number) -> Number,
    O: Fn(&str, &Vec<Number>) -> Option<Vec<Number>>,
    N: Fn(&str) -> String,
>(
    h: &Inlining<A1, A2, A3, A4, A5, A6, A7, A8, A9, B1>,
    sums: &Sums<W, O, N>,
    q: &Unfolding,
    class: &ClassDef,
    args: &Vec<Expr>,
    shapes: &Vec<Vec<i64>>,
    depth: usize,
) -> (r: Result<Answer, String>)
    requires
        inlining_true(*h),
        is_steady(*sums),
    ensures
        told(r) == outputs_inlined(
            unfolding_of(*h, *sums, *q),
            *class,
            args.deep_view(),
            shapes.deep_view(),
            depth,
        ),
{
    let ghost g = unfolding_of(*h, *sums, *q);
    let answer = match h.do_body(class, args, shapes, depth) {
        Ok(answer) => answer,
        Err(why) => {
            return Err(why);
        },
    };
    let ghost ov = answer.outputs.deep_view();
    assert(ov.len() == answer.outputs@.len());
    if answer.outputs.len() == 0 {
        return Err(join3("function `", class.name.as_str(), "` declares no output"));
    }
    let ghost whole = Seq::new(ov.len(), |i: int| (ov[i].0, output_put(g, *class, ov[i].1)));
    let mut outputs: Vec<(String, Expr)> = Vec::new();
    let mut i: usize = 0;
    assert(outputs.deep_view() =~= whole.take(0));
    while i < answer.outputs.len()
        invariant
            i <= answer.outputs.len(),
            inlining_true(*h),
            is_steady(*sums),
            g == unfolding_of(*h, *sums, *q),
            ov == answer.outputs.deep_view(),
            whole == Seq::new(ov.len(), |i: int| (ov[i].0, output_put(g, *class, ov[i].1))),
            outputs.deep_view() == whole.take(i as int),
        decreases answer.outputs.len() - i,
    {
        let ghost before = outputs.deep_view();
        assert(ov[i as int] == answer.outputs@[i as int].deep_view());
        let value = if q.settling && holds_a_name(&answer.outputs[i].1) {
            h.do_put(&answer.outputs[i].1, class.name.as_str(), &class.imports)
        } else {
            answer.outputs[i].1.clone()
        };
        outputs.push((answer.outputs[i].0.clone(), value));
        assert(outputs.deep_view() =~= before.push(whole[i as int]));
        assert(before.push(whole[i as int]) =~= whole.take(i + 1));
        i = i + 1;
    }
    assert(whole.take(i as int) =~= whole);
    Ok(Answer { outputs, checks: answer.checks, aside: answer.aside })
}

/// The checks a call that stands on its own makes: a body written outside that
/// answers with nothing is there for what it does, and checks nothing. Beside
/// them stand the checks that the bodies it called set aside.
pub open spec fn checks_inlined(
    g: UnfoldingV,
    class: ClassDef,
    args: Seq<ExprV>,
    shapes: Seq<Seq<i64>>,
    depth: usize,
) -> Result<(Checks, Checks), Seq<char>> {
    if class.external && !answers_at_all(class) {
        Ok((Seq::empty(), Seq::empty()))
    } else {
        match (g.h.body)(class, args, shapes, depth) {
            Err(why) => Err(why),
            Ok(answer) => Ok((answer.checks, answer.aside)),
        }
    }
}

/// Whether a class declares an output.
pub open spec fn answers_at_all(class: ClassDef) -> bool {
    exists|i: int|
        0 <= i < class.components@.len() && (#[trigger] class.components@[i]).causality
            == Causality::Output
}

pub fn does_answer(class: &ClassDef) -> (r: bool)
    ensures
        r == answers_at_all(*class),
{
    let mut i: usize = 0;
    while i < class.components.len()
        invariant
            i <= class.components.len(),
            forall|k: int|
                0 <= k < i ==> (#[trigger] class.components@[k]).causality != Causality::Output,
        decreases class.components.len() - i,
    {
        if class.components[i].causality == Causality::Output {
            assert(class.components@[i as int].causality == Causality::Output);
            return true;
        }
        i = i + 1;
    }
    false
}

/// The checks a call makes, for a call that stands on its own as a statement:
/// nothing receives its outputs, so what is left of it is what its body
/// asserted, and what the bodies it called set aside.
pub fn inline_function_checks<
    A1: Fn(&ClassDef, &Vec<Expr>, &Vec<Vec<i64>>, usize) -> Result<Answer, String>,
    A2: Fn(&Expr, &str, &Vec<(String, String)>) -> Expr,
    A3: Fn(&ClassDef) -> bool,
    A4: Fn(&Expr) -> bool,
    A5: Fn(&str) -> bool,
    A6: Fn(&str) -> bool,
    A7: Fn(&Expr) -> String,
    A8: Fn(&str, &Vec<u64>) -> Option<u64>,
    A9: Fn(&str) -> bool,
    B1: Fn(&ClassDef, &Vec<Expr>, &Vec<Vec<i64>>, usize) -> Result<Inlined, String>,
    W: Fn(Arith, Number, Number) -> Number,
    O: Fn(&str, &Vec<Number>) -> Option<Vec<Number>>,
    N: Fn(&str) -> String,
>(
    h: &Inlining<A1, A2, A3, A4, A5, A6, A7, A8, A9, B1>,
    sums: &Sums<W, O, N>,
    q: &Unfolding,
    class: &ClassDef,
    args: &Vec<Expr>,
    shapes: &Vec<Vec<i64>>,
    depth: usize,
) -> (r: Result<(Vec<(Expr, String)>, Vec<(Expr, String)>), String>)
    requires
        inlining_true(*h),
        is_steady(*sums),
    ensures
        told(r) == checks_inlined(
            unfolding_of(*h, *sums, *q),
            *class,
            args.deep_view(),
            shapes.deep_view(),
            depth,
        ),
{
    if class.external && !does_answer(class) {
        let none: Vec<(Expr, String)> = Vec::new();
        let aside: Vec<(Expr, String)> = Vec::new();
        assert(none.deep_view() =~= Seq::empty());
        assert(aside.deep_view() =~= Seq::empty());
        return Ok((none, aside));
    }
    match h.do_body(class, args, shapes, depth) {
        Ok(answer) => Ok((answer.checks, answer.aside)),
        Err(why) => Err(why),
    }
}

/// Whether one of the outputs still holds a call of its own cycle.
pub open spec fn any_unbounded(g: UnfoldingV, outputs: Seq<(Seq<char>, ExprV)>) -> bool {
    exists|i: int| 0 <= i < outputs.len() && (g.h.unbounded)((#[trigger] outputs[i]).1)
}

/// The call itself, left standing for the run to walk.
pub open spec fn standing(class: ClassDef, args: Seq<ExprV>) -> InlinedV {
    InlinedV { value: ExprV::Call(class.name@, args), aside: Seq::empty() }
}

/// What a body that was inlined leaves for the model being built to take up:
/// what the bodies it called set aside, and then its own checks.
pub open spec fn left_aside(answer: AnswerV) -> Checks {
    answer.aside + answer.checks
}

/// Whether a failure to inline a call means that the call is to stand.
pub open spec fn is_to_stand(g: UnfoldingV, class: ClassDef, why: Seq<char>) -> bool {
    (g.h.endless)(why) || ((g.h.leaves)(why) && walk_trouble(g, class) is None) || (
    g.h.recursive)(class)
}

/// What inlining a call comes to: the first output, with the rule the function
/// gives for its derivative beside it.
pub open spec fn call_inlined(
    g: UnfoldingV,
    class: ClassDef,
    args: Seq<ExprV>,
    shapes: Seq<Seq<i64>>,
    depth: usize,
    nested: nat,
) -> Result<InlinedV, Seq<char>> {
    if nested > g.most {
        Ok(standing(class, args))
    } else {
        match outputs_inlined(g, class, args, shapes, depth) {
            Err(why) => if is_to_stand(g, class, why) {
                Ok(standing(class, args))
            } else {
                Err(why)
            },
            Ok(answer) => if any_unbounded(g, answer.outputs) {
                Ok(standing(class, args))
            } else {
                match inverses_trouble(g.classes, class, 0) {
                    Some(why) => Err(why),
                    None => match class.derivative {
                        None => Ok(
                            InlinedV { value: answer.outputs[0].1, aside: left_aside(answer) },
                        ),
                        Some(named) => match rule_inlined(
                            g,
                            class,
                            named@,
                            args,
                            shapes,
                            depth,
                        ) {
                            Err(why) => Err(why),
                            Ok(rule) => Ok(
                                InlinedV {
                                    value: ExprV::WithDerivative(
                                        Box::new(answer.outputs[0].1),
                                        Box::new(rule.value),
                                        seeds_of(g.classes, class, args, args.len()),
                                    ),
                                    aside: left_aside(answer) + rule.aside,
                                },
                            ),
                        },
                    },
                }
            },
        }
    }
}

/// One level deeper, as far as a level goes.
pub open spec fn one_deeper(depth: usize) -> usize {
    if depth == usize::MAX {
        depth
    } else {
        (depth + 1) as usize
    }
}

fn find_deeper(depth: usize) -> (r: usize)
    ensures
        r == one_deeper(depth),
{
    if depth == usize::MAX {
        depth
    } else {
        depth + 1
    }
}

/// The arguments of a derivative function: those of the function itself, and a
/// name for the rate of each that has one.
pub open spec fn handed_to_rule(classes: Seq<&ClassDef>, class: ClassDef, args: Seq<ExprV>) -> Seq<
    ExprV,
> {
    let seeds = seeds_of(classes, class, args, args.len());
    args + Seq::new(seeds.len(), |i: int| ExprV::Ref(seeds[i].0))
}

/// What the function that a `derivative` annotation names comes to, with a name
/// where the rate of each argument belongs.
pub open spec fn rule_inlined(
    g: UnfoldingV,
    class: ClassDef,
    named: Seq<char>,
    args: Seq<ExprV>,
    shapes: Seq<Seq<i64>>,
    depth: usize,
) -> Result<InlinedV, Seq<char>> {
    match meaning(g.classes, named, class.name@, class.imports.deep_view()) {
        None => Err(
            "`"@ + class.name@ + "` says its derivative is `"@ + named
                + "`, and there is no such function"@,
        ),
        Some(of) => {
            let given = inputs_of(g.classes, of).len();
            let wanted = together(
                args.len() as u64,
                rates_among(g.classes, class, inputs_of(g.classes, class).len()) as u64,
            );
            if given != wanted as nat {
                Err(
                    "`"@ + named + "` is the derivative of `"@ + class.name@ + "`, so it takes "@
                        + digits(wanted as nat) + " inputs - what `"@ + class.name@
                        + "` takes, and then one derivative for each - but it takes "@ + digits(
                        given,
                    ),
                )
            } else {
                (g.h.again)(
                    of,
                    handed_to_rule(g.classes, class, args),
                    shapes + seeded_shapes(g.classes, class, shapes, args.len()),
                    one_deeper(depth),
                )
            }
        },
    }
}

fn write_seeds(registry: &Registry, class: &ClassDef, args: &Vec<Expr>, rates: &Vec<bool>) -> (r: Vec<
    (String, Expr),
>)
    requires
        rates@.len() == inputs_of(registry@, *class).len(),
        forall|i: int|
            0 <= i < rates@.len() ==> #[trigger] rates@[i] == has_a_rate(registry@, *class, i),
    ensures
        r.deep_view() == seeds_of(registry@, *class, args.deep_view(), args.deep_view().len()),
{
    let ghost av = args.deep_view();
    assert(av.len() == args@.len());
    let mut out: Vec<(String, Expr)> = Vec::new();
    let mut i: usize = 0;
    assert(out.deep_view() =~= Seq::empty());
    while i < args.len()
        invariant
            i <= args.len(),
            av == args.deep_view(),
            av.len() == args@.len(),
            rates@.len() == inputs_of(registry@, *class).len(),
            forall|i: int|
                0 <= i < rates@.len() ==> #[trigger] rates@[i] == has_a_rate(
                    registry@,
                    *class,
                    i,
                ),
            out.deep_view() == seeds_of(registry@, *class, av, i as nat),
        decreases args.len() - i,
    {
        let ghost before = out.deep_view();
        assert(av[i as int] == args@[i as int].deep_view());
        assert(has_a_rate(registry@, *class, i as int) == (if i < rates@.len() {
            rates@[i as int]
        } else {
            true
        }));
        if rate_at(rates, i) {
            let number = decimal(i as u64);
            let name = join2("$seed", number.as_str());
            let ghost nv = name@;
            out.push((name, args[i].clone()));
            assert(out.deep_view() =~= before.push((nv, av[i as int])));
        }
        i = i + 1;
    }
    out
}

fn seed_shapes(
    registry: &Registry,
    class: &ClassDef,
    shapes: &Vec<Vec<i64>>,
    rates: &Vec<bool>,
    many: usize,
) -> (r: Vec<Vec<i64>>)
    requires
        rates@.len() == inputs_of(registry@, *class).len(),
        forall|i: int|
            0 <= i < rates@.len() ==> #[trigger] rates@[i] == has_a_rate(registry@, *class, i),
    ensures
        r.deep_view() == shapes.deep_view() + seeded_shapes(
            registry@,
            *class,
            shapes.deep_view(),
            many as nat,
        ),
{
    let ghost sv = shapes.deep_view();
    assert(sv.len() == shapes@.len());
    let mut out: Vec<Vec<i64>> = Vec::new();
    let mut i: usize = 0;
    while i < shapes.len()
        invariant
            i <= shapes.len(),
            out.len() == i,
            forall|
                k: int,
            | 0 <= k < i ==> (#[trigger] out@[k]).deep_view() == shapes@[k].deep_view(),
        decreases shapes.len() - i,
    {
        let copy = crate::names::same_indices(&shapes[i]);
        assert(copy.deep_view() =~= shapes@[i as int].deep_view());
        out.push(copy);
        i = i + 1;
    }
    assert(out.deep_view() =~= sv);
    let mut i: usize = 0;
    assert(sv + seeded_shapes(registry@, *class, sv, 0) =~= sv);
    while i < many
        invariant
            i <= many,
            sv == shapes.deep_view(),
            sv.len() == shapes@.len(),
            rates@.len() == inputs_of(registry@, *class).len(),
            forall|i: int|
                0 <= i < rates@.len() ==> #[trigger] rates@[i] == has_a_rate(
                    registry@,
                    *class,
                    i,
                ),
            out.deep_view() == sv + seeded_shapes(registry@, *class, sv, i as nat),
        decreases many - i,
    {
        let ghost before = out.deep_view();
        let ghost seeded = seeded_shapes(registry@, *class, sv, i as nat);
        assert(has_a_rate(registry@, *class, i as int) == (if i < rates@.len() {
            rates@[i as int]
        } else {
            true
        }));
        if rate_at(rates, i) && i < shapes.len() {
            let copy = crate::names::same_indices(&shapes[i]);
            assert(copy.deep_view() =~= shapes@[i as int].deep_view());
            assert(sv[i as int] == shapes@[i as int].deep_view());
            out.push(copy);
            assert(out.deep_view() =~= before.push(sv[i as int]));
            assert((sv + seeded).push(sv[i as int]) =~= sv + seeded.push(sv[i as int]));
        }
        i = i + 1;
    }
    out
}

fn count_rates(registry: &Registry, class: &ClassDef, rates: &Vec<bool>) -> (r: usize)
    requires
        rates@.len() == inputs_of(registry@, *class).len(),
        forall|i: int|
            0 <= i < rates@.len() ==> #[trigger] rates@[i] == has_a_rate(registry@, *class, i),
    ensures
        r == rates_among(registry@, *class, inputs_of(registry@, *class).len()),
        r <= rates@.len(),
{
    let mut many: usize = 0;
    let mut i: usize = 0;
    while i < rates.len()
        invariant
            i <= rates.len(),
            many <= i,
            forall|i: int|
                0 <= i < rates@.len() ==> #[trigger] rates@[i] == has_a_rate(
                    registry@,
                    *class,
                    i,
                ),
            many == rates_among(registry@, *class, i as nat),
        decreases rates.len() - i,
    {
        assert(rates@[i as int] == has_a_rate(registry@, *class, i as int));
        if rates[i] {
            many = many + 1;
        }
        i = i + 1;
    }
    many
}

pub fn stand(class: &ClassDef, args: &Vec<Expr>) -> (r: Inlined)
    ensures
        r.deep_view() == standing(*class, args.deep_view()),
{
    let none: Vec<(Expr, String)> = Vec::new();
    assert(none.deep_view() =~= Seq::empty());
    Inlined { value: make::call(class.name.as_str(), crate::expr::copy_all(args)), aside: none }
}

fn find_unbounded<
    A1: Fn(&ClassDef, &Vec<Expr>, &Vec<Vec<i64>>, usize) -> Result<Answer, String>,
    A2: Fn(&Expr, &str, &Vec<(String, String)>) -> Expr,
    A3: Fn(&ClassDef) -> bool,
    A4: Fn(&Expr) -> bool,
    A5: Fn(&str) -> bool,
    A6: Fn(&str) -> bool,
    A7: Fn(&Expr) -> String,
    A8: Fn(&str, &Vec<u64>) -> Option<u64>,
    A9: Fn(&str) -> bool,
    B1: Fn(&ClassDef, &Vec<Expr>, &Vec<Vec<i64>>, usize) -> Result<Inlined, String>,
    W: Fn(Arith, Number, Number) -> Number,
    O: Fn(&str, &Vec<Number>) -> Option<Vec<Number>>,
    N: Fn(&str) -> String,
>(
    h: &Inlining<A1, A2, A3, A4, A5, A6, A7, A8, A9, B1>,
    sums: &Sums<W, O, N>,
    q: &Unfolding,
    outputs: &Vec<(String, Expr)>,
) -> (r: bool)
    requires
        inlining_true(*h),
        is_steady(*sums),
    ensures
        r == any_unbounded(unfolding_of(*h, *sums, *q), outputs.deep_view()),
{
    let ghost g = unfolding_of(*h, *sums, *q);
    let ghost ov = outputs.deep_view();
    let mut i: usize = 0;
    while i < outputs.len()
        invariant
            i <= outputs.len(),
            inlining_true(*h),
            is_steady(*sums),
            g == unfolding_of(*h, *sums, *q),
            ov == outputs.deep_view(),
            forall|k: int| 0 <= k < i ==> !(g.h.unbounded)((#[trigger] ov[k]).1),
        decreases outputs.len() - i,
    {
        assert(ov[i as int] == outputs@[i as int].deep_view());
        if h.do_unbounded(&outputs[i].1) {
            assert((g.h.unbounded)(ov[i as int].1));
            return true;
        }
        i = i + 1;
    }
    assert(ov.len() == outputs@.len());
    false
}

/// Inline the function a `derivative` annotation names, leaving a name where
/// the rate of each argument belongs: the derivative function takes what the
/// function itself takes and then one more for each of those that can change.
fn derivative_rule<
    A1: Fn(&ClassDef, &Vec<Expr>, &Vec<Vec<i64>>, usize) -> Result<Answer, String>,
    A2: Fn(&Expr, &str, &Vec<(String, String)>) -> Expr,
    A3: Fn(&ClassDef) -> bool,
    A4: Fn(&Expr) -> bool,
    A5: Fn(&str) -> bool,
    A6: Fn(&str) -> bool,
    A7: Fn(&Expr) -> String,
    A8: Fn(&str, &Vec<u64>) -> Option<u64>,
    A9: Fn(&str) -> bool,
    B1: Fn(&ClassDef, &Vec<Expr>, &Vec<Vec<i64>>, usize) -> Result<Inlined, String>,
    W: Fn(Arith, Number, Number) -> Number,
    O: Fn(&str, &Vec<Number>) -> Option<Vec<Number>>,
    N: Fn(&str) -> String,
>(
    h: &Inlining<A1, A2, A3, A4, A5, A6, A7, A8, A9, B1>,
    sums: &Sums<W, O, N>,
    q: &Unfolding,
    class: &ClassDef,
    named: &str,
    args: &Vec<Expr>,
    shapes: &Vec<Vec<i64>>,
    depth: usize,
) -> (r: Result<(Inlined, Vec<(String, Expr)>), String>)
    requires
        inlining_true(*h),
        is_steady(*sums),
    ensures
        match (r, rule_inlined(
            unfolding_of(*h, *sums, *q),
            *class,
            named@,
            args.deep_view(),
            shapes.deep_view(),
            depth,
        )) {
            (Ok(made), Ok(meant)) => made.0.deep_view() == meant && made.1.deep_view() == seeds_of(
                q.registry@,
                *class,
                args.deep_view(),
                args.deep_view().len(),
            ),
            (Err(why), Err(said)) => why@ == said,
            _ => false,
        },
{
    let ghost g = unfolding_of(*h, *sums, *q);
    let ghost av = args.deep_view();
    assert(av.len() == args@.len());
    let of = match lookup(q.registry, named, class.name.as_str(), &class.imports) {
        Some(of) => of,
        None => {
            return Err(
                join5(
                    "`",
                    class.name.as_str(),
                    "` says its derivative is `",
                    named,
                    "`, and there is no such function",
                ),
            );
        },
    };
    let rates = find_rates(q.registry, class);
    let seeded: usize = count_rates(q.registry, class, &rates);
    let taken = list_inputs(q.registry, of);
    assert(taken.deep_view().len() == taken@.len());
    let wanted: u64 = put_together(args.len() as u64, seeded as u64);
    if taken.len() as u64 != wanted {
        let a = decimal(wanted);
        let b = decimal(taken.len() as u64);
        let head = join7(
            "`",
            named,
            "` is the derivative of `",
            class.name.as_str(),
            "`, so it takes ",
            a.as_str(),
            " inputs - what `",
        );
        let tail = join3(
            class.name.as_str(),
            "` takes, and then one derivative for each - but it takes ",
            b.as_str(),
        );
        let said = join2(head.as_str(), tail.as_str());
        assert(said@ =~= "`"@ + named@ + "` is the derivative of `"@ + class.name@
            + "`, so it takes "@ + digits(wanted as nat) + " inputs - what `"@ + class.name@
            + "` takes, and then one derivative for each - but it takes "@ + digits(
            taken@.len() as nat,
        ));
        return Err(said);
    }
    let seeds = write_seeds(q.registry, class, args, &rates);
    let ghost sv = seeds.deep_view();
    let mut handed = crate::expr::copy_all(args);
    let ghost named_rates = Seq::new(sv.len(), |i: int| ExprV::Ref(sv[i].0));
    let mut i: usize = 0;
    assert(av + named_rates.take(0) =~= av);
    while i < seeds.len()
        invariant
            i <= seeds.len(),
            sv == seeds.deep_view(),
            named_rates == Seq::new(sv.len(), |i: int| ExprV::Ref(sv[i].0)),
            handed.deep_view() == av + named_rates.take(i as int),
        decreases seeds.len() - i,
    {
        let ghost before = handed.deep_view();
        assert(sv[i as int] == seeds@[i as int].deep_view());
        handed.push(make::name(seeds[i].0.clone()));
        assert(handed.deep_view() =~= before.push(named_rates[i as int]));
        assert(before.push(named_rates[i as int]) =~= av + named_rates.take(i + 1));
        i = i + 1;
    }
    assert(named_rates.take(i as int) =~= named_rates);
    let all_shapes = seed_shapes(q.registry, class, shapes, &rates, args.len());
    match h.do_again(of, &handed, &all_shapes, find_deeper(depth)) {
        Ok(rule) => Ok((rule, seeds)),
        Err(why) => Err(why),
    }
}

/// Inline a call in an expression: the value is the first output.
///
/// A call that nothing can inline is left standing, and the run walks the body:
/// a loop whose trip count the model decides, a recursion that does not come
/// to an end here, or a body inlined into bodies too deep. What a function
/// says about its own inverse is checked and set aside; one that says how to
/// differentiate itself keeps its rule beside its value.
pub fn inline_function<
    A1: Fn(&ClassDef, &Vec<Expr>, &Vec<Vec<i64>>, usize) -> Result<Answer, String>,
    A2: Fn(&Expr, &str, &Vec<(String, String)>) -> Expr,
    A3: Fn(&ClassDef) -> bool,
    A4: Fn(&Expr) -> bool,
    A5: Fn(&str) -> bool,
    A6: Fn(&str) -> bool,
    A7: Fn(&Expr) -> String,
    A8: Fn(&str, &Vec<u64>) -> Option<u64>,
    A9: Fn(&str) -> bool,
    B1: Fn(&ClassDef, &Vec<Expr>, &Vec<Vec<i64>>, usize) -> Result<Inlined, String>,
    W: Fn(Arith, Number, Number) -> Number,
    O: Fn(&str, &Vec<Number>) -> Option<Vec<Number>>,
    N: Fn(&str) -> String,
>(
    h: &Inlining<A1, A2, A3, A4, A5, A6, A7, A8, A9, B1>,
    sums: &Sums<W, O, N>,
    q: &Unfolding,
    class: &ClassDef,
    args: &Vec<Expr>,
    shapes: &Vec<Vec<i64>>,
    depth: usize,
    nested: usize,
) -> (r: Result<Inlined, String>)
    requires
        inlining_true(*h),
        is_steady(*sums),
    ensures
        told(r) == call_inlined(
            unfolding_of(*h, *sums, *q),
            *class,
            args.deep_view(),
            shapes.deep_view(),
            depth,
            nested as nat,
        ),
{
    let ghost g = unfolding_of(*h, *sums, *q);
    if nested > q.most {
        return Ok(stand(class, args));
    }
    let answer = match inline_function_outputs(
        h,
        sums,
        q,
        class,
        args,
        shapes,
        depth,
    ) {
        Ok(answer) => answer,
        Err(why) => {
            let stays = h.do_endless(why.as_str()) || (h.do_leaves(why.as_str()) && walkable(
                h,
                sums,
                q,
                class,
            ).is_none()) || h.do_recursive(class);
            return if stays {
                Ok(stand(class, args))
            } else {
                Err(why)
            };
        },
    };
    if find_unbounded(h, sums, q, &answer.outputs) {
        return Ok(stand(class, args));
    }
    if let Some(why) = check_inverse(q.registry, class) {
        return Err(why);
    }
    assert(answer.outputs.deep_view().len() == answer.outputs@.len());
    assert(answer.outputs.deep_view()[0] == answer.outputs@[0].deep_view());
    let value = answer.outputs[0].1.clone();
    let (_, left) = leave_aside(answer);
    match &class.derivative {
        None => Ok(Inlined { value, aside: left }),
        Some(named) => {
            match derivative_rule(h, sums, q, class, named.as_str(), args, shapes, depth) {
                Ok(made) => {
                    let ghost checks = left.deep_view();
                    let (rule, seeds) = made;
                    let ghost behind = rule.aside.deep_view();
                    let mut aside = left;
                    let mut more = rule.aside;
                    aside.append(&mut more);
                    assert(aside.deep_view() =~= checks + behind);
                    let whole = make::with_derivative(value, rule.value, seeds);
                    Ok(Inlined { value: whole, aside })
                },
                Err(why) => Err(why),
            }
        },
    }
}

/// What an argument handed outside reads as: a name as itself.
pub open spec fn argument_shown(g: UnfoldingV, e: ExprV) -> Seq<char> {
    match e {
        ExprV::Ref(name) => name,
        _ => (g.h.sketch)(e),
    }
}

/// What is said about a function whose body is written outside Modelica and
/// which nobody here answers for.
pub open spec fn outside_told(g: UnfoldingV, class: ClassDef) -> Seq<char> {
    match class.external_call {
        None => "`"@ + class.name@
            + "` has a body written outside Modelica, which this compiler cannot run"@,
        Some(call) => {
            let args = call.arguments.deep_view();
            "`"@ + class.name@ + "` is `"@ + call.called@ + "("@ + joined(
                Seq::new(args.len(), |i: int| argument_shown(g, args[i])),
                ", "@,
            ) + ")`"@ + (match call.language {
                Some(language) => " in "@ + language@,
                None => ""@,
            })
                + ", written outside Modelica; this compiler has none of its own for that name, and no outside library was given"@
        },
    }
}

/// What to say about a function whose body is written outside Modelica and
/// which nobody here answers for: the declaration says what is called and what
/// it is handed, so the refusal says it too.
pub fn outside_this_language<
    A1: Fn(&ClassDef, &Vec<Expr>, &Vec<Vec<i64>>, usize) -> Result<Answer, String>,
    A2: Fn(&Expr, &str, &Vec<(String, String)>) -> Expr,
    A3: Fn(&ClassDef) -> bool,
    A4: Fn(&Expr) -> bool,
    A5: Fn(&str) -> bool,
    A6: Fn(&str) -> bool,
    A7: Fn(&Expr) -> String,
    A8: Fn(&str, &Vec<u64>) -> Option<u64>,
    A9: Fn(&str) -> bool,
    B1: Fn(&ClassDef, &Vec<Expr>, &Vec<Vec<i64>>, usize) -> Result<Inlined, String>,
    W: Fn(Arith, Number, Number) -> Number,
    O: Fn(&str, &Vec<Number>) -> Option<Vec<Number>>,
    N: Fn(&str) -> String,
>(
    h: &Inlining<A1, A2, A3, A4, A5, A6, A7, A8, A9, B1>,
    sums: &Sums<W, O, N>,
    q: &Unfolding,
    class: &ClassDef,
) -> (r: String)
    requires
        inlining_true(*h),
        is_steady(*sums),
    ensures
        r@ == outside_told(unfolding_of(*h, *sums, *q), *class),
{
    let ghost g = unfolding_of(*h, *sums, *q);
    let call = match &class.external_call {
        Some(call) => call,
        None => {
            return join3(
                "`",
                class.name.as_str(),
                "` has a body written outside Modelica, which this compiler cannot run",
            );
        },
    };
    let ghost av = call.arguments.deep_view();
    let ghost whole = Seq::new(av.len(), |i: int| argument_shown(g, av[i]));
    let mut handed: Vec<String> = Vec::new();
    let mut i: usize = 0;
    while i < call.arguments.len()
        invariant
            i <= call.arguments.len(),
            inlining_true(*h),
            is_steady(*sums),
            g == unfolding_of(*h, *sums, *q),
            av == call.arguments.deep_view(),
            handed.len() == i,
            forall|k: int| 0 <= k < i ==> (#[trigger] handed@[k])@ == argument_shown(g, av[k]),
        decreases call.arguments.len() - i,
    {
        assert(av[i as int] == call.arguments@[i as int].deep_view());
        let text = match &call.arguments[i] {
            Expr::Ref(name) => name.clone(),
            other => h.do_sketch(other),
        };
        handed.push(text);
        i = i + 1;
    }
    assert(av.len() == call.arguments@.len());
    assert(texts(handed@) =~= whole);
    let list = join_all(&handed, ", ");
    let language = match &call.language {
        Some(language) => join2(" in ", language.as_str()),
        None => "".to_owned(),
    };
    let head = join7(
        "`",
        class.name.as_str(),
        "` is `",
        call.called.as_str(),
        "(",
        list.as_str(),
        ")`",
    );
    join3(
        head.as_str(),
        language.as_str(),
        ", written outside Modelica; this compiler has none of its own for that name, and no outside library was given",
    )
}

/// Two counts put together, as far as a count goes.
pub open spec fn together(a: u64, b: u64) -> u64 {
    if a + b > u64::MAX {
        u64::MAX
    } else {
        (a + b) as u64
    }
}

pub fn put_together(a: u64, b: u64) -> (r: u64)
    ensures
        r == together(a, b),
{
    if a > u64::MAX - b {
        u64::MAX
    } else {
        a + b
    }
}

/// How many numbers a value written out holds.
pub open spec fn numbers_held(e: ExprV) -> u64
    decreases e, kids(e).len() + 1,
{
    match e {
        ExprV::Array(_) => numbers_below(e, kids(e).len()),
        _ => 1,
    }
}

/// How many the first `n` of what stands in it hold.
pub open spec fn numbers_below(e: ExprV, n: nat) -> u64
    decreases e, n,
{
    proof {
        lemma_kids_smaller(e);
    }
    if n == 0 || n > kids(e).len() {
        0
    } else {
        together(numbers_below(e, (n - 1) as nat), numbers_held(kids(e)[n - 1]))
    }
}

/// How many numbers a value written out holds.
pub fn numbers_in(expr: &Expr) -> (r: u64)
    ensures
        r == numbers_held(expr.deep_view()),
    decreases expr.deep_view(),
{
    let ghost shape = expr.deep_view();
    match expr {
        Expr::Array(_) => {},
        _ => {
            return 1;
        },
    }
    let parts = expr.children();
    let mut total: u64 = 0;
    let mut i: usize = 0;
    proof {
        lemma_kids_smaller(shape);
    }
    assert(parts.deep_view().len() == parts@.len());
    while i < parts.len()
        invariant
            i <= parts.len(),
            shape == expr.deep_view(),
            parts.deep_view() == kids(shape),
            parts.deep_view().len() == parts@.len(),
            forall|k: int|
                0 <= k < kids(shape).len() ==> (#[trigger] decreases_to!(shape => kids(shape)[k])),
            total == numbers_below(shape, i as nat),
        decreases parts.len() - i,
    {
        assert(parts.deep_view()[i as int] == parts@[i as int].deep_view());
        assert(decreases_to!(shape => kids(shape)[i as int]));
        let part: &Expr = parts[i];
        let held: u64 = numbers_in(part);
        total = put_together(total, held);
        i = i + 1;
    }
    total
}

/// One place of what a call answers with, counted from nothing.
pub open spec fn place_of(v: SumsV, made: ExprV, which: u64) -> ExprV {
    ExprV::Index(
        Box::new(made),
        seq![ExprV::Number((v.work)(Arith::Add, nearest(which as nat), one()))],
    )
}

/// The length of an output that has one dimension: a constant of the package
/// the function is written in, or a length the call handed over.
pub open spec fn answer_length(
    g: UnfoldingV,
    class: ClassDef,
    dimension: ExprV,
    consts: Worths,
    given: Lengths,
) -> Option<i64> {
    let named = (g.h.put)(dimension, class.name@, class.imports.deep_view());
    match evaluated(named, consts, g.v) {
        Some(length) => Some(length.clipped() as i64),
        None => length_told(named, consts, given, g.v),
    }
}

/// What an output takes of an answer: how many places, and the value written
/// with them.
pub open spec fn share_of(
    g: UnfoldingV,
    class: ClassDef,
    output: ComponentV,
    consts: Worths,
    given: Lengths,
    made: ExprV,
    taken: u64,
) -> Result<(u64, ExprV), Seq<char>> {
    if output.dimensions.len() == 0 {
        Ok((1, place_of(g.v, made, taken)))
    } else if output.dimensions.len() == 1 {
        match answer_length(g, class, output.dimensions[0], consts, given) {
            Some(length) => Ok(
                (
                    places(length) as u64,
                    ExprV::Array(
                        Seq::new(
                            places(length),
                            |step: int| place_of(g.v, made, together(taken, step as u64)),
                        ),
                    ),
                ),
            ),
            None => Err(
                "`"@ + class.name@ + "` answers with `"@ + output.name
                    + "`, whose length this compiler cannot see"@,
            ),
        }
    } else {
        Err(
            "`"@ + class.name@ + "` answers with `"@ + output.name
                + "`, whose shape this compiler cannot see"@,
        )
    }
}

/// The outputs among declarations from the `i`-th on, each given its share of
/// an answer after those already taken.
pub open spec fn outputs_shared(
    g: UnfoldingV,
    class: ClassDef,
    list: Seq<ComponentV>,
    consts: Worths,
    given: Lengths,
    made: ExprV,
    i: nat,
    taken: u64,
    out: Seq<(Seq<char>, ExprV)>,
) -> Result<(u64, Seq<(Seq<char>, ExprV)>), Seq<char>>
    decreases list.len() - i,
{
    if i >= list.len() {
        Ok((taken, out))
    } else if list[i as int].causality != Causality::Output {
        outputs_shared(g, class, list, consts, given, made, i + 1, taken, out)
    } else {
        match share_of(g, class, list[i as int], consts, given, made, taken) {
            Err(why) => Err(why),
            Ok(share) => outputs_shared(
                g,
                class,
                list,
                consts,
                given,
                made,
                i + 1,
                together(taken, share.0),
                out.push((list[i as int].name, share.1)),
            ),
        }
    }
}

/// The outputs of a body written outside, each taking its own place of what the
/// call answers with, which has to come out even.
pub open spec fn outputs_numbered(
    g: UnfoldingV,
    class: ClassDef,
    consts: Worths,
    given: Lengths,
    made: ExprV,
    answers: u64,
) -> Result<Seq<(Seq<char>, ExprV)>, Seq<char>> {
    match outputs_shared(
        g,
        class,
        declared_by(g.classes, class, 0),
        consts,
        given,
        made,
        0,
        0,
        Seq::empty(),
    ) {
        Err(why) => Err(why),
        Ok(shared) => if shared.0 != answers {
            Err(
                "`"@ + class.name@ + "` answers with "@ + digits(shared.0 as nat)
                    + " number(s), and the body written here answers with "@ + digits(
                    answers as nat,
                ),
            )
        } else {
            Ok(shared.1)
        },
    }
}

fn write_place<
    W: Fn(Arith, Number, Number) -> Number,
    O: Fn(&str, &Vec<Number>) -> Option<Vec<Number>>,
    N: Fn(&str) -> String,
>(sums: &Sums<W, O, N>, made: &Expr, which: u64) -> (r: Expr)
    requires
        is_steady(*sums),
    ensures
        r.deep_view() == place_of(sums_of(*sums), made.deep_view(), which),
{
    let mut subscripts: Vec<Expr> = Vec::new();
    subscripts.push(make::number(sums.step(Arith::Add, from_count(which), one())));
    assert(subscripts.deep_view() =~= seq![
        ExprV::Number((sums_of(*sums).work)(Arith::Add, nearest(which as nat), one())),
    ]);
    make::index(made.clone(), subscripts)
}

fn give_share<
    A1: Fn(&ClassDef, &Vec<Expr>, &Vec<Vec<i64>>, usize) -> Result<Answer, String>,
    A2: Fn(&Expr, &str, &Vec<(String, String)>) -> Expr,
    A3: Fn(&ClassDef) -> bool,
    A4: Fn(&Expr) -> bool,
    A5: Fn(&str) -> bool,
    A6: Fn(&str) -> bool,
    A7: Fn(&Expr) -> String,
    A8: Fn(&str, &Vec<u64>) -> Option<u64>,
    A9: Fn(&str) -> bool,
    B1: Fn(&ClassDef, &Vec<Expr>, &Vec<Vec<i64>>, usize) -> Result<Inlined, String>,
    W: Fn(Arith, Number, Number) -> Number,
    O: Fn(&str, &Vec<Number>) -> Option<Vec<Number>>,
    N: Fn(&str) -> String,
>(
    h: &Inlining<A1, A2, A3, A4, A5, A6, A7, A8, A9, B1>,
    sums: &Sums<W, O, N>,
    q: &Unfolding,
    class: &ClassDef,
    output: &Component,
    consts: &Table<Number>,
    given: &Table<Vec<i64>>,
    made: &Expr,
    taken: u64,
) -> (r: Result<(u64, Expr), String>)
    requires
        inlining_true(*h),
        is_steady(*sums),
    ensures
        match (r, share_of(
            unfolding_of(*h, *sums, *q),
            *class,
            output.deep_view(),
            consts.deep_view(),
            given.deep_view(),
            made.deep_view(),
            taken,
        )) {
            (Ok(share), Ok(meant)) => share.0 == meant.0 && share.1.deep_view() == meant.1,
            (Err(why), Err(said)) => why@ == said,
            _ => false,
        },
{
    let ghost g = unfolding_of(*h, *sums, *q);
    assert(output.deep_view().dimensions == output.dimensions.deep_view());
    assert(output.dimensions.deep_view().len() == output.dimensions@.len());
    if output.dimensions.len() == 0 {
        return Ok((1, write_place(sums, made, taken)));
    }
    if output.dimensions.len() != 1 {
        return Err(
            join5(
                "`",
                class.name.as_str(),
                "` answers with `",
                output.name.as_str(),
                "`, whose shape this compiler cannot see",
            ),
        );
    }
    assert(output.dimensions.deep_view()[0] == output.dimensions@[0].deep_view());
    let named = h.do_put(&output.dimensions[0], class.name.as_str(), &class.imports);
    let told_length = match const_eval(&named, consts, sums) {
        Some(length) => Some(length.to_int()),
        None => dimension_value(sums, &named, consts, given),
    };
    let length: i64 = match told_length {
        Some(length) => length,
        None => {
            return Err(
                join5(
                    "`",
                    class.name.as_str(),
                    "` answers with `",
                    output.name.as_str(),
                    "`, whose length this compiler cannot see",
                ),
            );
        },
    };
    let ghost whole = Seq::new(
        places(length),
        |step: int| place_of(g.v, made.deep_view(), together(taken, step as u64)),
    );
    let mut items: Vec<Expr> = Vec::new();
    let mut step: i64 = 0;
    assert(items.deep_view() =~= whole.take(0));
    while step < length
        invariant
            0 <= step <= places(length),
            is_steady(*sums),
            g.v == sums_of(*sums),
            whole == Seq::new(
                places(length),
                |step: int| place_of(g.v, made.deep_view(), together(taken, step as u64)),
            ),
            items.deep_view() == whole.take(step as int),
        decreases length - step,
    {
        let ghost before = items.deep_view();
        let which: u64 = put_together(taken, step as u64);
        items.push(write_place(sums, made, which));
        assert(items.deep_view() =~= before.push(whole[step as int]));
        assert(before.push(whole[step as int]) =~= whole.take(step + 1));
        step = step + 1;
    }
    assert(whole.take(step as int) =~= whole);
    let many: u64 = if length < 0 {
        0
    } else {
        length as u64
    };
    Ok((many, make::array(items)))
}

/// The outputs of a body written outside, each taking its own place of what the
/// call answers with.
///
/// The answer is one flat list of numbers, in the order the outputs were
/// declared and each written out: an output of two numbers takes two places,
/// and a scalar output is one.
pub fn numbered_outputs<
    A1: Fn(&ClassDef, &Vec<Expr>, &Vec<Vec<i64>>, usize) -> Result<Answer, String>,
    A2: Fn(&Expr, &str, &Vec<(String, String)>) -> Expr,
    A3: Fn(&ClassDef) -> bool,
    A4: Fn(&Expr) -> bool,
    A5: Fn(&str) -> bool,
    A6: Fn(&str) -> bool,
    A7: Fn(&Expr) -> String,
    A8: Fn(&str, &Vec<u64>) -> Option<u64>,
    A9: Fn(&str) -> bool,
    B1: Fn(&ClassDef, &Vec<Expr>, &Vec<Vec<i64>>, usize) -> Result<Inlined, String>,
    W: Fn(Arith, Number, Number) -> Number,
    O: Fn(&str, &Vec<Number>) -> Option<Vec<Number>>,
    N: Fn(&str) -> String,
>(
    h: &Inlining<A1, A2, A3, A4, A5, A6, A7, A8, A9, B1>,
    sums: &Sums<W, O, N>,
    q: &Unfolding,
    class: &ClassDef,
    consts: &Table<Number>,
    given: &Table<Vec<i64>>,
    made: &Expr,
    answers: u64,
) -> (r: Result<Vec<(String, Expr)>, String>)
    requires
        inlining_true(*h),
        is_steady(*sums),
    ensures
        told(r) == outputs_numbered(
            unfolding_of(*h, *sums, *q),
            *class,
            consts.deep_view(),
            given.deep_view(),
            made.deep_view(),
            answers,
        ),
{
    let ghost g = unfolding_of(*h, *sums, *q);
    let list = function_components(q.registry, class, 0);
    let ghost all = list.deep_view();
    assert(all.len() == list@.len());
    let mut out: Vec<(String, Expr)> = Vec::new();
    let mut taken: u64 = 0;
    let mut i: usize = 0;
    assert(out.deep_view() =~= Seq::empty());
    while i < list.len()
        invariant
            i <= list.len(),
            inlining_true(*h),
            is_steady(*sums),
            g == unfolding_of(*h, *sums, *q),
            all == list.deep_view(),
            all.len() == list@.len(),
            all == declared_by(g.classes, *class, 0),
            outputs_shared(
                g,
                *class,
                all,
                consts.deep_view(),
                given.deep_view(),
                made.deep_view(),
                0,
                0,
                Seq::empty(),
            ) == outputs_shared(
                g,
                *class,
                all,
                consts.deep_view(),
                given.deep_view(),
                made.deep_view(),
                i as nat,
                taken,
                out.deep_view(),
            ),
        decreases list.len() - i,
    {
        assert(all[i as int] == list@[i as int].deep_view());
        if list[i].causality == Causality::Output {
            let share = match give_share(h, sums, q, class, &list[i], consts, given, made, taken) {
                Ok(share) => share,
                Err(why) => {
                    return Err(why);
                },
            };
            let ghost before = out.deep_view();
            let ghost said = share.1.deep_view();
            out.push((list[i].name.clone(), share.1));
            assert(out.deep_view() =~= before.push((all[i as int].name, said)));
            taken = put_together(taken, share.0);
        }
        i = i + 1;
    }
    if taken != answers {
        let a = decimal(taken);
        let b = decimal(answers);
        let head = join3("`", class.name.as_str(), "` answers with ");
        return Err(
            crate::text::join4(
                head.as_str(),
                a.as_str(),
                " number(s), and the body written here answers with ",
                b.as_str(),
            ),
        );
    }
    Ok(out)
}

/// The first output a class declares, from the `i`-th declaration on.
pub open spec fn first_output(class: ClassDef, i: nat) -> Option<Component>
    decreases class.components@.len() - i,
{
    if i >= class.components@.len() {
        None
    } else if class.components@[i as int].causality == Causality::Output {
        Some(class.components@[i as int])
    } else {
        first_output(class, i + 1)
    }
}

fn find_output(class: &ClassDef) -> (r: Option<&Component>)
    ensures
        match r {
            Some(c) => first_output(*class, 0) == Some(*c),
            None => first_output(*class, 0) is None,
        },
{
    let mut i: usize = 0;
    while i < class.components.len()
        invariant
            i <= class.components.len(),
            first_output(*class, 0) == first_output(*class, i as nat),
        decreases class.components.len() - i,
    {
        if class.components[i].causality == Causality::Output {
            return Some(&class.components[i]);
        }
        i = i + 1;
    }
    None
}

/// The shapes the first `n` inputs were handed, under their names.
pub open spec fn shapes_handed(inputs: Seq<ComponentV>, shapes: Seq<Seq<i64>>, n: nat) -> Lengths
    decreases n,
{
    if n == 0 || n > inputs.len() || n > shapes.len() {
        Map::empty()
    } else {
        shapes_handed(inputs, shapes, (n - 1) as nat).insert(inputs[n - 1].name, shapes[n - 1])
    }
}

/// How many numbers the first `n` of a list of counts make.
pub open spec fn counted(list: Seq<u64>, n: nat) -> u64
    decreases n,
{
    if n == 0 || n > list.len() {
        0
    } else {
        together(counted(list, (n - 1) as nat), list[n - 1])
    }
}

/// The numbers each argument holds.
pub open spec fn counts_handed(args: Seq<ExprV>) -> Seq<u64> {
    Seq::new(args.len(), |i: int| numbers_held(args[i]))
}

pub open spec fn no_output(class: ClassDef) -> Seq<char> {
    "function `"@ + class.name@ + "` declares no output"@
}

/// The shorter of two lists' lengths.
pub open spec fn shorter(a: nat, b: nat) -> nat {
    if a < b {
        a
    } else {
        b
    }
}

/// What a function whose body is not Modelica answers with: nothing where the
/// body is ordinary and the caller walks it.
pub open spec fn written_elsewhere(
    g: UnfoldingV,
    class: ClassDef,
    args: Seq<ExprV>,
    shapes: Seq<Seq<i64>>,
    consts: Worths,
) -> Result<Option<Seq<(Seq<char>, ExprV)>>, Seq<char>> {
    match class.builtin {
        Some(builtin) => match first_output(class, 0) {
            None => Err(no_output(class)),
            Some(output) => Ok(Some(seq![(output.name@, ExprV::Call(builtin@, args))])),
        },
        None => if !class.external {
            Ok(None)
        } else {
            match class.external_call {
                None => Err(outside_told(g, class)),
                Some(call) => if !is_answered_here(call.called@) && !(g.h.written)(call.called@) {
                    Err(outside_told(g, class))
                } else {
                    called_elsewhere(g, class, call.called@, args, shapes, consts)
                },
            }
        },
    }
}

/// What a call of a body written outside answers with, once it is known who
/// answers: one that answers with numbers gives each output its own place of
/// them; any other is left standing, and an answer declared an array is taken
/// a place at a time.
pub open spec fn called_elsewhere(
    g: UnfoldingV,
    class: ClassDef,
    called: Seq<char>,
    args: Seq<ExprV>,
    shapes: Seq<Seq<i64>>,
    consts: Worths,
) -> Result<Option<Seq<(Seq<char>, ExprV)>>, Seq<char>> {
    let made = ExprV::Call(called, args);
    let handed = counts_handed(args);
    match (g.h.outside)(called, handed) {
        Some(answers) => {
            let inputs = inputs_of(g.classes, class);
            let given = shapes_handed(inputs, shapes, shorter(inputs.len(), shapes.len()));
            match outputs_numbered(g, class, consts, given, made, answers) {
                Err(why) => Err(why),
                Ok(outputs) => Ok(Some(outputs)),
            }
        },
        None => if (g.h.written)(called) {
            Err(
                "`"@ + called + "` is written here, and not for what it was handed: "@ + digits(
                    handed.len(),
                ) + " argument(s) of "@ + digits(counted(handed, handed.len()) as nat)
                    + " number(s) in all"@,
            )
        } else {
            match first_output(class, 0) {
                None => Err(no_output(class)),
                Some(output) => Ok(Some(seq![(output.name@, answer_stood(output, made))])),
            }
        },
    }
}

/// What an output is bound to where the call is left standing.
pub open spec fn answer_stood(output: Component, made: ExprV) -> ExprV {
    let dims = output.dimensions.deep_view();
    if dims.len() == 1 && dims[0] is Number {
        ExprV::Array(
            Seq::new(
                places(dims[0]->Number_0.clipped() as i64),
                |i: int|
                    ExprV::Index(Box::new(made), seq![ExprV::Number(nearest_to(i + 1))]),
            ),
        )
    } else {
        made
    }
}

fn stand_answer(output: &Component, made: &Expr) -> (r: Expr)
    ensures
        r.deep_view() == answer_stood(*output, made.deep_view()),
{
    let ghost dims = output.dimensions.deep_view();
    assert(dims.len() == output.dimensions@.len());
    if output.dimensions.len() != 1 {
        return made.clone();
    }
    assert(dims[0] == output.dimensions@[0].deep_view());
    let length: i64 = match &output.dimensions[0] {
        Expr::Number(length) => length.to_int(),
        _ => {
            return made.clone();
        },
    };
    let ghost whole = Seq::new(
        places(length),
        |i: int|
            ExprV::Index(Box::new(made.deep_view()), seq![ExprV::Number(nearest_to(i + 1))]),
    );
    let mut items: Vec<Expr> = Vec::new();
    let mut i: i64 = 0;
    assert(items.deep_view() =~= whole.take(0));
    while i < length
        invariant
            0 <= i <= places(length),
            whole == Seq::new(
                places(length),
                |i: int|
                    ExprV::Index(
                        Box::new(made.deep_view()),
                        seq![ExprV::Number(nearest_to(i + 1))],
                    ),
            ),
            items.deep_view() == whole.take(i as int),
        decreases length - i,
    {
        let ghost before = items.deep_view();
        let mut subscripts: Vec<Expr> = Vec::new();
        subscripts.push(make::number(from_int(i + 1)));
        assert(subscripts.deep_view() =~= seq![ExprV::Number(nearest_to(i + 1))]);
        items.push(make::index(made.clone(), subscripts));
        assert(items.deep_view() =~= before.push(whole[i as int]));
        assert(before.push(whole[i as int]) =~= whole.take(i + 1));
        i = i + 1;
    }
    assert(whole.take(i as int) =~= whole);
    make::array(items)
}

fn one_output(name: &String, value: Expr) -> (r: Vec<(String, Expr)>)
    ensures
        r.deep_view() == seq![(name@, value.deep_view())],
{
    let mut out: Vec<(String, Expr)> = Vec::new();
    let ghost said = value.deep_view();
    out.push((name.clone(), value));
    assert(out.deep_view() =~= seq![(name@, said)]);
    out
}

fn hand_shapes(
    registry: &Registry,
    class: &ClassDef,
    shapes: &Vec<Vec<i64>>,
) -> (r: Table<Vec<i64>>)
    ensures
        r.deep_view() == shapes_handed(
            inputs_of(registry@, *class),
            shapes.deep_view(),
            shorter(inputs_of(registry@, *class).len(), shapes.deep_view().len()),
        ),
{
    let inputs = list_inputs(registry, class);
    let ghost iv = inputs.deep_view();
    let ghost sv = shapes.deep_view();
    assert(iv.len() == inputs@.len());
    assert(sv.len() == shapes@.len());
    let mut given: Table<Vec<i64>> = Table::new();
    let mut i: usize = 0;
    assert(given.deep_view() =~= shapes_handed(iv, sv, 0));
    while i < inputs.len() && i < shapes.len()
        invariant
            i <= shorter(iv.len(), sv.len()),
            iv == inputs.deep_view(),
            sv == shapes.deep_view(),
            iv.len() == inputs@.len(),
            sv.len() == shapes@.len(),
            given.deep_view() == shapes_handed(iv, sv, i as nat),
        decreases inputs.len() - i,
    {
        assert(iv[i as int] == inputs@[i as int].deep_view());
        assert(sv[i as int] == shapes@[i as int].deep_view());
        let copy = crate::names::same_indices(&shapes[i]);
        assert(copy.deep_view() =~= shapes@[i as int].deep_view());
        given.put(inputs[i].name.clone(), copy);
        i = i + 1;
    }
    given
}

fn count_handed(args: &Vec<Expr>) -> (r: Vec<u64>)
    ensures
        r@ == counts_handed(args.deep_view()),
{
    let ghost av = args.deep_view();
    assert(av.len() == args@.len());
    let mut out: Vec<u64> = Vec::new();
    let mut i: usize = 0;
    while i < args.len()
        invariant
            i <= args.len(),
            av == args.deep_view(),
            out.len() == i,
            forall|k: int| 0 <= k < i ==> #[trigger] out@[k] == numbers_held(av[k]),
        decreases args.len() - i,
    {
        assert(av[i as int] == args@[i as int].deep_view());
        out.push(numbers_in(&args[i]));
        i = i + 1;
    }
    assert(out@ =~= counts_handed(av));
    out
}

fn count_all(list: &Vec<u64>) -> (r: u64)
    ensures
        r == counted(list@, list@.len()),
{
    let mut total: u64 = 0;
    let mut i: usize = 0;
    while i < list.len()
        invariant
            i <= list.len(),
            total == counted(list@, i as nat),
        decreases list.len() - i,
    {
        total = put_together(total, list[i]);
        i = i + 1;
    }
    total
}

fn call_elsewhere<
    A1: Fn(&ClassDef, &Vec<Expr>, &Vec<Vec<i64>>, usize) -> Result<Answer, String>,
    A2: Fn(&Expr, &str, &Vec<(String, String)>) -> Expr,
    A3: Fn(&ClassDef) -> bool,
    A4: Fn(&Expr) -> bool,
    A5: Fn(&str) -> bool,
    A6: Fn(&str) -> bool,
    A7: Fn(&Expr) -> String,
    A8: Fn(&str, &Vec<u64>) -> Option<u64>,
    A9: Fn(&str) -> bool,
    B1: Fn(&ClassDef, &Vec<Expr>, &Vec<Vec<i64>>, usize) -> Result<Inlined, String>,
    W: Fn(Arith, Number, Number) -> Number,
    O: Fn(&str, &Vec<Number>) -> Option<Vec<Number>>,
    N: Fn(&str) -> String,
>(
    h: &Inlining<A1, A2, A3, A4, A5, A6, A7, A8, A9, B1>,
    sums: &Sums<W, O, N>,
    q: &Unfolding,
    class: &ClassDef,
    called: &str,
    args: &Vec<Expr>,
    shapes: &Vec<Vec<i64>>,
    consts: &Table<Number>,
) -> (r: Result<Option<Vec<(String, Expr)>>, String>)
    requires
        inlining_true(*h),
        is_steady(*sums),
    ensures
        told(r) == called_elsewhere(
            unfolding_of(*h, *sums, *q),
            *class,
            called@,
            args.deep_view(),
            shapes.deep_view(),
            consts.deep_view(),
        ),
{
    let made = make::call(called, crate::expr::copy_all(args));
    let handed = count_handed(args);
    if let Some(answers) = h.do_outside(called, &handed) {
        let given = hand_shapes(q.registry, class, shapes);
        return match numbered_outputs(h, sums, q, class, consts, &given, &made, answers) {
            Ok(outputs) => Ok(Some(outputs)),
            Err(why) => Err(why),
        };
    }
    if h.do_written(called) {
        let a = decimal(handed.len() as u64);
        let b = decimal(count_all(&handed));
        return Err(
            join7(
                "`",
                called,
                "` is written here, and not for what it was handed: ",
                a.as_str(),
                " argument(s) of ",
                b.as_str(),
                " number(s) in all",
            ),
        );
    }
    match find_output(class) {
        None => Err(join3("function `", class.name.as_str(), "` declares no output")),
        Some(output) => Ok(Some(one_output(&output.name, stand_answer(output, &made)))),
    }
}

/// A function whose body is not Modelica: one names an operator the language
/// already has, another names something that is either answered for or
/// refused by name. Nothing where the body is ordinary and the caller walks
/// it.
pub fn body_written_elsewhere<
    A1: Fn(&ClassDef, &Vec<Expr>, &Vec<Vec<i64>>, usize) -> Result<Answer, String>,
    A2: Fn(&Expr, &str, &Vec<(String, String)>) -> Expr,
    A3: Fn(&ClassDef) -> bool,
    A4: Fn(&Expr) -> bool,
    A5: Fn(&str) -> bool,
    A6: Fn(&str) -> bool,
    A7: Fn(&Expr) -> String,
    A8: Fn(&str, &Vec<u64>) -> Option<u64>,
    A9: Fn(&str) -> bool,
    B1: Fn(&ClassDef, &Vec<Expr>, &Vec<Vec<i64>>, usize) -> Result<Inlined, String>,
    W: Fn(Arith, Number, Number) -> Number,
    O: Fn(&str, &Vec<Number>) -> Option<Vec<Number>>,
    N: Fn(&str) -> String,
>(
    h: &Inlining<A1, A2, A3, A4, A5, A6, A7, A8, A9, B1>,
    sums: &Sums<W, O, N>,
    q: &Unfolding,
    class: &ClassDef,
    args: &Vec<Expr>,
    shapes: &Vec<Vec<i64>>,
    consts: &Table<Number>,
) -> (r: Result<Option<Vec<(String, Expr)>>, String>)
    requires
        inlining_true(*h),
        is_steady(*sums),
    ensures
        told(r) == written_elsewhere(
            unfolding_of(*h, *sums, *q),
            *class,
            args.deep_view(),
            shapes.deep_view(),
            consts.deep_view(),
        ),
{
    if let Some(builtin) = &class.builtin {
        return match find_output(class) {
            None => Err(join3("function `", class.name.as_str(), "` declares no output")),
            Some(output) => Ok(
                Some(
                    one_output(
                        &output.name,
                        make::call(builtin.as_str(), crate::expr::copy_all(args)),
                    ),
                ),
            ),
        };
    }
    if !class.external {
        return Ok(None);
    }
    match &class.external_call {
        None => Err(outside_this_language(h, sums, q, class)),
        Some(call) => {
            if answered_here(call.called.as_str()) || h.do_written(call.called.as_str()) {
                call_elsewhere(h, sums, q, class, call.called.as_str(), args, shapes, consts)
            } else {
                Err(outside_this_language(h, sums, q, class))
            }
        },
    }
}

/// A call of a body too deep inside other bodies is left standing as it is,
/// whatever the body would come to.
pub proof fn law_too_deep_a_call_stands(
    g: UnfoldingV,
    class: ClassDef,
    args: Seq<ExprV>,
    shapes: Seq<Seq<i64>>,
    depth: usize,
    nested: nat,
)
    requires
        nested > g.most,
    ensures
        call_inlined(g, class, args, shapes, depth, nested) == Ok::<InlinedV, Seq<char>>(
            standing(class, args),
        ),
{
}

}
