//! Resolving subscripts and calls, turning `T[i+1]` into the scalar reference
//! `T[3]`.
use crate::arguments::{order_builtin_arguments, ordered};
use crate::asked::{found_under_the_asked_name, function_asked_under, function_meant, meaning_asked};
use crate::class::{ClassDef, ClassKind, MAX_DEPTH};
use crate::expr::{expr_view, kids, lemma_views, told, with_kids, BinOp, Expr, ExprV, RelOp};
use crate::flat::Checks;
use crate::folding::{const_eval, evaluated, Worths};
use crate::inlining::{Inlined, InlinedV};
use crate::lookup::{is_it, left, lookup, meaning, Pairs, Registry};
use crate::make;
use crate::names::{
    element_name, element_of, is_boolean, is_boolean_form, pick_from_list, picked, same_indices,
};
use crate::number::{lemma_truth_clipped, one, zero, Number};
use crate::slices::ShapesV;
use crate::sums::{is_steady, sums_of, Arith, Sums, SumsV};
use crate::table::{entered, Table};
use crate::text::{
    begins_with, cut_last, decimal, digits, dot, dotted, join2, join3, join4, join_all, joined,
    same, signed, split_last, starts, texts, whole,
};
use vstd::prelude::*;

verus! {

/// What resolving is done with besides arithmetic: `show` writes an
/// expression out for a message and `spell` a number, `here` says whether a
/// body is written in this program, and `run` is what calling a function on
/// the given arguments comes to, at the given depth and under the given mark,
/// with the checks that its body set aside.
pub struct Hands<'s, W, O, N, S, L, H, C> {
    pub sums: &'s Sums<W, O, N>,
    pub show: S,
    pub spell: L,
    pub here: H,
    pub run: C,
    /// What they answer, mathematically.
    pub model: Ghost<HandsV>,
}

/// The same, as the functions they are.
pub ghost struct HandsV {
    pub sums: SumsV,
    pub show: spec_fn(ExprV) -> Seq<char>,
    pub spell: spec_fn(Number) -> Seq<char>,
    pub here: spec_fn(Seq<char>) -> bool,
    pub run: spec_fn(ClassDef, Option<Seq<char>>, Seq<ExprV>, Seq<Seq<i64>>, nat) -> Result<
        InlinedV,
        Seq<char>,
    >,
}

/// Whether each of them may be asked anything, and answers as `m` says.
pub open spec fn are_steady_to<
    S: Fn(&Expr) -> String,
    L: Fn(Number) -> String,
    H: Fn(&str) -> bool,
    C: Fn(&ClassDef, &Option<String>, &Vec<Expr>, &Vec<Vec<i64>>, usize) -> Result<Inlined, String>,
>(show: S, spell: L, here: H, run: C, m: HandsV) -> bool {
    &&& forall|e: &Expr| #[trigger] call_requires(show, (e,))
    &&& forall|e: &Expr, r: String| #[trigger]
        call_ensures(show, (e,), r) ==> r@ == (m.show)(e.deep_view())
    &&& forall|n: Number| #[trigger] call_requires(spell, (n,))
    &&& forall|n: Number, r: String| #[trigger]
        call_ensures(spell, (n,), r) ==> r@ == (m.spell)(n)
    &&& forall|name: &str| #[trigger] call_requires(here, (name,))
    &&& forall|name: &str, r: bool| #[trigger]
        call_ensures(here, (name,), r) ==> r == (m.here)(name@)
    &&& forall|
        class: &ClassDef,
        mark: &Option<String>,
        args: &Vec<Expr>,
        shapes: &Vec<Vec<i64>>,
        depth: usize,
    | #[trigger]
        call_requires(run, (class, mark, args, shapes, depth))
    &&& forall|
        class: &ClassDef,
        mark: &Option<String>,
        args: &Vec<Expr>,
        shapes: &Vec<Vec<i64>>,
        depth: usize,
        r: Result<Inlined, String>,
    | #[trigger]
        call_ensures(run, (class, mark, args, shapes, depth), r) ==> told(r) == (m.run)(
            *class,
            mark.deep_view(),
            args.deep_view(),
            shapes.deep_view(),
            depth as nat,
        )
}

/// Whether each of them may be asked anything, and answers as its model says.
pub open spec fn are_steady<
    W: Fn(Arith, Number, Number) -> Number,
    O: Fn(&str, &Vec<Number>) -> Option<Vec<Number>>,
    N: Fn(&str) -> String,
    S: Fn(&Expr) -> String,
    L: Fn(Number) -> String,
    H: Fn(&str) -> bool,
    C: Fn(&ClassDef, &Option<String>, &Vec<Expr>, &Vec<Vec<i64>>, usize) -> Result<Inlined, String>,
>(h: Hands<W, O, N, S, L, H, C>) -> bool {
    &&& is_steady(*h.sums)
    &&& h.model@.sums == sums_of(*h.sums)
    &&& are_steady_to(h.show, h.spell, h.here, h.run, h.model@)
}

/// What they answer, mathematically.
pub open spec fn hands_of<
    W: Fn(Arith, Number, Number) -> Number,
    O: Fn(&str, &Vec<Number>) -> Option<Vec<Number>>,
    N: Fn(&str) -> String,
    S: Fn(&Expr) -> String,
    L: Fn(Number) -> String,
    H: Fn(&str) -> bool,
    C: Fn(&ClassDef, &Option<String>, &Vec<Expr>, &Vec<Vec<i64>>, usize) -> Result<Inlined, String>,
>(h: Hands<W, O, N, S, L, H, C>) -> HandsV {
    h.model@
}

impl<
    's,
    W: Fn(Arith, Number, Number) -> Number,
    O: Fn(&str, &Vec<Number>) -> Option<Vec<Number>>,
    N: Fn(&str) -> String,
    S: Fn(&Expr) -> String,
    L: Fn(Number) -> String,
    H: Fn(&str) -> bool,
    C: Fn(&ClassDef, &Option<String>, &Vec<Expr>, &Vec<Vec<i64>>, usize) -> Result<Inlined, String>,
> Hands<'s, W, O, N, S, L, H, C> {
    /// The bundle of such functions, where there is anything they answer at all.
    pub fn new(sums: &'s Sums<W, O, N>, show: S, spell: L, here: H, run: C) -> (r: Self)
        requires
            is_steady(*sums),
            exists|m: HandsV| #[trigger] are_steady_to(show, spell, here, run, m),
        ensures
            are_steady(r),
            r.sums == sums,
            r.show == show,
            r.spell == spell,
            r.here == here,
            r.run == run,
    {
        let ghost m = choose|m: HandsV| #[trigger] are_steady_to(show, spell, here, run, m);
        Hands {
            sums,
            show,
            spell,
            here,
            run,
            model: Ghost(HandsV { sums: sums_of(*sums), ..m }),
        }
    }

    pub fn shown(&self, expr: &Expr) -> (r: String)
        requires
            are_steady(*self),
        ensures
            r@ == (hands_of(*self).show)(expr.deep_view()),
    {
        let show = &self.show;
        show(expr)
    }

    pub fn spelt(&self, n: Number) -> (r: String)
        requires
            are_steady(*self),
        ensures
            r@ == (hands_of(*self).spell)(n),
    {
        let spell = &self.spell;
        spell(n)
    }

    pub fn is_here(&self, name: &str) -> (r: bool)
        requires
            are_steady(*self),
        ensures
            r == (hands_of(*self).here)(name@),
    {
        let here = &self.here;
        here(name)
    }

    pub fn ran(
        &self,
        class: &ClassDef,
        mark: &Option<String>,
        args: &Vec<Expr>,
        shapes: &Vec<Vec<i64>>,
        depth: usize,
    ) -> (r: Result<Inlined, String>)
        requires
            are_steady(*self),
        ensures
            told(r) == (hands_of(*self).run)(
                *class,
                mark.deep_view(),
                args.deep_view(),
                shapes.deep_view(),
                depth as nat,
            ),
    {
        let run = &self.run;
        run(class, mark, args, shapes, depth)
    }
}

/// A short rendering of an expression, for a message that has to say which
/// one it means without printing a tree.
pub open spec fn sketched(text: Seq<char>) -> Seq<char> {
    if text.len() > 70 {
        text.take(70) + "..."@
    } else {
        text
    }
}

/// A text cut short after seventy characters.
pub fn sketch(text: &str) -> (r: String)
    ensures
        r@ == sketched(text@),
{
    let n: usize = text.unicode_len();
    if n > 70 {
        let start = text.substring_char(0, 70);
        assert(start@ =~= text@.take(70));
        join2(start, "...")
    } else {
        text.to_owned()
    }
}

/// Where an expression stands: what the loop variables and the parameters are
/// worth, how long the arrays are, where names are looked up, the calls left
/// standing for the run, the mark, and what is said of a body without an end.
pub struct Place<'p, 'a> {
    pub loop_vars: &'p Table<Number>,
    pub consts: &'p Table<Number>,
    pub sizes: &'p Table<Vec<i64>>,
    pub registry: &'p Registry<'a>,
    pub scope: &'p str,
    pub imports: &'p Vec<(String, String)>,
    pub standing: &'p Vec<(String, String)>,
    pub mark: &'p Option<String>,
    pub no_bottom: &'p str,
}

pub ghost struct PlaceV<'a> {
    pub loop_vars: Worths,
    pub consts: Worths,
    pub sizes: ShapesV,
    pub classes: Seq<&'a ClassDef>,
    pub scope: Seq<char>,
    pub imports: Pairs,
    pub standing: Pairs,
    pub mark: Option<Seq<char>>,
    pub no_bottom: Seq<char>,
}

impl<'p, 'a> DeepView for Place<'p, 'a> {
    type V = PlaceV<'a>;

    open spec fn deep_view(&self) -> PlaceV<'a> {
        PlaceV {
            loop_vars: self.loop_vars.deep_view(),
            consts: self.consts.deep_view(),
            sizes: self.sizes.deep_view(),
            classes: self.registry@,
            scope: self.scope@,
            imports: self.imports.deep_view(),
            standing: self.standing.deep_view(),
            mark: self.mark.deep_view(),
            no_bottom: self.no_bottom@,
        }
    }
}

/// What the names in view are worth to a subscript or a condition: the loop
/// variables before the parameters.
pub open spec fn worths_at(p: PlaceV) -> Worths {
    p.consts.union_prefer_right(p.loop_vars)
}

/// Whether a call takes what it was handed as it was handed it: one whose
/// body is written in this program, or a function left standing for the run
/// that was handed an array.
pub open spec fn travels_whole(name: Seq<char>, args: Seq<ExprV>, p: PlaceV, h: HandsV) -> bool {
    (h.here)(name) || ((exists|i: int| 0 <= i < args.len() && (#[trigger] args[i] is Array))
        && match meaning(p.classes, name, p.scope, p.imports) {
        Some(class) => class.kind == ClassKind::Function,
        None => false,
    } && p.standing.contains((name, p.scope)))
}

/// What an expression comes to with its subscripts settled and its calls
/// written out, or why it comes to nothing.
pub open spec fn resolved(e: ExprV, p: PlaceV, h: HandsV, depth: nat) -> Result<ExprV, Seq<char>>
    decreases left(depth), 0int, e, 0nat,
{
    if e is Number || e is Bool || e is Str {
        Ok(e)
    } else if depth > MAX_DEPTH {
        Err(
            "an expression "@ + p.no_bottom + ", nested deeper than the compiler follows: "@
                + sketched((h.show)(e)),
        )
    } else {
        match e {
            ExprV::Call(name, args) => if travels_whole(name, args, p, h) {
                match whole_list(args, args.len(), p, h, depth + 1) {
                    Err(why) => Err(why),
                    Ok(args) => Ok(ExprV::Call(name, args)),
                }
            } else {
                match resolved_list(args, args.len(), p, h, depth + 1) {
                    Err(why) => Err(why),
                    Ok(args) => match ordered(name, args) {
                        Err(why) => Err(why),
                        Ok(args) => called(name, args, p, h, depth),
                    },
                }
            },
            ExprV::Index(base, subscripts) => match *base {
                ExprV::Call(_, _) => match resolved(*base, p, h, depth + 1) {
                    Err(why) => Err(why),
                    Ok(base) => match resolved_list(
                        subscripts,
                        subscripts.len(),
                        p,
                        h,
                        depth + 1,
                    ) {
                        Err(why) => Err(why),
                        Ok(subscripts) => Ok(ExprV::Index(Box::new(base), subscripts)),
                    },
                },
                ExprV::Ref(_) => element_resolved(*base, subscripts, p, h, depth),
                ExprV::Array(_) => element_resolved(*base, subscripts, p, h, depth),
                _ => match resolved(*base, p, h, depth + 1) {
                    Err(why) => Err(why),
                    Ok(base) => element_resolved(base, subscripts, p, h, depth),
                },
            },
            ExprV::Ref(name) => if p.loop_vars.contains_key(name) {
                Ok(ExprV::Number(p.loop_vars[name]))
            } else {
                Ok(e)
            },
            ExprV::If(c, a, b) => match resolved(*c, p, h, depth + 1) {
                Err(why) => Err(why),
                Ok(condition) => {
                    let settled = evaluated(condition, worths_at(p), h.sums);
                    let no = settled matches Some(value) && value.is_nought();
                    let (taken, other) = if no {
                        (*b, *a)
                    } else {
                        (*a, *b)
                    };
                    match resolved(taken, p, h, depth + 1) {
                        Err(why) => Err(why),
                        Ok(first) => match resolved(other, p, h, depth + 1) {
                            Ok(second) => if no {
                                Ok(
                                    ExprV::If(
                                        Box::new(condition),
                                        Box::new(second),
                                        Box::new(first),
                                    ),
                                )
                            } else {
                                Ok(
                                    ExprV::If(
                                        Box::new(condition),
                                        Box::new(first),
                                        Box::new(second),
                                    ),
                                )
                            },
                            Err(why) => match settled {
                                Some(_) => Ok(first),
                                None => Err(why),
                            },
                        },
                    }
                },
            },
            ExprV::Member(base, path) => match resolved(*base, p, h, depth + 1) {
                Err(why) => Err(why),
                Ok(ExprV::Ref(name)) => Ok(ExprV::Ref(dotted(name, path))),
                Ok(_) => Err("`"@ + path + "` must follow a subscripted component"@),
            },
            ExprV::Time => Ok(e),
            ExprV::ColonSubscript => Err("`:` and `end` make sense only inside a subscript"@),
            ExprV::EndSubscript => Err("`:` and `end` make sense only inside a subscript"@),
            ExprV::Tuple(_) => Err("a tuple may only stand on the left of `=` or `:=`"@),
            _ => if is_array_form(e) {
                Err(
                    "an array value cannot be used where a scalar is expected: "@ + sketched(
                        (h.show)(e),
                    ),
                )
            } else {
                match resolved_list(kids(e), kids(e).len(), p, h, depth + 1) {
                    Err(why) => Err(why),
                    Ok(new) => Ok(with_kids(e, new)),
                }
            },
        }
    }
}

pub open spec fn is_array_form(e: ExprV) -> bool {
    e is Array || e is Elementwise || e is Range || e is Comprehension || e is MatrixRows
}

/// The same for the first `n` of a list, or why the first that fails does.
pub open spec fn resolved_list(
    items: Seq<ExprV>,
    n: nat,
    p: PlaceV,
    h: HandsV,
    depth: nat,
) -> Result<Seq<ExprV>, Seq<char>>
    decreases left(depth), 1int, items, n,
{
    if n == 0 || n > items.len() {
        Ok(Seq::empty())
    } else {
        match resolved_list(items, (n - 1) as nat, p, h, depth) {
            Err(why) => Err(why),
            Ok(before) => match resolved(items[n - 1], p, h, depth) {
                Err(why) => Err(why),
                Ok(one) => Ok(before.push(one)),
            },
        }
    }
}

/// An argument that stays whole: an array as it is, with each of its items
/// resolved, however deep it goes.
pub open spec fn whole_of(e: ExprV, p: PlaceV, h: HandsV, depth: nat) -> Result<ExprV, Seq<char>>
    decreases left(depth), 1int, e, 0nat,
{
    match e {
        ExprV::Array(items) => match whole_list(items, items.len(), p, h, depth) {
            Err(why) => Err(why),
            Ok(items) => Ok(ExprV::Array(items)),
        },
        _ => resolved(e, p, h, depth),
    }
}

pub open spec fn whole_list(
    items: Seq<ExprV>,
    n: nat,
    p: PlaceV,
    h: HandsV,
    depth: nat,
) -> Result<Seq<ExprV>, Seq<char>>
    decreases left(depth), 1int, items, n,
{
    if n == 0 || n > items.len() {
        Ok(Seq::empty())
    } else {
        match whole_list(items, (n - 1) as nat, p, h, depth) {
            Err(why) => Err(why),
            Ok(before) => match whole_of(items[n - 1], p, h, depth) {
                Err(why) => Err(why),
                Ok(one) => Ok(before.push(one)),
            },
        }
    }
}

/// What is subscripted, as a message calls it.
pub open spec fn subscripted_name(base: ExprV, h: HandsV) -> Result<Seq<char>, Seq<char>> {
    match base {
        ExprV::Ref(name) => Ok(name),
        ExprV::Array(_) => Ok("a list"@),
        _ => Err("only variables can be subscripted, found "@ + (h.show)(base)),
    }
}

/// The place a subscript names: a Boolean one counts from `false`, and any
/// other has to be a positive whole number.
pub open spec fn index_of(
    name: Seq<char>,
    written: ExprV,
    settled: ExprV,
    p: PlaceV,
    h: HandsV,
) -> Result<i64, Seq<char>> {
    match evaluated(settled, worths_at(p), h.sums) {
        None => Err("subscript of `"@ + name + "` is not constant: "@ + (h.show)(written)),
        Some(value) => if is_boolean_form(settled) {
            Ok((value.clipped() + 1) as i64)
        } else if !value.is_integral() || value.below(one()) {
            Err(
                "subscript of `"@ + name + "` must be a positive whole number, got "@ + (h.spell)(
                    value,
                ),
            )
        } else {
            Ok(value.clipped() as i64)
        },
    }
}

/// The places that the first `n` subscripts name.
pub open spec fn indices_of(
    name: Seq<char>,
    subscripts: Seq<ExprV>,
    n: nat,
    p: PlaceV,
    h: HandsV,
    depth: nat,
) -> Result<Seq<i64>, Seq<char>>
    decreases left(depth), 1int, subscripts, n,
{
    if n == 0 || n > subscripts.len() {
        Ok(Seq::empty())
    } else {
        match indices_of(name, subscripts, (n - 1) as nat, p, h, depth) {
            Err(why) => Err(why),
            Ok(before) => match resolved(subscripts[n - 1], p, h, depth) {
                Err(why) => Err(why),
                Ok(settled) => match index_of(name, subscripts[n - 1], settled, p, h) {
                    Err(why) => Err(why),
                    Ok(at) => Ok(before.push(at)),
                },
            },
        }
    }
}

/// A list of places as it is written: `[1, 2]`.
pub open spec fn listed(indices: Seq<i64>) -> Seq<char> {
    "["@ + joined(Seq::new(indices.len(), |i: int| signed(indices[i] as int)), ", "@) + "]"@
}

/// The element that subscripts take of a name or of a list written out.
pub open spec fn element_resolved(
    base: ExprV,
    subscripts: Seq<ExprV>,
    p: PlaceV,
    h: HandsV,
    depth: nat,
) -> Result<ExprV, Seq<char>>
    decreases left(depth + 1), 2int, subscripts, 0nat,
{
    if depth > MAX_DEPTH {
        Err(Seq::empty())
    } else {
        match subscripted_name(base, h) {
            Err(why) => Err(why),
            Ok(name) => match indices_of(name, subscripts, subscripts.len(), p, h, depth + 1) {
                Err(why) => Err(why),
                Ok(indices) => match base {
                    ExprV::Array(items) => match picked(items, indices) {
                        Some(item) => resolved(item, p, h, depth + 1),
                        None => Err(
                            listed(indices) + " is not an element of a list of "@ + digits(
                                items.len(),
                            ),
                        ),
                    },
                    _ => Ok(ExprV::Ref(element_of(name, indices))),
                },
            },
        }
    }
}

/// The shapes of arguments: that of the array one names, and none otherwise.
pub open spec fn argument_shapes(args: Seq<ExprV>, sizes: ShapesV) -> Seq<Seq<i64>> {
    Seq::new(
        args.len(),
        |i: int|
            match args[i] {
                ExprV::Ref(name) => if sizes.contains_key(name) {
                    sizes[name]
                } else {
                    Seq::empty()
                },
                _ => Seq::empty(),
            },
    )
}

/// The mark that a call leaves: the package it is named under, where the
/// class that was found does not stand under that name.
pub open spec fn call_mark(name: Seq<char>, class: ClassDef, p: PlaceV) -> Option<Seq<char>> {
    match cut_last(name, '.') {
        Some((head, _)) => if begins_with(class.name@, head) {
            p.mark
        } else {
            match meaning(p.classes, head, p.scope, p.imports) {
                Some(package) => Some(package.name@),
                None => p.mark,
            }
        },
        None => p.mark,
    }
}

/// What a name that is called means: where it is written, or under the name
/// the body was reached by.
pub open spec fn callee(name: Seq<char>, p: PlaceV) -> Option<ClassDef> {
    match meaning(p.classes, name, p.scope, p.imports) {
        Some(class) => Some(class),
        None => meaning_asked(p.classes, name, p.scope, p.imports, p.mark),
    }
}

/// What a call of settled arguments comes to. Hints about events and
/// continuity are worth their argument, and `semiLinear` is one slope one way
/// and another the other.
pub open spec fn called(
    name: Seq<char>,
    args: Seq<ExprV>,
    p: PlaceV,
    h: HandsV,
    depth: nat,
) -> Result<ExprV, Seq<char>> {
    match callee(name, p) {
        Some(class) => if class.kind == ClassKind::Function {
            let mark = call_mark(name, class, p);
            match (h.run)(
                function_meant(p.classes, class, mark),
                mark,
                args,
                argument_shapes(args, p.sizes),
                depth,
            ) {
                Ok(made) => Ok(made.value),
                Err(why) => Err(why),
            }
        } else {
            operated(name, args)
        },
        None => operated(name, args),
    }
}

/// What an operator of settled arguments comes to.
pub open spec fn operated(name: Seq<char>, args: Seq<ExprV>) -> Result<ExprV, Seq<char>> {
    if name == "noEvent"@ && args.len() == 1 {
        Ok(args[0])
    } else if name == "smooth"@ && args.len() == 2 {
        Ok(args[1])
    } else if name == "homotopy"@ && args.len() == 2 {
        Ok(args[0])
    } else if name == "semiLinear"@ && args.len() == 3 {
        Ok(
            ExprV::If(
                Box::new(
                    ExprV::Rel(RelOp::Ge, Box::new(args[0]), Box::new(ExprV::Number(zero()))),
                ),
                Box::new(ExprV::Bin(BinOp::Mul, Box::new(args[1]), Box::new(args[0]))),
                Box::new(ExprV::Bin(BinOp::Mul, Box::new(args[2]), Box::new(args[0]))),
            ),
        )
    } else if exists|i: int| 0 <= i < args.len() && (#[trigger] args[i] is NamedArg) {
        Err("`"@ + name + "` is not a function, so it cannot take named arguments"@)
    } else {
        Ok(ExprV::Call(name, args))
    }
}

/// The checks that the bodies called for an expression set aside, in the order
/// they were called, those before a failure among them.
pub open spec fn left_by(e: ExprV, p: PlaceV, h: HandsV, depth: nat) -> Checks
    decreases left(depth), 0int, e, 0nat,
{
    if e is Number || e is Bool || e is Str || depth > MAX_DEPTH {
        Seq::empty()
    } else {
        match e {
            ExprV::Call(name, args) => left_by_written(name, args, p, h, depth),
            ExprV::Index(base, subscripts) => left_by_index(*base, subscripts, p, h, depth),
            ExprV::If(c, a, b) => left_by_choice(*c, *a, *b, p, h, depth),
            ExprV::Member(base, _) => left_by(*base, p, h, depth + 1),
            ExprV::Ref(_) => Seq::empty(),
            ExprV::Time => Seq::empty(),
            ExprV::ColonSubscript => Seq::empty(),
            ExprV::EndSubscript => Seq::empty(),
            ExprV::Tuple(_) => Seq::empty(),
            _ => if is_array_form(e) {
                Seq::empty()
            } else {
                left_by_list(kids(e), kids(e).len(), p, h, depth + 1)
            },
        }
    }
}

/// The same for a call as it is written.
pub open spec fn left_by_written(
    name: Seq<char>,
    args: Seq<ExprV>,
    p: PlaceV,
    h: HandsV,
    depth: nat,
) -> Checks
    decreases left(depth + 1), 2int, args, 0nat,
{
    if depth > MAX_DEPTH {
        Seq::empty()
    } else if travels_whole(name, args, p, h) {
        left_by_whole(args, args.len(), p, h, depth + 1)
    } else {
        left_by_list(args, args.len(), p, h, depth + 1) + (match resolved_list(
            args,
            args.len(),
            p,
            h,
            depth + 1,
        ) {
            Err(_) => Seq::empty(),
            Ok(args) => match ordered(name, args) {
                Err(_) => Seq::empty(),
                Ok(args) => left_by_call(name, args, p, h, depth),
            },
        })
    }
}

/// The same for a subscripted expression.
pub open spec fn left_by_index(
    base: ExprV,
    subscripts: Seq<ExprV>,
    p: PlaceV,
    h: HandsV,
    depth: nat,
) -> Checks
    decreases left(depth + 1), 3int, subscripts, 0nat,
{
    if depth > MAX_DEPTH {
        Seq::empty()
    } else {
        match base {
            ExprV::Call(_, _) => left_by(base, p, h, depth + 1) + (if resolved(
                base,
                p,
                h,
                depth + 1,
            ) is Ok {
                left_by_list(subscripts, subscripts.len(), p, h, depth + 1)
            } else {
                Seq::empty()
            }),
            ExprV::Ref(_) => left_by_element(base, subscripts, p, h, depth),
            ExprV::Array(_) => left_by_element(base, subscripts, p, h, depth),
            _ => left_by(base, p, h, depth + 1) + (match resolved(base, p, h, depth + 1) {
                Err(_) => Seq::empty(),
                Ok(base) => left_by_element(base, subscripts, p, h, depth),
            }),
        }
    }
}

/// The same for a choice: the branch that is taken comes first.
pub open spec fn left_by_choice(
    c: ExprV,
    a: ExprV,
    b: ExprV,
    p: PlaceV,
    h: HandsV,
    depth: nat,
) -> Checks
    decreases left(depth + 1), 2int, c, 0nat,
{
    if depth > MAX_DEPTH {
        Seq::empty()
    } else {
        left_by(c, p, h, depth + 1) + (match resolved(c, p, h, depth + 1) {
            Err(_) => Seq::empty(),
            Ok(condition) => {
                let settled = evaluated(condition, worths_at(p), h.sums);
                let no = settled matches Some(value) && value.is_nought();
                let (taken, other) = if no {
                    (b, a)
                } else {
                    (a, b)
                };
                left_by(taken, p, h, depth + 1) + (if resolved(taken, p, h, depth + 1) is Ok {
                    left_by(other, p, h, depth + 1)
                } else {
                    Seq::empty()
                })
            },
        })
    }
}

/// The same for the first `n` of a list: nothing is called after a failure.
pub open spec fn left_by_list(
    items: Seq<ExprV>,
    n: nat,
    p: PlaceV,
    h: HandsV,
    depth: nat,
) -> Checks
    decreases left(depth), 1int, items, n,
{
    if n == 0 || n > items.len() {
        Seq::empty()
    } else {
        left_by_list(items, (n - 1) as nat, p, h, depth) + (if resolved_list(
            items,
            (n - 1) as nat,
            p,
            h,
            depth,
        ) is Ok {
            left_by(items[n - 1], p, h, depth)
        } else {
            Seq::empty()
        })
    }
}

/// The same for an argument that stays whole.
pub open spec fn left_by_argument(e: ExprV, p: PlaceV, h: HandsV, depth: nat) -> Checks
    decreases left(depth), 1int, e, 0nat,
{
    match e {
        ExprV::Array(items) => left_by_whole(items, items.len(), p, h, depth),
        _ => left_by(e, p, h, depth),
    }
}

pub open spec fn left_by_whole(
    items: Seq<ExprV>,
    n: nat,
    p: PlaceV,
    h: HandsV,
    depth: nat,
) -> Checks
    decreases left(depth), 1int, items, n,
{
    if n == 0 || n > items.len() {
        Seq::empty()
    } else {
        left_by_whole(items, (n - 1) as nat, p, h, depth) + (if whole_list(
            items,
            (n - 1) as nat,
            p,
            h,
            depth,
        ) is Ok {
            left_by_argument(items[n - 1], p, h, depth)
        } else {
            Seq::empty()
        })
    }
}

/// The same for the first `n` subscripts of what is called `name`.
pub open spec fn left_by_places(
    name: Seq<char>,
    subscripts: Seq<ExprV>,
    n: nat,
    p: PlaceV,
    h: HandsV,
    depth: nat,
) -> Checks
    decreases left(depth), 1int, subscripts, n,
{
    if n == 0 || n > subscripts.len() {
        Seq::empty()
    } else {
        left_by_places(name, subscripts, (n - 1) as nat, p, h, depth) + (if indices_of(
            name,
            subscripts,
            (n - 1) as nat,
            p,
            h,
            depth,
        ) is Ok {
            left_by(subscripts[n - 1], p, h, depth)
        } else {
            Seq::empty()
        })
    }
}

/// The same for the element that subscripts take.
pub open spec fn left_by_element(
    base: ExprV,
    subscripts: Seq<ExprV>,
    p: PlaceV,
    h: HandsV,
    depth: nat,
) -> Checks
    decreases left(depth + 1), 2int, subscripts, 0nat,
{
    if depth > MAX_DEPTH {
        Seq::empty()
    } else {
        match subscripted_name(base, h) {
            Err(_) => Seq::empty(),
            Ok(name) => left_by_places(name, subscripts, subscripts.len(), p, h, depth + 1) + (
            match indices_of(name, subscripts, subscripts.len(), p, h, depth + 1) {
                Err(_) => Seq::empty(),
                Ok(indices) => match base {
                    ExprV::Array(items) => match picked(items, indices) {
                        Some(item) => left_by(item, p, h, depth + 1),
                        None => Seq::empty(),
                    },
                    _ => Seq::empty(),
                },
            }),
        }
    }
}

/// The checks that the body of a call of settled arguments set aside.
pub open spec fn left_by_call(
    name: Seq<char>,
    args: Seq<ExprV>,
    p: PlaceV,
    h: HandsV,
    depth: nat,
) -> Checks {
    match callee(name, p) {
        Some(class) => if class.kind == ClassKind::Function {
            let mark = call_mark(name, class, p);
            match (h.run)(
                function_meant(p.classes, class, mark),
                mark,
                args,
                argument_shapes(args, p.sizes),
                depth,
            ) {
                Ok(made) => made.aside,
                Err(_) => Seq::empty(),
            }
        } else {
            Seq::empty()
        },
        None => Seq::empty(),
    }
}

proof fn lemma_list_stops(items: Seq<ExprV>, n: nat, all: nat, p: PlaceV, h: HandsV, depth: nat)
    requires
        n <= all <= items.len(),
        resolved_list(items, n, p, h, depth) is Err,
    ensures
        resolved_list(items, all, p, h, depth) == resolved_list(items, n, p, h, depth),
        left_by_list(items, all, p, h, depth) == left_by_list(items, n, p, h, depth),
    decreases all,
{
    if n < all {
        lemma_list_stops(items, n, (all - 1) as nat, p, h, depth);
        assert(left_by_list(items, all, p, h, depth) =~= left_by_list(items, n, p, h, depth));
    }
}

proof fn lemma_whole_stops(items: Seq<ExprV>, n: nat, all: nat, p: PlaceV, h: HandsV, depth: nat)
    requires
        n <= all <= items.len(),
        whole_list(items, n, p, h, depth) is Err,
    ensures
        whole_list(items, all, p, h, depth) == whole_list(items, n, p, h, depth),
        left_by_whole(items, all, p, h, depth) == left_by_whole(items, n, p, h, depth),
    decreases all,
{
    if n < all {
        lemma_whole_stops(items, n, (all - 1) as nat, p, h, depth);
        assert(left_by_whole(items, all, p, h, depth) =~= left_by_whole(items, n, p, h, depth));
    }
}

proof fn lemma_indices_stop(
    name: Seq<char>,
    items: Seq<ExprV>,
    n: nat,
    all: nat,
    p: PlaceV,
    h: HandsV,
    depth: nat,
)
    requires
        n <= all <= items.len(),
        indices_of(name, items, n, p, h, depth) is Err,
    ensures
        indices_of(name, items, all, p, h, depth) == indices_of(name, items, n, p, h, depth),
        left_by_places(name, items, all, p, h, depth) == left_by_places(
            name,
            items,
            n,
            p,
            h,
            depth,
        ),
    decreases all,
{
    if n < all {
        lemma_indices_stop(name, items, n, (all - 1) as nat, p, h, depth);
        assert(left_by_places(name, items, all, p, h, depth) =~= left_by_places(
            name,
            items,
            n,
            p,
            h,
            depth,
        ));
    }
}

proof fn lemma_list_len(items: Seq<ExprV>, n: nat, p: PlaceV, h: HandsV, depth: nat)
    requires
        n <= items.len(),
    ensures
        resolved_list(items, n, p, h, depth) matches Ok(made) ==> made.len() == n,
    decreases n,
{
    if n > 0 {
        lemma_list_len(items, (n - 1) as nat, p, h, depth);
    }
}

/// A Boolean by its form is worth one or zero.
proof fn lemma_boolean_worth(e: ExprV, env: Worths, v: SumsV)
    requires
        is_boolean_form(e),
    ensures
        evaluated(e, env, v) matches Some(value) ==> 0 <= value.clipped() <= 1,
{
    lemma_truth_clipped(true);
    lemma_truth_clipped(false);
}

/// The parameters with the loop variables over them.
fn overlaid(consts: &Table<Number>, loop_vars: &Table<Number>) -> (r: Table<Number>)
    ensures
        r.deep_view() == consts.deep_view().union_prefer_right(loop_vars.deep_view()),
{
    let mut out: Table<Number> = Table::new();
    let ghost first = consts.entries.deep_view();
    let mut i: usize = 0;
    assert(first.take(0) =~= Seq::empty());
    while i < consts.entries.len()
        invariant
            i <= consts.entries.len(),
            first == consts.entries.deep_view(),
            out.deep_view() == entered(first.take(i as int)),
        decreases consts.entries.len() - i,
    {
        assert(first.take(i + 1).drop_last() =~= first.take(i as int));
        assert(first[i as int] == consts.entries@[i as int].deep_view());
        out.put(consts.entries[i].0.clone(), consts.entries[i].1);
        i = i + 1;
    }
    assert(first.take(i as int) =~= first);
    let ghost second = loop_vars.entries.deep_view();
    let mut k: usize = 0;
    assert(second.take(0) =~= Seq::empty());
    assert(out.deep_view() =~= consts.deep_view().union_prefer_right(entered(second.take(0))));
    while k < loop_vars.entries.len()
        invariant
            k <= loop_vars.entries.len(),
            second == loop_vars.entries.deep_view(),
            out.deep_view() == consts.deep_view().union_prefer_right(
                entered(second.take(k as int)),
            ),
        decreases loop_vars.entries.len() - k,
    {
        assert(second.take(k + 1).drop_last() =~= second.take(k as int));
        assert(second[k as int] == loop_vars.entries@[k as int].deep_view());
        out.put(loop_vars.entries[k].0.clone(), loop_vars.entries[k].1);
        assert(out.deep_view() =~= consts.deep_view().union_prefer_right(
            entered(second.take(k + 1)),
        ));
        k = k + 1;
    }
    assert(second.take(k as int) =~= second);
    out
}

/// What an expression is worth where it stands.
fn fold_here<
    W: Fn(Arith, Number, Number) -> Number,
    O: Fn(&str, &Vec<Number>) -> Option<Vec<Number>>,
    N: Fn(&str) -> String,
    S: Fn(&Expr) -> String,
    L: Fn(Number) -> String,
    H: Fn(&str) -> bool,
    C: Fn(&ClassDef, &Option<String>, &Vec<Expr>, &Vec<Vec<i64>>, usize) -> Result<Inlined, String>,
>(expr: &Expr, p: &Place, h: &Hands<W, O, N, S, L, H, C>) -> (r: Option<Number>)
    requires
        are_steady(*h),
    ensures
        r == evaluated(expr.deep_view(), worths_at(p.deep_view()), hands_of(*h).sums),
{
    if p.loop_vars.is_empty() {
        assert(worths_at(p.deep_view()) =~= p.consts.deep_view());
        const_eval(expr, p.consts, h.sums)
    } else {
        let env = overlaid(p.consts, p.loop_vars);
        const_eval(expr, &env, h.sums)
    }
}

/// Whether a call takes what it was handed as it was handed it.
fn does_travel_whole<
    W: Fn(Arith, Number, Number) -> Number,
    O: Fn(&str, &Vec<Number>) -> Option<Vec<Number>>,
    N: Fn(&str) -> String,
    S: Fn(&Expr) -> String,
    L: Fn(Number) -> String,
    H: Fn(&str) -> bool,
    C: Fn(&ClassDef, &Option<String>, &Vec<Expr>, &Vec<Vec<i64>>, usize) -> Result<Inlined, String>,
>(
    name: &str,
    args: &Vec<Expr>,
    p: &Place,
    h: &Hands<W, O, N, S, L, H, C>,
) -> (r: bool)
    requires
        are_steady(*h),
    ensures
        r == travels_whole(name@, args.deep_view(), p.deep_view(), hands_of(*h)),
{
    if h.is_here(name) {
        return true;
    }
    let ghost all = args.deep_view();
    let mut any: bool = false;
    let mut i: usize = 0;
    while i < args.len()
        invariant
            i <= args.len(),
            all == args.deep_view(),
            any == exists|k: int| 0 <= k < i && (#[trigger] all[k] is Array),
        decreases args.len() - i,
    {
        assert(all[i as int] == args@[i as int].deep_view());
        if matches!(args[i], Expr::Array(_)) {
            assert(all[i as int] is Array);
            any = true;
        }
        i = i + 1;
    }
    if !any {
        return false;
    }
    match lookup(p.registry, name, p.scope, p.imports) {
        Some(class) => class.kind == ClassKind::Function && holds_pair(p.standing, name, p.scope),
        None => false,
    }
}

fn holds_pair(list: &Vec<(String, String)>, a: &str, b: &str) -> (r: bool)
    ensures
        r == list.deep_view().contains((a@, b@)),
{
    let ghost all = list.deep_view();
    let mut i: usize = 0;
    while i < list.len()
        invariant
            i <= list.len(),
            all == list.deep_view(),
            forall|k: int| 0 <= k < i ==> #[trigger] all[k] != (a@, b@),
        decreases list.len() - i,
    {
        assert(all[i as int] == list@[i as int].deep_view());
        if same(list[i].0.as_str(), a) && same(list[i].1.as_str(), b) {
            assert(all[i as int] == (a@, b@));
            return true;
        }
        i = i + 1;
    }
    false
}

fn list_out(indices: &Vec<i64>) -> (r: String)
    ensures
        r@ == listed(indices@),
{
    let mut list: Vec<String> = Vec::new();
    let mut i: usize = 0;
    while i < indices.len()
        invariant
            i <= indices.len(),
            list@.len() == i,
            forall|k: int| 0 <= k < i ==> (#[trigger] list@[k])@ == signed(indices@[k] as int),
        decreases indices.len() - i,
    {
        list.push(whole(indices[i]));
        i = i + 1;
    }
    assert(texts(list@) =~= Seq::new(indices@.len(), |i: int| signed(indices@[i] as int)));
    let inside = join_all(&list, ", ");
    join3("[", inside.as_str(), "]")
}

fn find_index<
    W: Fn(Arith, Number, Number) -> Number,
    O: Fn(&str, &Vec<Number>) -> Option<Vec<Number>>,
    N: Fn(&str) -> String,
    S: Fn(&Expr) -> String,
    L: Fn(Number) -> String,
    H: Fn(&str) -> bool,
    C: Fn(&ClassDef, &Option<String>, &Vec<Expr>, &Vec<Vec<i64>>, usize) -> Result<Inlined, String>,
>(
    name: &str,
    written: &Expr,
    settled: &Expr,
    p: &Place,
    h: &Hands<W, O, N, S, L, H, C>,
) -> (r: Result<i64, String>)
    requires
        are_steady(*h),
    ensures
        match index_of(
            name@,
            written.deep_view(),
            settled.deep_view(),
            p.deep_view(),
            hands_of(*h),
        ) {
            Err(trouble) => r matches Err(why) && why@ == trouble,
            Ok(at) => r matches Ok(found) && found == at,
        },
{
    let value = match fold_here(settled, p, h) {
        Some(value) => value,
        None => {
            let shown = h.shown(written);
            return Err(join4("subscript of `", name, "` is not constant: ", shown.as_str()));
        },
    };
    if is_boolean(settled) {
        proof {
            lemma_boolean_worth(
                settled.deep_view(),
                worths_at(p.deep_view()),
                hands_of(*h).sums,
            );
        }
        return Ok(value.to_int() + 1);
    }
    if !value.is_whole() || value.less(one()) {
        let spelt = h.spelt(value);
        return Err(
            join4(
                "subscript of `",
                name,
                "` must be a positive whole number, got ",
                spelt.as_str(),
            ),
        );
    }
    Ok(value.to_int())
}

fn find_indices<
    W: Fn(Arith, Number, Number) -> Number,
    O: Fn(&str, &Vec<Number>) -> Option<Vec<Number>>,
    N: Fn(&str) -> String,
    S: Fn(&Expr) -> String,
    L: Fn(Number) -> String,
    H: Fn(&str) -> bool,
    C: Fn(&ClassDef, &Option<String>, &Vec<Expr>, &Vec<Vec<i64>>, usize) -> Result<Inlined, String>,
>(
    name: &str,
    subscripts: &Vec<Expr>,
    p: &Place,
    h: &Hands<W, O, N, S, L, H, C>,
    depth: usize,
    aside: &mut Vec<(Expr, String)>,
) -> (r: Result<Vec<i64>, String>)
    requires
        are_steady(*h),
        depth <= MAX_DEPTH + 1,
    ensures
        match indices_of(
            name@,
            subscripts.deep_view(),
            subscripts@.len(),
            p.deep_view(),
            hands_of(*h),
            depth as nat,
        ) {
            Err(trouble) => r matches Err(why) && why@ == trouble,
            Ok(list) => r matches Ok(found) && found@ == list,
        },
        final(aside).deep_view() == old(aside).deep_view() + left_by_places(
            name@,
            subscripts.deep_view(),
            subscripts@.len(),
            p.deep_view(),
            hands_of(*h),
            depth as nat,
        ),
    decreases left(depth as nat), 1int,
{
    let ghost all = subscripts.deep_view();
    let ghost pv = p.deep_view();
    let ghost hv = hands_of(*h);
    let ghost was = aside.deep_view();
    let mut out: Vec<i64> = Vec::new();
    let mut i: usize = 0;
    assert(aside.deep_view() =~= was + left_by_places(name@, all, 0, pv, hv, depth as nat));
    while i < subscripts.len()
        invariant
            i <= subscripts.len(),
            are_steady(*h),
            depth <= MAX_DEPTH + 1,
            all == subscripts.deep_view(),
            pv == p.deep_view(),
            hv == hands_of(*h),
            was == old(aside).deep_view(),
            aside.deep_view() == was + left_by_places(name@, all, i as nat, pv, hv, depth as nat),
            indices_of(name@, all, i as nat, pv, hv, depth as nat) == Ok::<Seq<i64>, Seq<char>>(
                out@,
            ),
        decreases subscripts.len() - i,
    {
        assert(all[i as int] == subscripts@[i as int].deep_view());
        proof {
            if indices_of(name@, all, (i + 1) as nat, pv, hv, depth as nat) is Err {
                lemma_indices_stop(
                    name@,
                    all,
                    (i + 1) as nat,
                    subscripts@.len(),
                    pv,
                    hv,
                    depth as nat,
                );
            }
        }
        let ghost before = aside.deep_view();
        let done = resolve(&subscripts[i], p, h, depth, aside);
        assert(aside.deep_view() =~= was + left_by_places(
            name@,
            all,
            (i + 1) as nat,
            pv,
            hv,
            depth as nat,
        ));
        let settled = match done {
            Ok(settled) => settled,
            Err(why) => return Err(why),
        };
        match find_index(name, &subscripts[i], &settled, p, h) {
            Ok(at) => {
                out.push(at);
            },
            Err(why) => return Err(why),
        }
        i = i + 1;
    }
    Ok(out)
}

#[verifier::rlimit(40)]
fn resolve_element<
    W: Fn(Arith, Number, Number) -> Number,
    O: Fn(&str, &Vec<Number>) -> Option<Vec<Number>>,
    N: Fn(&str) -> String,
    S: Fn(&Expr) -> String,
    L: Fn(Number) -> String,
    H: Fn(&str) -> bool,
    C: Fn(&ClassDef, &Option<String>, &Vec<Expr>, &Vec<Vec<i64>>, usize) -> Result<Inlined, String>,
>(
    base: &Expr,
    subscripts: &Vec<Expr>,
    p: &Place,
    h: &Hands<W, O, N, S, L, H, C>,
    depth: usize,
    aside: &mut Vec<(Expr, String)>,
) -> (r: Result<Expr, String>)
    requires
        are_steady(*h),
        depth <= MAX_DEPTH,
    ensures
        told(r) == element_resolved(
            base.deep_view(),
            subscripts.deep_view(),
            p.deep_view(),
            hands_of(*h),
            depth as nat,
        ),
        final(aside).deep_view() == old(aside).deep_view() + left_by_element(
            base.deep_view(),
            subscripts.deep_view(),
            p.deep_view(),
            hands_of(*h),
            depth as nat,
        ),
    decreases left((depth + 1) as nat), 2int,
{
    let ghost was = aside.deep_view();
    let ghost whole = left_by_element(
        base.deep_view(),
        subscripts.deep_view(),
        p.deep_view(),
        hands_of(*h),
        depth as nat,
    );
    let name: String = match base {
        Expr::Ref(name) => name.clone(),
        Expr::Array(_) => "a list".to_owned(),
        _ => {
            let shown = h.shown(base);
            assert(aside.deep_view() =~= was + Seq::empty());
            return Err(join2("only variables can be subscripted, found ", shown.as_str()));
        },
    };
    let indices = match find_indices(name.as_str(), subscripts, p, h, depth + 1, aside) {
        Ok(indices) => indices,
        Err(why) => {
            assert(aside.deep_view() =~= was + whole);
            return Err(why);
        },
    };
    let ghost mid = aside.deep_view();
    assert(mid + Seq::empty() =~= mid);
    let ghost placed = left_by_places(
        name@,
        subscripts.deep_view(),
        subscripts@.len(),
        p.deep_view(),
        hands_of(*h),
        (depth + 1) as nat,
    );
    assert(mid == was + placed);
    assert(placed + Seq::empty() =~= placed);
    match base {
        Expr::Array(items) => {
            proof {
                lemma_views(*items);
            }
            match pick_from_list(items, &indices) {
                Some(item) => {
                    let done = resolve(&item, p, h, depth + 1, aside);
                    assert(aside.deep_view() =~= was + whole);
                    done
                },
                None => {
                    assert(whole == placed);
                    let list = list_out(&indices);
                    let count = decimal(items.len() as u64);
                    Err(
                        join3(
                            list.as_str(),
                            " is not an element of a list of ",
                            count.as_str(),
                        ),
                    )
                },
            }
        },
        _ => {
            assert(whole == placed);
            Ok(make::name(element_name(name.as_str(), &indices)))
        },
    }
}

fn refs_of(items: &Vec<Expr>) -> (r: Vec<&Expr>)
    ensures
        r.deep_view() == items.deep_view(),
{
    let mut out: Vec<&Expr> = Vec::new();
    let mut i: usize = 0;
    while i < items.len()
        invariant
            i <= items.len(),
            out@.len() == i,
            forall|k: int| 0 <= k < i ==> *(#[trigger] out@[k]) == items@[k],
        decreases items.len() - i,
    {
        out.push(&items[i]);
        i = i + 1;
    }
    assert(out.deep_view() =~= items.deep_view());
    out
}

fn resolve_list<
    W: Fn(Arith, Number, Number) -> Number,
    O: Fn(&str, &Vec<Number>) -> Option<Vec<Number>>,
    N: Fn(&str) -> String,
    S: Fn(&Expr) -> String,
    L: Fn(Number) -> String,
    H: Fn(&str) -> bool,
    C: Fn(&ClassDef, &Option<String>, &Vec<Expr>, &Vec<Vec<i64>>, usize) -> Result<Inlined, String>,
>(
    items: &Vec<&Expr>,
    p: &Place,
    h: &Hands<W, O, N, S, L, H, C>,
    depth: usize,
    aside: &mut Vec<(Expr, String)>,
) -> (r: Result<Vec<Expr>, String>)
    requires
        are_steady(*h),
        depth <= MAX_DEPTH + 1,
    ensures
        match resolved_list(
            items.deep_view(),
            items@.len(),
            p.deep_view(),
            hands_of(*h),
            depth as nat,
        ) {
            Err(trouble) => r matches Err(why) && why@ == trouble,
            Ok(list) => r matches Ok(made) && made.deep_view() == list,
        },
        final(aside).deep_view() == old(aside).deep_view() + left_by_list(
            items.deep_view(),
            items@.len(),
            p.deep_view(),
            hands_of(*h),
            depth as nat,
        ),
    decreases left(depth as nat), 1int,
{
    let ghost all = items.deep_view();
    let ghost pv = p.deep_view();
    let ghost hv = hands_of(*h);
    let ghost was = aside.deep_view();
    let mut out: Vec<Expr> = Vec::new();
    let mut i: usize = 0;
    assert(out.deep_view() =~= Seq::empty());
    assert(aside.deep_view() =~= was + left_by_list(all, 0, pv, hv, depth as nat));
    while i < items.len()
        invariant
            i <= items.len(),
            are_steady(*h),
            depth <= MAX_DEPTH + 1,
            all == items.deep_view(),
            pv == p.deep_view(),
            hv == hands_of(*h),
            was == old(aside).deep_view(),
            aside.deep_view() == was + left_by_list(all, i as nat, pv, hv, depth as nat),
            resolved_list(all, i as nat, pv, hv, depth as nat) == Ok::<Seq<ExprV>, Seq<char>>(
                out.deep_view(),
            ),
        decreases items.len() - i,
    {
        assert(all[i as int] == items@[i as int].deep_view());
        let ghost before = out.deep_view();
        let done = resolve(items[i], p, h, depth, aside);
        assert(aside.deep_view() =~= was + left_by_list(
            all,
            (i + 1) as nat,
            pv,
            hv,
            depth as nat,
        ));
        match done {
            Ok(made) => {
                out.push(made);
                assert(out.deep_view() =~= before.push(made.deep_view()));
            },
            Err(why) => {
                proof {
                    lemma_list_stops(all, (i + 1) as nat, items@.len(), pv, hv, depth as nat);
                }
                return Err(why);
            },
        }
        i = i + 1;
    }
    Ok(out)
}

fn keep_whole<
    W: Fn(Arith, Number, Number) -> Number,
    O: Fn(&str, &Vec<Number>) -> Option<Vec<Number>>,
    N: Fn(&str) -> String,
    S: Fn(&Expr) -> String,
    L: Fn(Number) -> String,
    H: Fn(&str) -> bool,
    C: Fn(&ClassDef, &Option<String>, &Vec<Expr>, &Vec<Vec<i64>>, usize) -> Result<Inlined, String>,
>(
    items: &Vec<Expr>,
    p: &Place,
    h: &Hands<W, O, N, S, L, H, C>,
    depth: usize,
    aside: &mut Vec<(Expr, String)>,
) -> (r: Result<Vec<Expr>, String>)
    requires
        are_steady(*h),
        depth <= MAX_DEPTH + 1,
    ensures
        match whole_list(
            items.deep_view(),
            items@.len(),
            p.deep_view(),
            hands_of(*h),
            depth as nat,
        ) {
            Err(trouble) => r matches Err(why) && why@ == trouble,
            Ok(list) => r matches Ok(made) && made.deep_view() == list,
        },
        final(aside).deep_view() == old(aside).deep_view() + left_by_whole(
            items.deep_view(),
            items@.len(),
            p.deep_view(),
            hands_of(*h),
            depth as nat,
        ),
    decreases left(depth as nat), 1int, items.deep_view(),
{
    let ghost all = items.deep_view();
    let ghost pv = p.deep_view();
    let ghost hv = hands_of(*h);
    let ghost was = aside.deep_view();
    let mut out: Vec<Expr> = Vec::new();
    let mut i: usize = 0;
    assert(out.deep_view() =~= Seq::empty());
    assert(aside.deep_view() =~= was + left_by_whole(all, 0, pv, hv, depth as nat));
    while i < items.len()
        invariant
            i <= items.len(),
            are_steady(*h),
            depth <= MAX_DEPTH + 1,
            all == items.deep_view(),
            pv == p.deep_view(),
            hv == hands_of(*h),
            was == old(aside).deep_view(),
            aside.deep_view() == was + left_by_whole(all, i as nat, pv, hv, depth as nat),
            whole_list(all, i as nat, pv, hv, depth as nat) == Ok::<Seq<ExprV>, Seq<char>>(
                out.deep_view(),
            ),
        decreases items.len() - i,
    {
        assert(all[i as int] == items@[i as int].deep_view());
        let ghost before = out.deep_view();
        let made = match &items[i] {
            Expr::Array(inner) => {
                proof {
                    lemma_views(*inner);
                }
                assert(all[i as int] == ExprV::Array(inner.deep_view()));
                assert(decreases_to!(all => all[i as int]));
                assert(left_by_argument(all[i as int], pv, hv, depth as nat) == left_by_whole(
                    inner.deep_view(),
                    inner@.len(),
                    pv,
                    hv,
                    depth as nat,
                ));
                match keep_whole(inner, p, h, depth, aside) {
                    Ok(kept) => Ok(make::array(kept)),
                    Err(why) => Err(why),
                }
            },
            plain => {
                assert(left_by_argument(all[i as int], pv, hv, depth as nat) == left_by(
                    all[i as int],
                    pv,
                    hv,
                    depth as nat,
                ));
                resolve(plain, p, h, depth, aside)
            },
        };
        assert(aside.deep_view() =~= was + left_by_whole(
            all,
            (i + 1) as nat,
            pv,
            hv,
            depth as nat,
        ));
        assert(told(made) == whole_of(all[i as int], pv, hv, depth as nat));
        match made {
            Ok(made) => {
                out.push(made);
                assert(out.deep_view() =~= before.push(made.deep_view()));
            },
            Err(why) => {
                proof {
                    lemma_whole_stops(all, (i + 1) as nat, items@.len(), pv, hv, depth as nat);
                }
                return Err(why);
            },
        }
        i = i + 1;
    }
    Ok(out)
}

fn find_shapes(args: &Vec<Expr>, sizes: &Table<Vec<i64>>) -> (r: Vec<Vec<i64>>)
    ensures
        r.deep_view() == argument_shapes(args.deep_view(), sizes.deep_view()),
{
    let ghost all = args.deep_view();
    let ghost known = sizes.deep_view();
    let ghost wanted = argument_shapes(all, known);
    let mut out: Vec<Vec<i64>> = Vec::new();
    let mut i: usize = 0;
    while i < args.len()
        invariant
            i <= args.len(),
            all == args.deep_view(),
            known == sizes.deep_view(),
            wanted == argument_shapes(all, known),
            out@.len() == i,
            forall|k: int| 0 <= k < i ==> (#[trigger] out@[k])@ == wanted[k],
        decreases args.len() - i,
    {
        assert(all[i as int] == args@[i as int].deep_view());
        let mut one: Vec<i64> = Vec::new();
        assert(one@ =~= Seq::empty());
        if let Expr::Ref(name) = &args[i] {
            if let Some(shape) = sizes.get(name.as_str()) {
                assert(shape.deep_view() =~= shape@);
                one = same_indices(shape);
            }
        }
        assert(one@ == wanted[i as int]);
        out.push(one);
        i = i + 1;
    }
    assert forall|
        k: int,
    | 0 <= k < out@.len() implies #[trigger] out.deep_view()[k] == wanted[k] by {
        assert(out@[k].deep_view() =~= out@[k]@);
    }
    assert(out.deep_view() =~= wanted);
    out
}

fn find_call_mark(name: &str, class: &ClassDef, p: &Place) -> (r: Option<String>)
    ensures
        r.deep_view() == call_mark(name@, *class, p.deep_view()),
{
    match split_last(name, '.') {
        Some((head, _)) => if starts(class.name.as_str(), head.as_str()) {
            p.mark.clone()
        } else {
            match lookup(p.registry, head.as_str(), p.scope, p.imports) {
                Some(package) => Some(package.name.clone()),
                None => p.mark.clone(),
            }
        },
        None => p.mark.clone(),
    }
}

fn any_named(args: &Vec<Expr>) -> (r: bool)
    ensures
        r == exists|i: int|
            0 <= i < args.deep_view().len() && (#[trigger] args.deep_view()[i] is NamedArg),
{
    let ghost all = args.deep_view();
    let mut i: usize = 0;
    while i < args.len()
        invariant
            i <= args.len(),
            all == args.deep_view(),
            forall|k: int| 0 <= k < i ==> !(#[trigger] all[k] is NamedArg),
        decreases args.len() - i,
    {
        assert(all[i as int] == args@[i as int].deep_view());
        if matches!(args[i], Expr::NamedArg(..)) {
            assert(all[i as int] is NamedArg);
            return true;
        }
        i = i + 1;
    }
    false
}

/// What an operator of settled arguments comes to.
pub fn operate(name: &str, args: Vec<Expr>) -> (r: Result<Expr, String>)
    ensures
        told(r) == operated(name@, args.deep_view()),
{
    let ghost all = args.deep_view();
    if args.len() >= 1 {
        assert(all[0] == args@[0].deep_view());
    }
    if args.len() >= 2 {
        assert(all[1] == args@[1].deep_view());
    }
    if args.len() >= 3 {
        assert(all[2] == args@[2].deep_view());
    }
    if same(name, "noEvent") && args.len() == 1 {
        return Ok(args[0].clone());
    }
    if same(name, "smooth") && args.len() == 2 {
        return Ok(args[1].clone());
    }
    if same(name, "homotopy") && args.len() == 2 {
        return Ok(args[0].clone());
    }
    if same(name, "semiLinear") && args.len() == 3 {
        let forwards = make::rel(RelOp::Ge, args[0].clone(), make::number(zero()));
        let up = make::bin(BinOp::Mul, args[1].clone(), args[0].clone());
        let down = make::bin(BinOp::Mul, args[2].clone(), args[0].clone());
        return Ok(make::either(forwards, up, down));
    }
    if any_named(&args) {
        return Err(
            join3("`", name, "` is not a function, so it cannot take named arguments"),
        );
    }
    Ok(make::call(name, args))
}

fn resolve_call<
    W: Fn(Arith, Number, Number) -> Number,
    O: Fn(&str, &Vec<Number>) -> Option<Vec<Number>>,
    N: Fn(&str) -> String,
    S: Fn(&Expr) -> String,
    L: Fn(Number) -> String,
    H: Fn(&str) -> bool,
    C: Fn(&ClassDef, &Option<String>, &Vec<Expr>, &Vec<Vec<i64>>, usize) -> Result<Inlined, String>,
>(
    name: &String,
    args: &Vec<Expr>,
    p: &Place,
    h: &Hands<W, O, N, S, L, H, C>,
    depth: usize,
    aside: &mut Vec<(Expr, String)>,
) -> (r: Result<Expr, String>)
    requires
        are_steady(*h),
        depth <= MAX_DEPTH,
    ensures
        told(r) == resolved(
            ExprV::Call(name@, args.deep_view()),
            p.deep_view(),
            hands_of(*h),
            depth as nat,
        ),
        final(aside).deep_view() == old(aside).deep_view() + left_by_written(
            name@,
            args.deep_view(),
            p.deep_view(),
            hands_of(*h),
            depth as nat,
        ),
    decreases left((depth + 1) as nat), 2int,
{
    let ghost pv = p.deep_view();
    let ghost hv = hands_of(*h);
    let ghost was = aside.deep_view();
    let ghost whole = left_by_written(name@, args.deep_view(), pv, hv, depth as nat);
    if does_travel_whole(name.as_str(), args, p, h) {
        return match keep_whole(args, p, h, depth + 1, aside) {
            Ok(kept) => Ok(make::call(name.as_str(), kept)),
            Err(why) => Err(why),
        };
    }
    let below = refs_of(args);
    let done = resolve_list(&below, p, h, depth + 1, aside);
    let ghost mid = aside.deep_view();
    assert(mid + Seq::empty() =~= mid);
    let settled = match done {
        Ok(settled) => settled,
        Err(why) => {
            assert(mid =~= was + whole);
            return Err(why);
        },
    };
    let settled = match order_builtin_arguments(name.as_str(), settled) {
        Ok(settled) => settled,
        Err(why) => {
            assert(mid =~= was + whole);
            return Err(why);
        },
    };
    let found = match lookup(p.registry, name.as_str(), p.scope, p.imports) {
        Some(class) => Some(class),
        None => found_under_the_asked_name(
            p.registry,
            name.as_str(),
            p.scope,
            p.imports,
            p.mark,
        ),
    };
    assert(is_it(found, callee(name@, pv)));
    if let Some(class) = found {
        if class.kind == ClassKind::Function {
            let mark = find_call_mark(name.as_str(), class, p);
            let meant = function_asked_under(class, p.registry, &mark);
            let shapes = find_shapes(&settled, p.sizes);
            return match h.ran(meant, &mark, &settled, &shapes, depth) {
                Ok(made) => {
                    let Inlined { value, aside: left } = made;
                    let mut left = left;
                    let ghost more = left.deep_view();
                    aside.append(&mut left);
                    assert(aside.deep_view() =~= mid + more);
                    assert(aside.deep_view() =~= was + whole);
                    Ok(value)
                },
                Err(why) => {
                    assert(mid =~= was + whole);
                    Err(why)
                },
            };
        }
    }
    assert(mid =~= was + whole);
    operate(name.as_str(), settled)
}

fn resolve_if<
    W: Fn(Arith, Number, Number) -> Number,
    O: Fn(&str, &Vec<Number>) -> Option<Vec<Number>>,
    N: Fn(&str) -> String,
    S: Fn(&Expr) -> String,
    L: Fn(Number) -> String,
    H: Fn(&str) -> bool,
    C: Fn(&ClassDef, &Option<String>, &Vec<Expr>, &Vec<Vec<i64>>, usize) -> Result<Inlined, String>,
>(
    c: &Expr,
    a: &Expr,
    b: &Expr,
    p: &Place,
    h: &Hands<W, O, N, S, L, H, C>,
    depth: usize,
    aside: &mut Vec<(Expr, String)>,
) -> (r: Result<Expr, String>)
    requires
        are_steady(*h),
        depth <= MAX_DEPTH,
    ensures
        told(r) == resolved(
            ExprV::If(
                Box::new(c.deep_view()),
                Box::new(a.deep_view()),
                Box::new(b.deep_view()),
            ),
            p.deep_view(),
            hands_of(*h),
            depth as nat,
        ),
        final(aside).deep_view() == old(aside).deep_view() + left_by_choice(
            c.deep_view(),
            a.deep_view(),
            b.deep_view(),
            p.deep_view(),
            hands_of(*h),
            depth as nat,
        ),
    decreases left((depth + 1) as nat), 2int,
{
    let ghost was = aside.deep_view();
    let ghost whole = left_by_choice(
        c.deep_view(),
        a.deep_view(),
        b.deep_view(),
        p.deep_view(),
        hands_of(*h),
        depth as nat,
    );
    let condition = match resolve(c, p, h, depth + 1, aside) {
        Ok(condition) => condition,
        Err(why) => {
            assert(aside.deep_view() =~= was + whole);
            return Err(why);
        },
    };
    let settled = fold_here(&condition, p, h);
    let no: bool = match settled {
        Some(value) => value.is_zero(),
        None => false,
    };
    let first = match resolve(
        if no {
            b
        } else {
            a
        },
        p,
        h,
        depth + 1,
        aside,
    ) {
        Ok(first) => first,
        Err(why) => {
            assert(aside.deep_view() =~= was + whole);
            return Err(why);
        },
    };
    let done = resolve(
        if no {
            a
        } else {
            b
        },
        p,
        h,
        depth + 1,
        aside,
    );
    assert(aside.deep_view() =~= was + whole);
    match done {
        Ok(second) => if no {
            Ok(make::either(condition, second, first))
        } else {
            Ok(make::either(condition, first, second))
        },
        Err(why) => match settled {
            Some(_) => Ok(first),
            None => Err(why),
        },
    }
}

fn resolve_index<
    W: Fn(Arith, Number, Number) -> Number,
    O: Fn(&str, &Vec<Number>) -> Option<Vec<Number>>,
    N: Fn(&str) -> String,
    S: Fn(&Expr) -> String,
    L: Fn(Number) -> String,
    H: Fn(&str) -> bool,
    C: Fn(&ClassDef, &Option<String>, &Vec<Expr>, &Vec<Vec<i64>>, usize) -> Result<Inlined, String>,
>(
    base: &Expr,
    subscripts: &Vec<Expr>,
    p: &Place,
    h: &Hands<W, O, N, S, L, H, C>,
    depth: usize,
    aside: &mut Vec<(Expr, String)>,
) -> (r: Result<Expr, String>)
    requires
        are_steady(*h),
        depth <= MAX_DEPTH,
    ensures
        told(r) == resolved(
            ExprV::Index(Box::new(base.deep_view()), subscripts.deep_view()),
            p.deep_view(),
            hands_of(*h),
            depth as nat,
        ),
        final(aside).deep_view() == old(aside).deep_view() + left_by_index(
            base.deep_view(),
            subscripts.deep_view(),
            p.deep_view(),
            hands_of(*h),
            depth as nat,
        ),
    decreases left((depth + 1) as nat), 3int,
{
    let ghost was = aside.deep_view();
    let ghost whole = left_by_index(
        base.deep_view(),
        subscripts.deep_view(),
        p.deep_view(),
        hands_of(*h),
        depth as nat,
    );
    match base {
        Expr::Call(..) => {
            let settled = match resolve(base, p, h, depth + 1, aside) {
                Ok(settled) => settled,
                Err(why) => {
                    assert(aside.deep_view() =~= was + whole);
                    return Err(why);
                },
            };
            let below = refs_of(subscripts);
            let done = resolve_list(&below, p, h, depth + 1, aside);
            assert(aside.deep_view() =~= was + whole);
            match done {
                Ok(places) => Ok(make::index(settled, places)),
                Err(why) => Err(why),
            }
        },
        Expr::Ref(_) => resolve_element(base, subscripts, p, h, depth, aside),
        Expr::Array(_) => resolve_element(base, subscripts, p, h, depth, aside),
        _ => match resolve(base, p, h, depth + 1, aside) {
            Ok(settled) => {
                let done = resolve_element(&settled, subscripts, p, h, depth, aside);
                assert(aside.deep_view() =~= was + whole);
                done
            },
            Err(why) => {
                assert(aside.deep_view() =~= was + whole);
                Err(why)
            },
        },
    }
}

/// Resolve subscripts and call functions, turning `T[i+1]` into the scalar
/// reference `T[3]`.
///
/// A loop variable is folded into what is written out; parameters stay
/// symbolic so they remain tunable. Where a condition is settled, the branch
/// it does not take need not be one that can be written out. The checks that
/// the bodies it calls set aside are added to `aside`.
pub fn resolve<
    W: Fn(Arith, Number, Number) -> Number,
    O: Fn(&str, &Vec<Number>) -> Option<Vec<Number>>,
    N: Fn(&str) -> String,
    S: Fn(&Expr) -> String,
    L: Fn(Number) -> String,
    H: Fn(&str) -> bool,
    C: Fn(&ClassDef, &Option<String>, &Vec<Expr>, &Vec<Vec<i64>>, usize) -> Result<Inlined, String>,
>(
    expr: &Expr,
    p: &Place,
    h: &Hands<W, O, N, S, L, H, C>,
    depth: usize,
    aside: &mut Vec<(Expr, String)>,
) -> (r: Result<Expr, String>)
    requires
        are_steady(*h),
        depth <= MAX_DEPTH + 1,
    ensures
        told(r) == resolved(expr.deep_view(), p.deep_view(), hands_of(*h), depth as nat),
        final(aside).deep_view() == old(aside).deep_view() + left_by(
            expr.deep_view(),
            p.deep_view(),
            hands_of(*h),
            depth as nat,
        ),
    decreases left(depth as nat), 0int,
{
    assert(aside.deep_view() + Seq::empty() =~= aside.deep_view());
    let ghost ev = expr.deep_view();
    let ghost whole = left_by(ev, p.deep_view(), hands_of(*h), depth as nat);
    if matches!(expr, Expr::Number(_) | Expr::Bool(_) | Expr::Str(_)) {
        assert(whole == Seq::<(ExprV, Seq<char>)>::empty());
        return Ok(expr.clone());
    }
    if depth > MAX_DEPTH {
        assert(whole == Seq::<(ExprV, Seq<char>)>::empty());
        let shown = h.shown(expr);
        let short = sketch(shown.as_str());
        return Err(
            join4(
                "an expression ",
                p.no_bottom,
                ", nested deeper than the compiler follows: ",
                short.as_str(),
            ),
        );
    }
    match expr {
        Expr::Call(name, args) => {
            proof {
                lemma_views(*args);
            }
            assert(whole == left_by_written(name@, args.deep_view(), p.deep_view(), hands_of(*h), depth as nat));
            resolve_call(name, args, p, h, depth, aside)
        },
        Expr::Index(base, subscripts) => {
            proof {
                lemma_views(*subscripts);
            }
            assert((**base).deep_view() == expr_view(**base));
            assert(whole == left_by_index((**base).deep_view(), subscripts.deep_view(), p.deep_view(), hands_of(*h), depth as nat));
            resolve_index(base, subscripts, p, h, depth, aside)
        },
        Expr::Ref(name) => {
            assert(whole == Seq::<(ExprV, Seq<char>)>::empty());
            match p.loop_vars.get(name.as_str()) {
                Some(value) => Ok(make::number(*value)),
                None => Ok(expr.clone()),
            }
        },
        Expr::If(c, a, b) => {
            assert((**c).deep_view() == expr_view(**c));
            assert((**a).deep_view() == expr_view(**a));
            assert((**b).deep_view() == expr_view(**b));
            assert(whole == left_by_choice((**c).deep_view(), (**a).deep_view(), (**b).deep_view(), p.deep_view(), hands_of(*h), depth as nat));
            resolve_if(c, a, b, p, h, depth, aside)
        },
        Expr::Member(base, path) => {
            assert((**base).deep_view() == expr_view(**base));
            assert(whole == left_by((**base).deep_view(), p.deep_view(), hands_of(*h), (depth + 1) as nat));
            match resolve(base, p, h, depth + 1, aside) {
                Ok(Expr::Ref(name)) => Ok(make::name(dot(name.as_str(), path.as_str()))),
                Ok(_) => Err(join3("`", path.as_str(), "` must follow a subscripted component")),
                Err(why) => Err(why),
            }
        },
        _ => resolve_plain(expr, p, h, depth, aside),
    }
}

/// Resolve an expression that is neither a number, a text, a name, a call, a
/// choice, a subscript nor a member.
fn resolve_plain<
    W: Fn(Arith, Number, Number) -> Number,
    O: Fn(&str, &Vec<Number>) -> Option<Vec<Number>>,
    N: Fn(&str) -> String,
    S: Fn(&Expr) -> String,
    L: Fn(Number) -> String,
    H: Fn(&str) -> bool,
    C: Fn(&ClassDef, &Option<String>, &Vec<Expr>, &Vec<Vec<i64>>, usize) -> Result<Inlined, String>,
>(
    expr: &Expr,
    p: &Place,
    h: &Hands<W, O, N, S, L, H, C>,
    depth: usize,
    aside: &mut Vec<(Expr, String)>,
) -> (r: Result<Expr, String>)
    requires
        are_steady(*h),
        depth <= MAX_DEPTH,
        !(expr is Number || expr is Bool || expr is Str || expr is Call || expr is Index
            || expr is Ref || expr is If || expr is Member),
    ensures
        told(r) == resolved(expr.deep_view(), p.deep_view(), hands_of(*h), depth as nat),
        final(aside).deep_view() == old(aside).deep_view() + left_by(
            expr.deep_view(),
            p.deep_view(),
            hands_of(*h),
            depth as nat,
        ),
    decreases left((depth + 1) as nat), 3int,
{
    assert(aside.deep_view() + Seq::empty() =~= aside.deep_view());
    let ghost ev = expr.deep_view();
    let ghost whole = left_by(ev, p.deep_view(), hands_of(*h), depth as nat);
    match expr {
        Expr::Time => {
            assert(whole == Seq::<(ExprV, Seq<char>)>::empty());
            Ok(expr.clone())
        },
        Expr::ColonSubscript => {
            assert(whole == Seq::<(ExprV, Seq<char>)>::empty());
            Err("`:` and `end` make sense only inside a subscript".to_owned())
        },
        Expr::EndSubscript => {
            assert(whole == Seq::<(ExprV, Seq<char>)>::empty());
            Err("`:` and `end` make sense only inside a subscript".to_owned())
        },
        Expr::Tuple(_) => {
            assert(whole == Seq::<(ExprV, Seq<char>)>::empty());
            Err("a tuple may only stand on the left of `=` or `:=`".to_owned())
        },
        _ => if matches!(
            expr,
            Expr::Array(_) | Expr::Elementwise(..) | Expr::Range(..) | Expr::Comprehension(..)
                | Expr::MatrixRows(_)
        ) {
            assert(whole == Seq::<(ExprV, Seq<char>)>::empty());
            let shown = h.shown(expr);
            let short = sketch(shown.as_str());
            Err(
                join2(
                    "an array value cannot be used where a scalar is expected: ",
                    short.as_str(),
                ),
            )
        } else {
            assert(whole == left_by_list(kids(ev), kids(ev).len(), p.deep_view(), hands_of(*h), (depth + 1) as nat));
            resolve_parts(expr, p, h, depth, aside)
        },
    }
}

/// An expression with each of its parts resolved.
fn resolve_parts<
    W: Fn(Arith, Number, Number) -> Number,
    O: Fn(&str, &Vec<Number>) -> Option<Vec<Number>>,
    N: Fn(&str) -> String,
    S: Fn(&Expr) -> String,
    L: Fn(Number) -> String,
    H: Fn(&str) -> bool,
    C: Fn(&ClassDef, &Option<String>, &Vec<Expr>, &Vec<Vec<i64>>, usize) -> Result<Inlined, String>,
>(
    expr: &Expr,
    p: &Place,
    h: &Hands<W, O, N, S, L, H, C>,
    depth: usize,
    aside: &mut Vec<(Expr, String)>,
) -> (r: Result<Expr, String>)
    requires
        are_steady(*h),
        depth <= MAX_DEPTH,
    ensures
        match resolved_list(
            kids(expr.deep_view()),
            kids(expr.deep_view()).len(),
            p.deep_view(),
            hands_of(*h),
            (depth + 1) as nat,
        ) {
            Err(trouble) => r matches Err(why) && why@ == trouble,
            Ok(new) => r matches Ok(made) && made.deep_view() == with_kids(expr.deep_view(), new),
        },
        final(aside).deep_view() == old(aside).deep_view() + left_by_list(
            kids(expr.deep_view()),
            kids(expr.deep_view()).len(),
            p.deep_view(),
            hands_of(*h),
            (depth + 1) as nat,
        ),
    decreases left((depth + 1) as nat), 2int,
{
    let below = expr.children();
    proof {
        lemma_list_len(
            kids(expr.deep_view()),
            kids(expr.deep_view()).len(),
            p.deep_view(),
            hands_of(*h),
            (depth + 1) as nat,
        );
    }
    match resolve_list(&below, p, h, depth + 1, aside) {
        Ok(new) => Ok(expr.with_children(new)),
        Err(why) => Err(why),
    }
}

}
