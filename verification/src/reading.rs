//! Reading the equations of a class: what each expression stands for where it
//! is written.
use crate::buses::{pair_up, paired, side_paths};
use crate::class::{ClassDef, ClassKind, EquationItem, EquationV, Statement};
use crate::expr::{told, Expr, ExprV};
use crate::flat::{put_aside, set_aside, Checks, Flat, FlatV};
use crate::folding::Worths;
use crate::lookup::{is_it, lookup, meaning, Pairs, Registry};
use crate::names::{prefix_expr, prefixed_whole, Naming, NamingV};
use crate::number::Number;
use crate::table::Table;
use crate::text::{join2, texts};
use crate::value::{first_scalar, not_scalar, scalars, shape_of, written_out, Value, ValueV};
use vstd::prelude::*;

verus! {

/// How a list of statements ended.
#[derive(Clone, Copy, Debug, PartialEq, Eq, Structural)]
pub enum Flow {
    Normal,
    Break,
    Return,
}

/// What executing a list of statements came to: what it wrote, the names in
/// the order they were written, and what it checked itself and through the
/// bodies it called.
#[derive(Debug)]
pub struct Ran {
    pub flow: Flow,
    pub written: Table<Expr>,
    pub order: Vec<String>,
    pub checks: Vec<(Expr, String)>,
    /// What the bodies called on the way checked.
    pub aside: Vec<(Expr, String)>,
}

pub ghost struct RanV {
    pub flow: Flow,
    pub written: Map<Seq<char>, ExprV>,
    pub order: Seq<Seq<char>>,
    pub checks: Checks,
    pub aside: Checks,
}

impl DeepView for Ran {
    type V = RanV;

    open spec fn deep_view(&self) -> RanV {
        RanV {
            flow: self.flow,
            written: self.written.deep_view(),
            order: texts(self.order@),
            checks: self.checks.deep_view(),
            aside: self.aside.deep_view(),
        }
    }
}

/// The statements of a list that only points at them.
pub open spec fn listed(list: Seq<&Statement>) -> Seq<Statement> {
    Seq::new(list.len(), |i: int| *list[i])
}

/// Where an equation is read: the class, what it imports, and the names,
/// numbers, lengths and records in view.
#[derive(Debug)]
pub struct Here {
    pub scope: String,
    pub imports: Vec<(String, String)>,
    pub naming: Naming,
    pub consts: Table<Number>,
    pub sizes: Table<Vec<i64>>,
    pub records: Table<String>,
}

pub ghost struct HereV {
    pub scope: Seq<char>,
    pub imports: Pairs,
    pub naming: NamingV,
    pub consts: Worths,
    pub sizes: Map<Seq<char>, Seq<i64>>,
    pub records: Map<Seq<char>, Seq<char>>,
}

impl DeepView for Here {
    type V = HereV;

    open spec fn deep_view(&self) -> HereV {
        HereV {
            scope: self.scope@,
            imports: self.imports.deep_view(),
            naming: self.naming.deep_view(),
            consts: self.consts.deep_view(),
            sizes: self.sizes.deep_view(),
            records: self.records.deep_view(),
        }
    }
}

/// What reading a class leans on, handed in by whoever knows.
///
/// `put` puts the constants of classes into an expression, with or without
/// what this class declares standing before them; `spread` makes of an
/// expression what it stands for with the loop variables, numbers and records
/// in view, and `unfold` writes records out as their fields; `pair` is the
/// equations two values make; `show` and `begin` write out an expression and
/// what an array begins with; `run` executes a list of statements; `outputs`
/// and `checks` are what a call of a function comes to and what its body
/// checks; each of these comes with the checks of the bodies that were run on
/// the way, which are set aside for the class to take up; `undecided` says whether a failure means only the run can walk the
/// body, and `walkable` whether it can.
pub struct Reading<A1, A2, A3, A4, A5, A6, A7, A8, A9, B1, B2> {
    pub put: A1,
    pub spread: A2,
    pub unfold: A3,
    pub pair: A4,
    pub show: A5,
    pub begin: A6,
    pub run: A7,
    pub outputs: A8,
    pub checks: A9,
    pub undecided: B1,
    pub walkable: B2,
    /// What they answer, mathematically.
    pub model: Ghost<ReadingV>,
}

/// The same, mathematically.
pub ghost struct ReadingV {
    pub put: spec_fn(ExprV, bool) -> ExprV,
    pub spread: spec_fn(ExprV, Map<Seq<char>, Number>, Map<Seq<char>, Number>, Map<Seq<char>, Seq<char>>) -> Result<(ValueV, Checks), Seq<char>>,
    pub unfold: spec_fn(ValueV, Map<Seq<char>, Number>, Map<Seq<char>, Number>, Map<Seq<char>, Seq<char>>) -> Result<(ValueV, Checks), Seq<char>>,
    pub pair: spec_fn(ValueV, ValueV, Seq<char>) -> Result<Seq<EquationV>, Seq<char>>,
    pub show: spec_fn(ExprV) -> Seq<char>,
    pub begin: spec_fn(Option<ExprV>) -> Seq<char>,
    pub run: spec_fn(Seq<Statement>) -> Result<RanV, Seq<char>>,
    pub outputs: spec_fn(ClassDef, Seq<ExprV>, Seq<Seq<i64>>) -> Result<(Seq<(Seq<char>, ExprV)>, Checks), Seq<char>>,
    pub checks: spec_fn(ClassDef, Seq<ExprV>, Seq<Seq<i64>>) -> Result<(Checks, Checks), Seq<char>>,
    pub undecided: spec_fn(Seq<char>) -> bool,
    pub walkable: spec_fn(ClassDef) -> bool,
}

/// Whether each of them may be asked anything, and answers as `m` says.
pub open spec fn reads_true_to<
    A1: Fn(&Expr, bool) -> Expr,
    A2: Fn(&Expr, &Table<Number>, &Table<Number>, &Table<String>) -> Result<(Value, Vec<(Expr, String)>), String>,
    A3: Fn(Value, &Table<Number>, &Table<Number>, &Table<String>) -> Result<(Value, Vec<(Expr, String)>), String>,
    A4: Fn(&Value, &Value, &str) -> Result<Vec<EquationItem>, String>,
    A5: Fn(&Expr) -> String,
    A6: Fn(Option<&Expr>) -> String,
    A7: Fn(&Vec<&Statement>) -> Result<Ran, String>,
    A8: Fn(&ClassDef, &Vec<Expr>, &Vec<Vec<i64>>) -> Result<(Vec<(String, Expr)>, Vec<(Expr, String)>), String>,
    A9: Fn(&ClassDef, &Vec<Expr>, &Vec<Vec<i64>>) -> Result<(Vec<(Expr, String)>, Vec<(Expr, String)>), String>,
    B1: Fn(&str) -> bool,
    B2: Fn(&ClassDef) -> bool,
>(
    put: A1,
    spread: A2,
    unfold: A3,
    pair: A4,
    show: A5,
    begin: A6,
    run: A7,
    outputs: A8,
    checks: A9,
    undecided: B1,
    walkable: B2,
    m: ReadingV,
) -> bool {
    &&& forall|e: &Expr, shadowed: bool| #[trigger] call_requires(put, (e, shadowed))
    &&& forall|e: &Expr, shadowed: bool, r: Expr| #[trigger]
        call_ensures(put, (e, shadowed), r) ==> r.deep_view() == (m.put)(e.deep_view(), shadowed)
    &&& forall|
        e: &Expr,
        vars: &Table<Number>,
        consts: &Table<Number>,
        records: &Table<String>,
    | #[trigger] call_requires(spread, (e, vars, consts, records))
    &&& forall|
        e: &Expr,
        vars: &Table<Number>,
        consts: &Table<Number>,
        records: &Table<String>,
        r: Result<(Value, Vec<(Expr, String)>), String>,
    | #[trigger]
        call_ensures(
            spread,
            (e, vars, consts, records),
            r,
        ) ==> told(r) == (m.spread)(e.deep_view(), vars.deep_view(), consts.deep_view(), records.deep_view())
    &&& forall|
        value: Value,
        vars: &Table<Number>,
        consts: &Table<Number>,
        records: &Table<String>,
    | #[trigger] call_requires(unfold, (value, vars, consts, records))
    &&& forall|
        value: Value,
        vars: &Table<Number>,
        consts: &Table<Number>,
        records: &Table<String>,
        r: Result<(Value, Vec<(Expr, String)>), String>,
    | #[trigger]
        call_ensures(
            unfold,
            (value, vars, consts, records),
            r,
        ) ==> told(r) == (m.unfold)(value.deep_view(), vars.deep_view(), consts.deep_view(), records.deep_view())
    &&& forall|
        lhs: &Value,
        rhs: &Value,
        origin: &str,
    | #[trigger] call_requires(pair, (lhs, rhs, origin))
    &&& forall|
        lhs: &Value,
        rhs: &Value,
        origin: &str,
        r: Result<Vec<EquationItem>, String>,
    | #[trigger]
        call_ensures(
            pair,
            (lhs, rhs, origin),
            r,
        ) ==> told(r) == (m.pair)(lhs.deep_view(), rhs.deep_view(), origin@)
    &&& forall|e: &Expr| #[trigger] call_requires(show, (e,))
    &&& forall|e: &Expr, r: String| #[trigger]
        call_ensures(show, (e,), r) ==> r@ == (m.show)(e.deep_view())
    &&& forall|first: Option<&Expr>| #[trigger] call_requires(begin, (first,))
    &&& forall|first: Option<&Expr>, r: String| #[trigger]
        call_ensures(begin, (first,), r) ==> r@ == (m.begin)(first.deep_view())
    &&& forall|list: &Vec<&Statement>| #[trigger] call_requires(run, (list,))
    &&& forall|list: &Vec<&Statement>, r: Result<Ran, String>| #[trigger]
        call_ensures(run, (list,), r) ==> told(r) == (m.run)(listed(list@))
    &&& forall|
        function: &ClassDef,
        args: &Vec<Expr>,
        shapes: &Vec<Vec<i64>>,
    | #[trigger] call_requires(outputs, (function, args, shapes))
    &&& forall|
        function: &ClassDef,
        args: &Vec<Expr>,
        shapes: &Vec<Vec<i64>>,
        r: Result<(Vec<(String, Expr)>, Vec<(Expr, String)>), String>,
    | #[trigger]
        call_ensures(
            outputs,
            (function, args, shapes),
            r,
        ) ==> told(r) == (m.outputs)(*function, args.deep_view(), shapes.deep_view())
    &&& forall|
        function: &ClassDef,
        args: &Vec<Expr>,
        shapes: &Vec<Vec<i64>>,
    | #[trigger] call_requires(checks, (function, args, shapes))
    &&& forall|
        function: &ClassDef,
        args: &Vec<Expr>,
        shapes: &Vec<Vec<i64>>,
        r: Result<(Vec<(Expr, String)>, Vec<(Expr, String)>), String>,
    | #[trigger]
        call_ensures(
            checks,
            (function, args, shapes),
            r,
        ) ==> told(r) == (m.checks)(*function, args.deep_view(), shapes.deep_view())
    &&& forall|why: &str| #[trigger] call_requires(undecided, (why,))
    &&& forall|why: &str, r: bool| #[trigger]
        call_ensures(undecided, (why,), r) ==> r == (m.undecided)(why@)
    &&& forall|function: &ClassDef| #[trigger] call_requires(walkable, (function,))
    &&& forall|function: &ClassDef, r: bool| #[trigger]
        call_ensures(walkable, (function,), r) ==> r == (m.walkable)(*function)
}

/// Whether each of them may be asked anything, and answers as its model says.
pub open spec fn reads_true<
    A1: Fn(&Expr, bool) -> Expr,
    A2: Fn(&Expr, &Table<Number>, &Table<Number>, &Table<String>) -> Result<(Value, Vec<(Expr, String)>), String>,
    A3: Fn(Value, &Table<Number>, &Table<Number>, &Table<String>) -> Result<(Value, Vec<(Expr, String)>), String>,
    A4: Fn(&Value, &Value, &str) -> Result<Vec<EquationItem>, String>,
    A5: Fn(&Expr) -> String,
    A6: Fn(Option<&Expr>) -> String,
    A7: Fn(&Vec<&Statement>) -> Result<Ran, String>,
    A8: Fn(&ClassDef, &Vec<Expr>, &Vec<Vec<i64>>) -> Result<(Vec<(String, Expr)>, Vec<(Expr, String)>), String>,
    A9: Fn(&ClassDef, &Vec<Expr>, &Vec<Vec<i64>>) -> Result<(Vec<(Expr, String)>, Vec<(Expr, String)>), String>,
    B1: Fn(&str) -> bool,
    B2: Fn(&ClassDef) -> bool,
>(s: Reading<A1, A2, A3, A4, A5, A6, A7, A8, A9, B1, B2>) -> bool {
    reads_true_to(
        s.put,
        s.spread,
        s.unfold,
        s.pair,
        s.show,
        s.begin,
        s.run,
        s.outputs,
        s.checks,
        s.undecided,
        s.walkable,
        s.model@,
    )
}

/// What they answer, mathematically.
pub open spec fn reading_of<
    A1: Fn(&Expr, bool) -> Expr,
    A2: Fn(&Expr, &Table<Number>, &Table<Number>, &Table<String>) -> Result<(Value, Vec<(Expr, String)>), String>,
    A3: Fn(Value, &Table<Number>, &Table<Number>, &Table<String>) -> Result<(Value, Vec<(Expr, String)>), String>,
    A4: Fn(&Value, &Value, &str) -> Result<Vec<EquationItem>, String>,
    A5: Fn(&Expr) -> String,
    A6: Fn(Option<&Expr>) -> String,
    A7: Fn(&Vec<&Statement>) -> Result<Ran, String>,
    A8: Fn(&ClassDef, &Vec<Expr>, &Vec<Vec<i64>>) -> Result<(Vec<(String, Expr)>, Vec<(Expr, String)>), String>,
    A9: Fn(&ClassDef, &Vec<Expr>, &Vec<Vec<i64>>) -> Result<(Vec<(Expr, String)>, Vec<(Expr, String)>), String>,
    B1: Fn(&str) -> bool,
    B2: Fn(&ClassDef) -> bool,
>(s: Reading<A1, A2, A3, A4, A5, A6, A7, A8, A9, B1, B2>) -> ReadingV {
    s.model@
}

impl<
    A1: Fn(&Expr, bool) -> Expr,
    A2: Fn(&Expr, &Table<Number>, &Table<Number>, &Table<String>) -> Result<(Value, Vec<(Expr, String)>), String>,
    A3: Fn(Value, &Table<Number>, &Table<Number>, &Table<String>) -> Result<(Value, Vec<(Expr, String)>), String>,
    A4: Fn(&Value, &Value, &str) -> Result<Vec<EquationItem>, String>,
    A5: Fn(&Expr) -> String,
    A6: Fn(Option<&Expr>) -> String,
    A7: Fn(&Vec<&Statement>) -> Result<Ran, String>,
    A8: Fn(&ClassDef, &Vec<Expr>, &Vec<Vec<i64>>) -> Result<(Vec<(String, Expr)>, Vec<(Expr, String)>), String>,
    A9: Fn(&ClassDef, &Vec<Expr>, &Vec<Vec<i64>>) -> Result<(Vec<(Expr, String)>, Vec<(Expr, String)>), String>,
    B1: Fn(&str) -> bool,
    B2: Fn(&ClassDef) -> bool,
> Reading<A1, A2, A3, A4, A5, A6, A7, A8, A9, B1, B2> {
    /// The bundle of such functions, where there is anything they answer at all.
    pub fn new(
        put: A1,
        spread: A2,
        unfold: A3,
        pair: A4,
        show: A5,
        begin: A6,
        run: A7,
        outputs: A8,
        checks: A9,
        undecided: B1,
        walkable: B2,
    ) -> (r: Self)
        requires
            exists|m: ReadingV| #[trigger] reads_true_to(
                put,
                spread,
                unfold,
                pair,
                show,
                begin,
                run,
                outputs,
                checks,
                undecided,
                walkable,
                m,
            ),
        ensures
            reads_true(r),
            r.put == put,
            r.spread == spread,
            r.unfold == unfold,
            r.pair == pair,
            r.show == show,
            r.begin == begin,
            r.run == run,
            r.outputs == outputs,
            r.checks == checks,
            r.undecided == undecided,
            r.walkable == walkable,
    {
        Reading {
            put,
            spread,
            unfold,
            pair,
            show,
            begin,
            run,
            outputs,
            checks,
            undecided,
            walkable,
            model: Ghost(choose|m: ReadingV| #[trigger] reads_true_to(put, spread, unfold, pair, show, begin, run, outputs, checks, undecided, walkable, m)),
        }
    }

    pub fn do_put(&self, e: &Expr, shadowed: bool) -> (r: Expr)
        requires
            reads_true(*self),
        ensures
            r.deep_view() == (reading_of(*self).put)(e.deep_view(), shadowed),
    {
        let f = &self.put;
        f(e, shadowed)
    }

    pub fn do_spread(
        &self,
        e: &Expr,
        vars: &Table<Number>,
        consts: &Table<Number>,
        records: &Table<String>,
    ) -> (r: Result<(Value, Vec<(Expr, String)>), String>)
        requires
            reads_true(*self),
        ensures
            told(
                r,
            ) == (reading_of(*self).spread)(e.deep_view(), vars.deep_view(), consts.deep_view(), records.deep_view()),
    {
        let f = &self.spread;
        f(e, vars, consts, records)
    }

    pub fn do_unfold(
        &self,
        value: Value,
        vars: &Table<Number>,
        consts: &Table<Number>,
        records: &Table<String>,
    ) -> (r: Result<(Value, Vec<(Expr, String)>), String>)
        requires
            reads_true(*self),
        ensures
            told(
                r,
            ) == (reading_of(*self).unfold)(value.deep_view(), vars.deep_view(), consts.deep_view(), records.deep_view()),
    {
        let f = &self.unfold;
        f(value, vars, consts, records)
    }

    pub fn do_pair(
        &self,
        lhs: &Value,
        rhs: &Value,
        origin: &str,
    ) -> (r: Result<Vec<EquationItem>, String>)
        requires
            reads_true(*self),
        ensures
            told(r) == (reading_of(*self).pair)(lhs.deep_view(), rhs.deep_view(), origin@),
    {
        let f = &self.pair;
        f(lhs, rhs, origin)
    }

    pub fn do_show(&self, e: &Expr) -> (r: String)
        requires
            reads_true(*self),
        ensures
            r@ == (reading_of(*self).show)(e.deep_view()),
    {
        let f = &self.show;
        f(e)
    }

    pub fn do_begin(&self, first: Option<&Expr>) -> (r: String)
        requires
            reads_true(*self),
        ensures
            r@ == (reading_of(*self).begin)(first.deep_view()),
    {
        let f = &self.begin;
        f(first)
    }

    pub fn do_run(&self, list: &Vec<&Statement>) -> (r: Result<Ran, String>)
        requires
            reads_true(*self),
        ensures
            told(r) == (reading_of(*self).run)(listed(list@)),
    {
        let f = &self.run;
        f(list)
    }

    pub fn do_outputs(
        &self,
        function: &ClassDef,
        args: &Vec<Expr>,
        shapes: &Vec<Vec<i64>>,
    ) -> (r: Result<(Vec<(String, Expr)>, Vec<(Expr, String)>), String>)
        requires
            reads_true(*self),
        ensures
            told(r) == (reading_of(*self).outputs)(*function, args.deep_view(), shapes.deep_view()),
    {
        let f = &self.outputs;
        f(function, args, shapes)
    }

    pub fn do_checks(
        &self,
        function: &ClassDef,
        args: &Vec<Expr>,
        shapes: &Vec<Vec<i64>>,
    ) -> (r: Result<(Vec<(Expr, String)>, Vec<(Expr, String)>), String>)
        requires
            reads_true(*self),
        ensures
            told(r) == (reading_of(*self).checks)(*function, args.deep_view(), shapes.deep_view()),
    {
        let f = &self.checks;
        f(function, args, shapes)
    }

    pub fn do_undecided(&self, why: &str) -> (r: bool)
        requires
            reads_true(*self),
        ensures
            r == (reading_of(*self).undecided)(why@),
    {
        let f = &self.undecided;
        f(why)
    }

    pub fn do_walkable(&self, function: &ClassDef) -> (r: bool)
        requires
            reads_true(*self),
        ensures
            r == (reading_of(*self).walkable)(*function),
    {
        let f = &self.walkable;
        f(function)
    }
}

/// What an expression stands for, and what was gathered once the bodies run for
/// it have set their checks aside.
pub open spec fn spread_out(
    h: ReadingV,
    acc: FlatV,
    e: ExprV,
    vars: Worths,
    consts: Worths,
    records: Map<Seq<char>, Seq<char>>,
) -> Result<(ValueV, FlatV), Seq<char>> {
    match (h.spread)(e, vars, consts, records) {
        Err(why) => Err(why),
        Ok((value, more)) => Ok((value, set_aside(acc, more))),
    }
}

pub fn spread_it<
    A1: Fn(&Expr, bool) -> Expr,
    A2: Fn(&Expr, &Table<Number>, &Table<Number>, &Table<String>) -> Result<(Value, Vec<(Expr, String)>), String>,
    A3: Fn(Value, &Table<Number>, &Table<Number>, &Table<String>) -> Result<(Value, Vec<(Expr, String)>), String>,
    A4: Fn(&Value, &Value, &str) -> Result<Vec<EquationItem>, String>,
    A5: Fn(&Expr) -> String,
    A6: Fn(Option<&Expr>) -> String,
    A7: Fn(&Vec<&Statement>) -> Result<Ran, String>,
    A8: Fn(&ClassDef, &Vec<Expr>, &Vec<Vec<i64>>) -> Result<(Vec<(String, Expr)>, Vec<(Expr, String)>), String>,
    A9: Fn(&ClassDef, &Vec<Expr>, &Vec<Vec<i64>>) -> Result<(Vec<(Expr, String)>, Vec<(Expr, String)>), String>,
    B1: Fn(&str) -> bool,
    B2: Fn(&ClassDef) -> bool,
>(
    h: &Reading<A1, A2, A3, A4, A5, A6, A7, A8, A9, B1, B2>,
    acc: Flat,
    e: &Expr,
    vars: &Table<Number>,
    consts: &Table<Number>,
    records: &Table<String>,
) -> (r: Result<(Value, Flat), String>)
    requires
        reads_true(*h),
    ensures
        told(r) == spread_out(
            reading_of(*h),
            acc.deep_view(),
            e.deep_view(),
            vars.deep_view(),
            consts.deep_view(),
            records.deep_view(),
        ),
{
    match h.do_spread(e, vars, consts, records) {
        Err(why) => Err(why),
        Ok((value, more)) => Ok((value, put_aside(acc, more))),
    }
}

/// What an expression that is named in full stands for, with its records
/// written out, and what was gathered once the bodies run for it have set their
/// checks aside.
pub open spec fn made_of(
    h: ReadingV,
    acc: FlatV,
    e: ExprV,
    vars: Worths,
    consts: Worths,
    records: Map<Seq<char>, Seq<char>>,
) -> Result<(ValueV, FlatV), Seq<char>> {
    match spread_out(h, acc, e, vars, consts, records) {
        Err(why) => Err(why),
        Ok((value, acc)) => match (h.unfold)(value, vars, consts, records) {
            Err(why) => Err(why),
            Ok((value, more)) => Ok((value, set_aside(acc, more))),
        },
    }
}

pub fn make_of<
    A1: Fn(&Expr, bool) -> Expr,
    A2: Fn(&Expr, &Table<Number>, &Table<Number>, &Table<String>) -> Result<(Value, Vec<(Expr, String)>), String>,
    A3: Fn(Value, &Table<Number>, &Table<Number>, &Table<String>) -> Result<(Value, Vec<(Expr, String)>), String>,
    A4: Fn(&Value, &Value, &str) -> Result<Vec<EquationItem>, String>,
    A5: Fn(&Expr) -> String,
    A6: Fn(Option<&Expr>) -> String,
    A7: Fn(&Vec<&Statement>) -> Result<Ran, String>,
    A8: Fn(&ClassDef, &Vec<Expr>, &Vec<Vec<i64>>) -> Result<(Vec<(String, Expr)>, Vec<(Expr, String)>), String>,
    A9: Fn(&ClassDef, &Vec<Expr>, &Vec<Vec<i64>>) -> Result<(Vec<(Expr, String)>, Vec<(Expr, String)>), String>,
    B1: Fn(&str) -> bool,
    B2: Fn(&ClassDef) -> bool,
>(
    h: &Reading<A1, A2, A3, A4, A5, A6, A7, A8, A9, B1, B2>,
    acc: Flat,
    e: &Expr,
    vars: &Table<Number>,
    consts: &Table<Number>,
    records: &Table<String>,
) -> (r: Result<(Value, Flat), String>)
    requires
        reads_true(*h),
    ensures
        told(r) == made_of(
            reading_of(*h),
            acc.deep_view(),
            e.deep_view(),
            vars.deep_view(),
            consts.deep_view(),
            records.deep_view(),
        ),
{
    match spread_it(h, acc, e, vars, consts, records) {
        Err(why) => Err(why),
        Ok((value, acc)) => match h.do_unfold(value, vars, consts, records) {
            Err(why) => Err(why),
            Ok((value, more)) => Ok((value, put_aside(acc, more))),
        },
    }
}

/// What an expression of a class stands for where it is written.
pub open spec fn stands_for(h: ReadingV, p: HereV, acc: FlatV, e: ExprV) -> Result<
    (ValueV, FlatV),
    Seq<char>,
> {
    made_of(h, acc, prefixed_whole((h.put)(e, true), p.naming), Map::empty(), p.consts, p.records)
}

/// Make of an expression of a class what it stands for.
pub fn expand_here<
    A1: Fn(&Expr, bool) -> Expr,
    A2: Fn(&Expr, &Table<Number>, &Table<Number>, &Table<String>) -> Result<(Value, Vec<(Expr, String)>), String>,
    A3: Fn(Value, &Table<Number>, &Table<Number>, &Table<String>) -> Result<(Value, Vec<(Expr, String)>), String>,
    A4: Fn(&Value, &Value, &str) -> Result<Vec<EquationItem>, String>,
    A5: Fn(&Expr) -> String,
    A6: Fn(Option<&Expr>) -> String,
    A7: Fn(&Vec<&Statement>) -> Result<Ran, String>,
    A8: Fn(&ClassDef, &Vec<Expr>, &Vec<Vec<i64>>) -> Result<(Vec<(String, Expr)>, Vec<(Expr, String)>), String>,
    A9: Fn(&ClassDef, &Vec<Expr>, &Vec<Vec<i64>>) -> Result<(Vec<(Expr, String)>, Vec<(Expr, String)>), String>,
    B1: Fn(&str) -> bool,
    B2: Fn(&ClassDef) -> bool,
>(
    h: &Reading<A1, A2, A3, A4, A5, A6, A7, A8, A9, B1, B2>,
    p: &Here,
    acc: Flat,
    e: &Expr,
) -> (r: Result<(Value, Flat), String>)
    requires
        reads_true(*h),
    ensures
        told(r) == stands_for(
            reading_of(*h),
            p.deep_view(),
            acc.deep_view(),
            e.deep_view(),
        ),
{
    let plain = h.do_put(e, true);
    let named = prefix_expr(&plain, &p.naming);
    let none: Table<Number> = Table::new();
    make_of(h, acc, &named, &none, &p.consts, &p.records)
}

/// The one value a value has to be.
pub open spec fn one_of(h: ReadingV, value: ValueV) -> Result<ExprV, Seq<char>> {
    match value {
        ValueV::Scalar(e) => Ok(e),
        ValueV::Array(_) => Err(not_scalar(value, (h.begin)(first_scalar(value)))),
    }
}

pub fn only_one<
    A1: Fn(&Expr, bool) -> Expr,
    A2: Fn(&Expr, &Table<Number>, &Table<Number>, &Table<String>) -> Result<(Value, Vec<(Expr, String)>), String>,
    A3: Fn(Value, &Table<Number>, &Table<Number>, &Table<String>) -> Result<(Value, Vec<(Expr, String)>), String>,
    A4: Fn(&Value, &Value, &str) -> Result<Vec<EquationItem>, String>,
    A5: Fn(&Expr) -> String,
    A6: Fn(Option<&Expr>) -> String,
    A7: Fn(&Vec<&Statement>) -> Result<Ran, String>,
    A8: Fn(&ClassDef, &Vec<Expr>, &Vec<Vec<i64>>) -> Result<(Vec<(String, Expr)>, Vec<(Expr, String)>), String>,
    A9: Fn(&ClassDef, &Vec<Expr>, &Vec<Vec<i64>>) -> Result<(Vec<(Expr, String)>, Vec<(Expr, String)>), String>,
    B1: Fn(&str) -> bool,
    B2: Fn(&ClassDef) -> bool,
>(
    h: &Reading<A1, A2, A3, A4, A5, A6, A7, A8, A9, B1, B2>,
    value: Value,
) -> (r: Result<Expr, String>)
    requires
        reads_true(*h),
    ensures
        told(r) == one_of(reading_of(*h), value.deep_view()),
{
    if let Value::Scalar(e) = value {
        return Ok(e);
    }
    let mut items: Vec<Expr> = Vec::new();
    value.flatten_into(&mut items);
    assert(items.deep_view() =~= scalars(value.deep_view()));
    let first: Option<&Expr> = if items.len() > 0 {
        assert(items.deep_view()[0] == items@[0].deep_view());
        Some(&items[0])
    } else {
        None
    };
    assert(first.deep_view() == first_scalar(value.deep_view()));
    let shown = h.do_begin(first);
    Err(value.complain(shown.as_str()))
}

/// What an expression that has to come to one value comes to.
pub open spec fn comes_to(h: ReadingV, p: HereV, acc: FlatV, e: ExprV) -> Result<
    (ExprV, FlatV),
    Seq<char>,
> {
    match stands_for(h, p, acc, e) {
        Err(why) => Err(why),
        Ok((value, acc)) => match one_of(h, value) {
            Err(why) => Err(why),
            Ok(e) => Ok((e, acc)),
        },
    }
}

/// What has to come to one value - a condition, what a `when` gives a
/// variable - still goes through the array layer to get there.
pub fn resolve_here<
    A1: Fn(&Expr, bool) -> Expr,
    A2: Fn(&Expr, &Table<Number>, &Table<Number>, &Table<String>) -> Result<(Value, Vec<(Expr, String)>), String>,
    A3: Fn(Value, &Table<Number>, &Table<Number>, &Table<String>) -> Result<(Value, Vec<(Expr, String)>), String>,
    A4: Fn(&Value, &Value, &str) -> Result<Vec<EquationItem>, String>,
    A5: Fn(&Expr) -> String,
    A6: Fn(Option<&Expr>) -> String,
    A7: Fn(&Vec<&Statement>) -> Result<Ran, String>,
    A8: Fn(&ClassDef, &Vec<Expr>, &Vec<Vec<i64>>) -> Result<(Vec<(String, Expr)>, Vec<(Expr, String)>), String>,
    A9: Fn(&ClassDef, &Vec<Expr>, &Vec<Vec<i64>>) -> Result<(Vec<(Expr, String)>, Vec<(Expr, String)>), String>,
    B1: Fn(&str) -> bool,
    B2: Fn(&ClassDef) -> bool,
>(
    h: &Reading<A1, A2, A3, A4, A5, A6, A7, A8, A9, B1, B2>,
    p: &Here,
    acc: Flat,
    e: &Expr,
) -> (r: Result<(Expr, Flat), String>)
    requires
        reads_true(*h),
    ensures
        told(r) == comes_to(
            reading_of(*h),
            p.deep_view(),
            acc.deep_view(),
            e.deep_view(),
        ),
{
    match expand_here(h, p, acc, e) {
        Err(why) => Err(why),
        Ok((value, acc)) => match only_one(h, value) {
            Err(why) => Err(why),
            Ok(e) => Ok((e, acc)),
        },
    }
}

/// What was gathered with the equations two values make.
pub open spec fn with_pair(h: ReadingV, acc: FlatV, lhs: ValueV, rhs: ValueV) -> Result<
    FlatV,
    Seq<char>,
> {
    match (h.pair)(lhs, rhs, acc.origin) {
        Err(why) => Err(why),
        Ok(made) => Ok(FlatV { equations: acc.equations + made, ..acc }),
    }
}

pub fn push_pair<
    A1: Fn(&Expr, bool) -> Expr,
    A2: Fn(&Expr, &Table<Number>, &Table<Number>, &Table<String>) -> Result<(Value, Vec<(Expr, String)>), String>,
    A3: Fn(Value, &Table<Number>, &Table<Number>, &Table<String>) -> Result<(Value, Vec<(Expr, String)>), String>,
    A4: Fn(&Value, &Value, &str) -> Result<Vec<EquationItem>, String>,
    A5: Fn(&Expr) -> String,
    A6: Fn(Option<&Expr>) -> String,
    A7: Fn(&Vec<&Statement>) -> Result<Ran, String>,
    A8: Fn(&ClassDef, &Vec<Expr>, &Vec<Vec<i64>>) -> Result<(Vec<(String, Expr)>, Vec<(Expr, String)>), String>,
    A9: Fn(&ClassDef, &Vec<Expr>, &Vec<Vec<i64>>) -> Result<(Vec<(Expr, String)>, Vec<(Expr, String)>), String>,
    B1: Fn(&str) -> bool,
    B2: Fn(&ClassDef) -> bool,
>(h: &Reading<A1, A2, A3, A4, A5, A6, A7, A8, A9, B1, B2>, acc: Flat, lhs: &Value, rhs: &Value) -> (r: Result<
    Flat,
    String,
>)
    requires
        reads_true(*h),
    ensures
        told(r) == with_pair(
            reading_of(*h),
            acc.deep_view(),
            lhs.deep_view(),
            rhs.deep_view(),
        ),
{
    let mut acc = acc;
    let ghost was = acc.deep_view();
    match h.do_pair(lhs, rhs, acc.origin.as_str()) {
        Err(why) => Err(why),
        Ok(mut made) => {
            let ghost more = made.deep_view();
            acc.equations.append(&mut made);
            assert(acc.equations.deep_view() =~= was.equations + more);
            Ok(acc)
        },
    }
}

/// What was gathered with one more check.
pub open spec fn with_check(acc: FlatV, condition: ExprV, message: Seq<char>) -> FlatV {
    FlatV { asserts: acc.asserts.push((condition, message)), ..acc }
}

pub fn push_check(acc: Flat, condition: Expr, message: String) -> (r: Flat)
    ensures
        r.deep_view() == with_check(acc.deep_view(), condition.deep_view(), message@),
{
    let mut acc = acc;
    let ghost was = acc.deep_view();
    let ghost one = (condition.deep_view(), message@);
    acc.asserts.push((condition, message));
    assert(acc.asserts.deep_view() =~= was.asserts.push(one));
    acc
}

/// The paths a value names.
pub open spec fn paths_in(h: ReadingV, value: ValueV) -> Result<Seq<Seq<char>>, Seq<char>> {
    side_paths(scalars(value), h.show, scalars(value).len())
}

proof fn lemma_paths_stop(items: Seq<ExprV>, show: spec_fn(ExprV) -> Seq<char>, n: nat, all: nat)
    requires
        n <= all,
        side_paths(items, show, n) is Err,
    ensures
        side_paths(items, show, all) == side_paths(items, show, n),
    decreases all,
{
    if n < all {
        lemma_paths_stop(items, show, n, (all - 1) as nat);
    }
}

fn find_paths<
    A1: Fn(&Expr, bool) -> Expr,
    A2: Fn(&Expr, &Table<Number>, &Table<Number>, &Table<String>) -> Result<(Value, Vec<(Expr, String)>), String>,
    A3: Fn(Value, &Table<Number>, &Table<Number>, &Table<String>) -> Result<(Value, Vec<(Expr, String)>), String>,
    A4: Fn(&Value, &Value, &str) -> Result<Vec<EquationItem>, String>,
    A5: Fn(&Expr) -> String,
    A6: Fn(Option<&Expr>) -> String,
    A7: Fn(&Vec<&Statement>) -> Result<Ran, String>,
    A8: Fn(&ClassDef, &Vec<Expr>, &Vec<Vec<i64>>) -> Result<(Vec<(String, Expr)>, Vec<(Expr, String)>), String>,
    A9: Fn(&ClassDef, &Vec<Expr>, &Vec<Vec<i64>>) -> Result<(Vec<(Expr, String)>, Vec<(Expr, String)>), String>,
    B1: Fn(&str) -> bool,
    B2: Fn(&ClassDef) -> bool,
>(
    h: &Reading<A1, A2, A3, A4, A5, A6, A7, A8, A9, B1, B2>,
    value: &Value,
) -> (r: Result<Vec<String>, String>)
    requires
        reads_true(*h),
    ensures
        match paths_in(reading_of(*h), value.deep_view()) {
            Err(trouble) => r matches Err(why) && why@ == trouble,
            Ok(paths) => r matches Ok(made) && texts(made@) == paths,
        },
{
    let ghost g = reading_of(*h).show;
    let mut items: Vec<Expr> = Vec::new();
    value.flatten_into(&mut items);
    let ghost all = items.deep_view();
    assert(all =~= scalars(value.deep_view()));
    let mut out: Vec<String> = Vec::new();
    let mut i: usize = 0;
    assert(texts(out@) =~= Seq::empty());
    while i < items.len()
        invariant
            i <= items.len(),
            reads_true(*h),
            g == reading_of(*h).show,
            all == items.deep_view(),
            all == scalars(value.deep_view()),
            side_paths(all, g, i as nat) == Ok::<Seq<Seq<char>>, Seq<char>>(texts(out@)),
        decreases items.len() - i,
    {
        let ghost before = texts(out@);
        assert(all[i as int] == items@[i as int].deep_view());
        match &items[i] {
            Expr::Ref(path) => {
                out.push(path.clone());
                assert(texts(out@) =~= before.push(path@));
            },
            other => {
                let text = h.do_show(other);
                proof {
                    lemma_paths_stop(all, g, (i + 1) as nat, all.len());
                }
                return Err(
                    join2("a side of connect must reference connectors, found ", text.as_str()),
                );
            },
        }
        i = i + 1;
    }
    Ok(out)
}

/// The paths one side of a `connect` comes to.
pub open spec fn side_here(
    h: ReadingV,
    p: HereV,
    acc: FlatV,
    e: ExprV,
    vars: Worths,
    consts: Worths,
    records: Map<Seq<char>, Seq<char>>,
) -> Result<(Seq<Seq<char>>, FlatV), Seq<char>> {
    match spread_out(h, acc, prefixed_whole(e, p.naming), vars, consts, records) {
        Err(why) => Err(why),
        Ok((value, acc)) => match paths_in(h, value) {
            Err(why) => Err(why),
            Ok(paths) => Ok((paths, acc)),
        },
    }
}

fn find_side_here<
    A1: Fn(&Expr, bool) -> Expr,
    A2: Fn(&Expr, &Table<Number>, &Table<Number>, &Table<String>) -> Result<(Value, Vec<(Expr, String)>), String>,
    A3: Fn(Value, &Table<Number>, &Table<Number>, &Table<String>) -> Result<(Value, Vec<(Expr, String)>), String>,
    A4: Fn(&Value, &Value, &str) -> Result<Vec<EquationItem>, String>,
    A5: Fn(&Expr) -> String,
    A6: Fn(Option<&Expr>) -> String,
    A7: Fn(&Vec<&Statement>) -> Result<Ran, String>,
    A8: Fn(&ClassDef, &Vec<Expr>, &Vec<Vec<i64>>) -> Result<(Vec<(String, Expr)>, Vec<(Expr, String)>), String>,
    A9: Fn(&ClassDef, &Vec<Expr>, &Vec<Vec<i64>>) -> Result<(Vec<(Expr, String)>, Vec<(Expr, String)>), String>,
    B1: Fn(&str) -> bool,
    B2: Fn(&ClassDef) -> bool,
>(
    h: &Reading<A1, A2, A3, A4, A5, A6, A7, A8, A9, B1, B2>,
    p: &Here,
    acc: Flat,
    e: &Expr,
    vars: &Table<Number>,
    consts: &Table<Number>,
    records: &Table<String>,
) -> (r: Result<(Vec<String>, Flat), String>)
    requires
        reads_true(*h),
    ensures
        match side_here(
            reading_of(*h),
            p.deep_view(),
            acc.deep_view(),
            e.deep_view(),
            vars.deep_view(),
            consts.deep_view(),
            records.deep_view(),
        ) {
            Err(trouble) => r matches Err(why) && why@ == trouble,
            Ok((paths, after)) => r matches Ok(made) && texts(made.0@) == paths
                && made.1.deep_view() == after,
        },
{
    let named = prefix_expr(e, &p.naming);
    match spread_it(h, acc, &named, vars, consts, records) {
        Err(why) => Err(why),
        Ok((value, acc)) => match find_paths(h, &value) {
            Err(why) => Err(why),
            Ok(paths) => Ok((paths, acc)),
        },
    }
}

/// What was gathered with a `connect` read where it stands.
pub open spec fn with_connect(
    h: ReadingV,
    p: HereV,
    acc: FlatV,
    a: ExprV,
    b: ExprV,
    vars: Worths,
    consts: Worths,
    records: Map<Seq<char>, Seq<char>>,
) -> Result<FlatV, Seq<char>> {
    match side_here(h, p, acc, a, vars, consts, records) {
        Err(why) => Err(why),
        Ok((left, acc)) => match side_here(h, p, acc, b, vars, consts, records) {
            Err(why) => Err(why),
            Ok((right, acc)) => paired(acc, p.naming.prefix, left, right),
        },
    }
}

pub fn push_connects<
    A1: Fn(&Expr, bool) -> Expr,
    A2: Fn(&Expr, &Table<Number>, &Table<Number>, &Table<String>) -> Result<(Value, Vec<(Expr, String)>), String>,
    A3: Fn(Value, &Table<Number>, &Table<Number>, &Table<String>) -> Result<(Value, Vec<(Expr, String)>), String>,
    A4: Fn(&Value, &Value, &str) -> Result<Vec<EquationItem>, String>,
    A5: Fn(&Expr) -> String,
    A6: Fn(Option<&Expr>) -> String,
    A7: Fn(&Vec<&Statement>) -> Result<Ran, String>,
    A8: Fn(&ClassDef, &Vec<Expr>, &Vec<Vec<i64>>) -> Result<(Vec<(String, Expr)>, Vec<(Expr, String)>), String>,
    A9: Fn(&ClassDef, &Vec<Expr>, &Vec<Vec<i64>>) -> Result<(Vec<(Expr, String)>, Vec<(Expr, String)>), String>,
    B1: Fn(&str) -> bool,
    B2: Fn(&ClassDef) -> bool,
>(
    h: &Reading<A1, A2, A3, A4, A5, A6, A7, A8, A9, B1, B2>,
    p: &Here,
    acc: Flat,
    a: &Expr,
    b: &Expr,
    vars: &Table<Number>,
    consts: &Table<Number>,
    records: &Table<String>,
) -> (r: Result<Flat, String>)
    requires
        reads_true(*h),
    ensures
        told(r) == with_connect(
            reading_of(*h),
            p.deep_view(),
            acc.deep_view(),
            a.deep_view(),
            b.deep_view(),
            vars.deep_view(),
            consts.deep_view(),
            records.deep_view(),
        ),
{
    let (left, acc) = match find_side_here(h, p, acc, a, vars, consts, records) {
        Ok(made) => made,
        Err(why) => return Err(why),
    };
    let (right, acc) = match find_side_here(h, p, acc, b, vars, consts, records) {
        Ok(made) => made,
        Err(why) => return Err(why),
    };
    let mut acc = acc;
    match pair_up(&mut acc, p.naming.prefix.as_str(), &left, &right) {
        Ok(()) => Ok(acc),
        Err(why) => Err(why),
    }
}

/// The function a name calls.
pub open spec fn function_called(classes: Seq<&ClassDef>, p: HereV, name: Seq<char>) -> Option<
    ClassDef,
> {
    match meaning(classes, name, p.scope, p.imports) {
        Some(found) => if found.kind == ClassKind::Function {
            Some(found)
        } else {
            None
        },
        None => None,
    }
}

pub fn find_function<'a>(registry: &Registry<'a>, p: &Here, name: &str) -> (r: Option<&'a ClassDef>)
    ensures
        is_it(r, function_called(registry@, p.deep_view(), name@)),
{
    match lookup(registry, name, p.scope.as_str(), &p.imports) {
        Some(found) => if found.kind == ClassKind::Function {
            Some(found)
        } else {
            None
        },
        None => None,
    }
}

/// How long a value is along each dimension, as lengths are kept.
pub open spec fn lengths_of(value: ValueV) -> Seq<i64> {
    Seq::new(shape_of(value).len(), |i: int| shape_of(value)[i] as i64)
}

/// The lengths of a value.
pub fn shape_i64(value: &Value) -> (r: Vec<i64>)
    ensures
        r@ == lengths_of(value.deep_view()),
{
    let shape = value.shape();
    let ghost whole = lengths_of(value.deep_view());
    let mut out: Vec<i64> = Vec::new();
    let mut i: usize = 0;
    while i < shape.len()
        invariant
            i <= shape.len(),
            whole == lengths_of(value.deep_view()),
            shape_of(value.deep_view()) == Seq::new(shape@.len(), |k: int| shape@[k] as nat),
            out@.len() == i,
            forall|k: int| 0 <= k < i ==> #[trigger] out@[k] == whole[k],
        decreases shape.len() - i,
    {
        let length: i64 = shape[i] as i64;
        assert(shape_of(value.deep_view())[i as int] == shape@[i as int] as nat);
        out.push(length);
        i = i + 1;
    }
    assert(out@ =~= whole);
    out
}

/// The arguments of a call, worked out: what each stands for, and how long it
/// is.
pub ghost struct GivenV {
    pub args: Seq<ExprV>,
    pub shapes: Seq<Seq<i64>>,
}

/// The first `n` arguments of a call, worked out.
pub open spec fn arguments_given(
    h: ReadingV,
    p: HereV,
    acc: FlatV,
    args: Seq<ExprV>,
    n: nat,
) -> Result<(GivenV, FlatV), Seq<char>>
    decreases n,
{
    if n == 0 || n > args.len() {
        Ok((GivenV { args: Seq::empty(), shapes: Seq::empty() }, acc))
    } else {
        match arguments_given(h, p, acc, args, (n - 1) as nat) {
            Err(why) => Err(why),
            Ok((before, acc)) => match spread_out(
                h,
                acc,
                args[n - 1],
                Map::empty(),
                p.consts,
                p.records,
            ) {
                Err(why) => Err(why),
                Ok((value, acc)) => Ok(
                    (
                        GivenV {
                            args: before.args.push(written_out(value)),
                            shapes: before.shapes.push(lengths_of(value)),
                        },
                        acc,
                    ),
                ),
            },
        }
    }
}

proof fn lemma_arguments_stop(
    h: ReadingV,
    p: HereV,
    acc: FlatV,
    args: Seq<ExprV>,
    n: nat,
    all: nat,
)
    requires
        n <= all <= args.len(),
        arguments_given(h, p, acc, args, n) is Err,
    ensures
        arguments_given(h, p, acc, args, all) == arguments_given(h, p, acc, args, n),
    decreases all,
{
    if n < all {
        lemma_arguments_stop(h, p, acc, args, n, (all - 1) as nat);
    }
}

/// Work out the arguments of a call.
pub fn give_arguments<
    A1: Fn(&Expr, bool) -> Expr,
    A2: Fn(&Expr, &Table<Number>, &Table<Number>, &Table<String>) -> Result<(Value, Vec<(Expr, String)>), String>,
    A3: Fn(Value, &Table<Number>, &Table<Number>, &Table<String>) -> Result<(Value, Vec<(Expr, String)>), String>,
    A4: Fn(&Value, &Value, &str) -> Result<Vec<EquationItem>, String>,
    A5: Fn(&Expr) -> String,
    A6: Fn(Option<&Expr>) -> String,
    A7: Fn(&Vec<&Statement>) -> Result<Ran, String>,
    A8: Fn(&ClassDef, &Vec<Expr>, &Vec<Vec<i64>>) -> Result<(Vec<(String, Expr)>, Vec<(Expr, String)>), String>,
    A9: Fn(&ClassDef, &Vec<Expr>, &Vec<Vec<i64>>) -> Result<(Vec<(Expr, String)>, Vec<(Expr, String)>), String>,
    B1: Fn(&str) -> bool,
    B2: Fn(&ClassDef) -> bool,
>(
    h: &Reading<A1, A2, A3, A4, A5, A6, A7, A8, A9, B1, B2>,
    p: &Here,
    acc: Flat,
    args: &Vec<Expr>,
) -> (r: Result<(Vec<Expr>, Vec<Vec<i64>>, Flat), String>)
    requires
        reads_true(*h),
    ensures
        match arguments_given(
            reading_of(*h),
            p.deep_view(),
            acc.deep_view(),
            args.deep_view(),
            args@.len(),
        ) {
            Err(trouble) => r matches Err(why) && why@ == trouble,
            Ok((made, after)) => r matches Ok(out) && out.0.deep_view() == made.args
                && out.1.deep_view() == made.shapes && out.2.deep_view() == after,
        },
{
    let ghost hv = reading_of(*h);
    let ghost pv = p.deep_view();
    let ghost all = args.deep_view();
    let ghost start = acc.deep_view();
    let mut now = acc;
    let none: Table<Number> = Table::new();
    let mut given: Vec<Expr> = Vec::new();
    let mut shapes: Vec<Vec<i64>> = Vec::new();
    let mut i: usize = 0;
    assert(given.deep_view() =~= Seq::empty());
    assert(shapes.deep_view() =~= Seq::empty());
    while i < args.len()
        invariant
            i <= args.len(),
            reads_true(*h),
            hv == reading_of(*h),
            pv == p.deep_view(),
            all == args.deep_view(),
            none.deep_view() == Map::<Seq<char>, Number>::empty(),
            start == acc.deep_view(),
            arguments_given(hv, pv, start, all, i as nat) == Ok::<(GivenV, FlatV), Seq<char>>(
                (
                    GivenV { args: given.deep_view(), shapes: shapes.deep_view() },
                    now.deep_view(),
                ),
            ),
        decreases args.len() - i,
    {
        let ghost before = given.deep_view();
        let ghost lengths = shapes.deep_view();
        assert(all[i as int] == args@[i as int].deep_view());
        match spread_it(h, now, &args[i], &none, &p.consts, &p.records) {
            Err(why) => {
                proof {
                    lemma_arguments_stop(hv, pv, start, all, (i + 1) as nat, all.len());
                }
                return Err(why);
            },
            Ok((value, next)) => {
                now = next;
                given.push(value.into_expr());
                assert(given.deep_view() =~= before.push(written_out(value.deep_view())));
                let shape = shape_i64(&value);
                assert(shape.deep_view() =~= shape@);
                let ghost sv = shape@;
                shapes.push(shape);
                assert(shapes.deep_view() =~= lengths.push(sv));
            },
        }
        i = i + 1;
    }
    Ok((given, shapes, now))
}

}
