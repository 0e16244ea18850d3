//! What flattening leans on and does not hold itself: arithmetic, the making of
//! values, the running of statements, clocks, and what a model goes through once
//! it is whole.
use crate::bodies::{Walked, WalkedV};
use crate::class::{ClassDef, EquationItem, EquationV, Statement, WhenAction};
use crate::clockwork::{runs_true, Clockwork, ClockworkV, Ticking};
use crate::expr::{told, Expr, ExprV};
use crate::flat::{Checks, Model, ModelV};
use crate::folding::Worths;
use crate::instantiate::{Built, BuiltV, Course, CourseV, Env, EnvV, Floor, FloorV};
use crate::lookup::Pairs;
use crate::number::Number;
use crate::reading::{listed, Here, HereV, Ran, RanV};
use crate::shapes::Lengths;
use crate::sums::{is_steady, Arith, Sums, SumsV};
use crate::table::Table;
use crate::value::{Value, ValueV};
use vstd::prelude::*;

verus! {

/// The footing on which something outside is asked: the package a body was
/// reached by, how many bodies deep the asking is, and whether what is being
/// settled is a parameter's value.
#[derive(Debug)]
pub struct Footing {
    pub mark: Option<String>,
    pub nested: usize,
    pub settling: bool,
}

pub ghost struct FootingV {
    pub mark: Option<Seq<char>>,
    pub nested: nat,
    pub settling: bool,
}

impl DeepView for Footing {
    type V = FootingV;

    open spec fn deep_view(&self) -> FootingV {
        FootingV {
            mark: self.mark.deep_view(),
            nested: self.nested as nat,
            settling: self.settling,
        }
    }
}

/// What a check found wrong, where it found anything.
pub open spec fn objection(r: Result<(), String>) -> Option<Seq<char>> {
    match r {
        Ok(_) => None,
        Err(why) => Some(why@),
    }
}

/// The kinds of everything that is handed in.
pub trait Parts {
    type Work: Fn(Arith, Number, Number) -> Number;

    type Answer: Fn(&str, &Vec<Number>) -> Option<Vec<Number>>;

    type Plain: Fn(&str) -> String;

    type Recursive: Fn(&ClassDef) -> bool;

    type Unbounded: Fn(&Expr) -> bool;

    type Endless: Fn(&str) -> bool;

    type Leaves: Fn(&str) -> bool;

    type Undecided: Fn(&str) -> bool;

    type Show: Fn(&Expr) -> String;

    type Spell: Fn(Number) -> String;

    type Begin: Fn(Option<&Expr>) -> String;

    type Answers: Fn(&str, &Vec<u64>) -> Option<u64>;

    type Written: Fn(&str) -> bool;

    type Filed: Fn(&Expr, usize, &Vec<(String, Expr)>) -> Option<i64>;

    type Measured: Fn(&Expr, &Table<Number>, &Table<Vec<i64>>, &str, &Vec<(String, String)>, &Footing) -> Option<Vec<i64>>;

    type Filled: Fn(&ClassDef, &str) -> Option<Expr>;

    type Settle: Fn(&ClassDef, &Expr, &Table<Expr>, &Table<Number>, &Table<Vec<i64>>, usize, &Footing) -> Option<Number>;

    type Expand: Fn(&Expr, &Table<Number>, &Table<Number>, &Table<Vec<i64>>, &str, &Vec<(String, String)>, &Table<String>, usize, &Footing) -> Result<(Value, Vec<(Expr, String)>), String>;

    type Unfold: Fn(Value, &Table<Number>, &Table<Number>, &Table<String>, &Here, &Footing) -> Result<(Value, Vec<(Expr, String)>), String>;

    type Pair: Fn(&Value, &Value, &str) -> Result<Vec<EquationItem>, String>;

    type WalkBody: Fn(&ClassDef, &Vec<Statement>, Table<Expr>, &Table<Number>, &Table<Vec<i64>>, usize, &Footing) -> Result<Walked, String>;

    type Run: Fn(&Vec<&Statement>, &Here, &Table<Vec<i64>>, &Footing) -> Result<Ran, String>;

    type Landed: Fn(&ClassDef) -> String;

    type Text: Fn(&Expr, &Table<String>) -> Option<String>;

    type Fold: Fn(&Expr, &Table<String>, &Table<Number>) -> Result<Expr, String>;

    type Kept: Fn(&ClassDef, &Vec<(String, String)>) -> Option<String>;

    type Build: Fn(&ClassDef, &Env, &Floor, Course, Built) -> Result<(Course, Built), String>;

    type Verify: Fn(&Model) -> Result<(), String>;

    type Strings: Fn(Model) -> Result<(Model, Table<String>), String>;

    type Tables: Fn(Model, &Table<Expr>, &Table<String>) -> Result<Model, String>;

    type Inputs: Fn(&Vec<(String, String)>, &Model) -> Result<(), String>;

    type Copies: Fn(&Model) -> Vec<ClassDef>;

    /// The table of clocks.
    type Clocks;

    type ReadClock: Fn(Self::Clocks, &Expr, &Table<Number>) -> Result<(Self::Clocks, Option<usize>), String>;

    type PutName: Fn(Self::Clocks, &str, usize) -> Self::Clocks;

    type ByName: Fn(&Self::Clocks, &str) -> Option<usize>;

    type Touched: Fn(Self::Clocks, &Expr, &Table<usize>, &Table<Number>, Vec<usize>) -> Result<(Self::Clocks, Vec<usize>), String>;

    type Meet: Fn(Self::Clocks, &Vec<usize>, &str) -> Result<(Self::Clocks, Option<usize>), String>;

    type Ticks: Fn(&Self::Clocks, usize) -> Ticking;

    type Agree: Fn(&Self::Clocks, usize, usize) -> bool;

    type Clash: Fn(&Self::Clocks, &str, usize, usize) -> String;

    type AtTick: Fn(&Self::Clocks, &Table<usize>, Option<usize>, &Expr) -> Expr;

    type Stride: Fn(&Self::Clocks, usize, &Vec<(String, Expr)>, &Expr) -> Vec<(String, Expr)>;

    type Elapsed: Fn(&Self::Clocks, usize) -> Expr;

    type Order: Fn(&Vec<(usize, Vec<(String, Expr)>)>) -> Result<Vec<usize>, String>;

    type Arrange: Fn(Vec<(String, Expr)>) -> Result<Vec<WhenAction>, String>;

    type Unheld: Fn(&Expr, &Table<usize>) -> Option<String>;

    type Assigned: Fn(&EquationItem) -> Option<(String, bool)>;

    type Within: Fn(&Expr) -> Vec<String>;

    type FirstTick: Fn(&Expr, &str) -> Expr;

    type After: Fn(&str, &Expr) -> Expr;

    type Counter: Fn(usize) -> String;

    type Last: Fn(usize) -> String;

    type Sole: Fn(&Self::Clocks) -> (Option<usize>, usize, Option<Number>);

    type Fresh: Fn() -> Self::Clocks;
}

/// What is known of functions and of the way things are written.
///
/// `recursive` says whether a function leads back to itself and `unbounded`
/// whether an expression still calls one that does; `endless` and `leaves` tell
/// a failure that means a loop or a recursion that does not end here from one
/// that means a body left early, and `undecided` whether only the run can walk
/// the body; `show` writes an expression out, `spell` a number and `begin` what
/// an array begins with; and `written` says whether a body of a name is at
/// hand, with `answers` how many numbers it answers with.
pub struct Language<P: Parts> {
    pub recursive: P::Recursive,
    pub unbounded: P::Unbounded,
    pub endless: P::Endless,
    pub leaves: P::Leaves,
    pub undecided: P::Undecided,
    pub show: P::Show,
    pub spell: P::Spell,
    pub begin: P::Begin,
    pub answers: P::Answers,
    pub written: P::Written,
    /// What they answer, mathematically.
    pub model: Ghost<LanguageV>,
}

/// The same, mathematically.
pub ghost struct LanguageV {
    pub recursive: spec_fn(ClassDef) -> bool,
    pub unbounded: spec_fn(ExprV) -> bool,
    pub endless: spec_fn(Seq<char>) -> bool,
    pub leaves: spec_fn(Seq<char>) -> bool,
    pub undecided: spec_fn(Seq<char>) -> bool,
    pub show: spec_fn(ExprV) -> Seq<char>,
    pub spell: spec_fn(Number) -> Seq<char>,
    pub begin: spec_fn(Option<ExprV>) -> Seq<char>,
    pub answers: spec_fn(Seq<char>, Seq<u64>) -> Option<u64>,
    pub written: spec_fn(Seq<char>) -> bool,
}

/// Whether each of them may be asked anything, and answers as `m` says.
pub open spec fn language_true_to<P: Parts>(
    recursive: P::Recursive,
    unbounded: P::Unbounded,
    endless: P::Endless,
    leaves: P::Leaves,
    undecided: P::Undecided,
    show: P::Show,
    spell: P::Spell,
    begin: P::Begin,
    answers: P::Answers,
    written: P::Written,
    m: LanguageV,
) -> bool {
    &&& forall|class: &ClassDef| #[trigger] call_requires(recursive, (class,))
    &&& forall|class: &ClassDef, r: bool| #[trigger]
        call_ensures(recursive, (class,), r) ==> r == (m.recursive)(*class)
    &&& forall|e: &Expr| #[trigger] call_requires(unbounded, (e,))
    &&& forall|e: &Expr, r: bool| #[trigger]
        call_ensures(unbounded, (e,), r) ==> r == (m.unbounded)(e.deep_view())
    &&& forall|why: &str| #[trigger] call_requires(endless, (why,))
    &&& forall|why: &str, r: bool| #[trigger]
        call_ensures(endless, (why,), r) ==> r == (m.endless)(why@)
    &&& forall|why: &str| #[trigger] call_requires(leaves, (why,))
    &&& forall|why: &str, r: bool| #[trigger]
        call_ensures(leaves, (why,), r) ==> r == (m.leaves)(why@)
    &&& forall|why: &str| #[trigger] call_requires(undecided, (why,))
    &&& forall|why: &str, r: bool| #[trigger]
        call_ensures(undecided, (why,), r) ==> r == (m.undecided)(why@)
    &&& forall|e: &Expr| #[trigger] call_requires(show, (e,))
    &&& forall|e: &Expr, r: String| #[trigger]
        call_ensures(show, (e,), r) ==> r@ == (m.show)(e.deep_view())
    &&& forall|n: Number| #[trigger] call_requires(spell, (n,))
    &&& forall|n: Number, r: String| #[trigger]
        call_ensures(spell, (n,), r) ==> r@ == (m.spell)(n)
    &&& forall|first: Option<&Expr>| #[trigger] call_requires(begin, (first,))
    &&& forall|first: Option<&Expr>, r: String| #[trigger]
        call_ensures(begin, (first,), r) ==> r@ == (m.begin)(first.deep_view())
    &&& forall|called: &str, handed: &Vec<u64>| #[trigger] call_requires(answers, (called, handed))
    &&& forall|called: &str, handed: &Vec<u64>, r: Option<u64>| #[trigger]
        call_ensures(answers, (called, handed), r) ==> r == (m.answers)(called@, handed@)
    &&& forall|called: &str| #[trigger] call_requires(written, (called,))
    &&& forall|called: &str, r: bool| #[trigger]
        call_ensures(written, (called,), r) ==> r == (m.written)(called@)
}

/// Whether each of them may be asked anything, and answers as its model says.
pub open spec fn language_true<P: Parts>(s: Language<P>) -> bool {
    language_true_to::<P>(
        s.recursive,
        s.unbounded,
        s.endless,
        s.leaves,
        s.undecided,
        s.show,
        s.spell,
        s.begin,
        s.answers,
        s.written,
        s.model@,
    )
}

impl<P: Parts> Language<P> {
    /// The bundle of such functions, where there is anything they answer at all.
    pub fn new(
        recursive: P::Recursive,
        unbounded: P::Unbounded,
        endless: P::Endless,
        leaves: P::Leaves,
        undecided: P::Undecided,
        show: P::Show,
        spell: P::Spell,
        begin: P::Begin,
        answers: P::Answers,
        written: P::Written,
    ) -> (r: Self)
        requires
            exists|m: LanguageV| #[trigger] language_true_to::<P>(
                recursive,
                unbounded,
                endless,
                leaves,
                undecided,
                show,
                spell,
                begin,
                answers,
                written,
                m,
            ),
        ensures
            language_true(r),
            r.recursive == recursive,
            r.unbounded == unbounded,
            r.endless == endless,
            r.leaves == leaves,
            r.undecided == undecided,
            r.show == show,
            r.spell == spell,
            r.begin == begin,
            r.answers == answers,
            r.written == written,
    {
        Language {
            recursive,
            unbounded,
            endless,
            leaves,
            undecided,
            show,
            spell,
            begin,
            answers,
            written,
            model: Ghost(choose|m: LanguageV| #[trigger] language_true_to::<P>(recursive, unbounded, endless, leaves, undecided, show, spell, begin, answers, written, m)),
        }
    }

    pub fn do_recursive(&self, class: &ClassDef) -> (r: bool)
        requires
            language_true(*self),
        ensures
            r == (self.model@.recursive)(*class),
    {
        let f = &self.recursive;
        f(class)
    }

    pub fn do_unbounded(&self, e: &Expr) -> (r: bool)
        requires
            language_true(*self),
        ensures
            r == (self.model@.unbounded)(e.deep_view()),
    {
        let f = &self.unbounded;
        f(e)
    }

    pub fn do_endless(&self, why: &str) -> (r: bool)
        requires
            language_true(*self),
        ensures
            r == (self.model@.endless)(why@),
    {
        let f = &self.endless;
        f(why)
    }

    pub fn do_leaves(&self, why: &str) -> (r: bool)
        requires
            language_true(*self),
        ensures
            r == (self.model@.leaves)(why@),
    {
        let f = &self.leaves;
        f(why)
    }

    pub fn do_undecided(&self, why: &str) -> (r: bool)
        requires
            language_true(*self),
        ensures
            r == (self.model@.undecided)(why@),
    {
        let f = &self.undecided;
        f(why)
    }

    pub fn do_show(&self, e: &Expr) -> (r: String)
        requires
            language_true(*self),
        ensures
            r@ == (self.model@.show)(e.deep_view()),
    {
        let f = &self.show;
        f(e)
    }

    pub fn do_spell(&self, n: Number) -> (r: String)
        requires
            language_true(*self),
        ensures
            r@ == (self.model@.spell)(n),
    {
        let f = &self.spell;
        f(n)
    }

    pub fn do_begin(&self, first: Option<&Expr>) -> (r: String)
        requires
            language_true(*self),
        ensures
            r@ == (self.model@.begin)(first.deep_view()),
    {
        let f = &self.begin;
        f(first)
    }

    pub fn do_answers(&self, called: &str, handed: &Vec<u64>) -> (r: Option<u64>)
        requires
            language_true(*self),
        ensures
            r == (self.model@.answers)(called@, handed@),
    {
        let f = &self.answers;
        f(called, handed)
    }

    pub fn do_written(&self, called: &str) -> (r: bool)
        requires
            language_true(*self),
        ensures
            r == (self.model@.written)(called@),
    {
        let f = &self.written;
        f(called)
    }
}

/// What makes values of expressions and runs statements, each told on what
/// footing it is asked.
///
/// `filed` is how long a table kept in a file is along an axis; `built` is the
/// shape of a value once it is built; `filled` is the value a redeclaration
/// filled an input in with; `settle` works an expression of a body out to a
/// number; `expand` makes of an expression what it stands for, with the loop
/// variables, numbers, lengths and records in view; `unfold` writes records out
/// as their fields and `pair` is the equations two values make; `walk` runs the
/// statements of a body and `run` those of a section; and `landed` is what is
/// said of where the names of a body landed. What the bodies inlined on the way
/// check, `expand` and `unfold` hand back beside the value, in the order it was
/// set aside.
pub struct Engine<P: Parts> {
    pub filed: P::Filed,
    pub built: P::Measured,
    pub filled: P::Filled,
    pub settle: P::Settle,
    pub expand: P::Expand,
    pub unfold: P::Unfold,
    pub pair: P::Pair,
    pub walk: P::WalkBody,
    pub run: P::Run,
    pub landed: P::Landed,
    /// What they answer, mathematically.
    pub model: Ghost<EngineV>,
}

/// The same, mathematically.
pub ghost struct EngineV {
    pub filed: spec_fn(ExprV, usize, Seq<(Seq<char>, ExprV)>) -> Option<i64>,
    pub built: spec_fn(ExprV, Worths, Lengths, Seq<char>, Pairs, FootingV) -> Option<Seq<i64>>,
    pub filled: spec_fn(ClassDef, Seq<char>) -> Option<ExprV>,
    pub settle: spec_fn(ClassDef, ExprV, Map<Seq<char>, ExprV>, Worths, Lengths, usize, FootingV) -> Option<Number>,
    pub expand: spec_fn(ExprV, Worths, Worths, Lengths, Seq<char>, Pairs, Map<Seq<char>, Seq<char>>, usize, FootingV) -> Result<(ValueV, Checks), Seq<char>>,
    pub unfold: spec_fn(ValueV, Worths, Worths, Map<Seq<char>, Seq<char>>, HereV, FootingV) -> Result<(ValueV, Checks), Seq<char>>,
    pub pair: spec_fn(ValueV, ValueV, Seq<char>) -> Result<Seq<EquationV>, Seq<char>>,
    pub walk: spec_fn(ClassDef, Seq<Statement>, Map<Seq<char>, ExprV>, Worths, Lengths, usize, FootingV) -> Result<WalkedV, Seq<char>>,
    pub run: spec_fn(Seq<Statement>, HereV, Lengths, FootingV) -> Result<RanV, Seq<char>>,
    pub landed: spec_fn(ClassDef) -> Seq<char>,
}

/// Whether each of them may be asked anything, and answers as `m` says.
pub open spec fn engine_true_to<P: Parts>(
    filed: P::Filed,
    built: P::Measured,
    filled: P::Filled,
    settle: P::Settle,
    expand: P::Expand,
    unfold: P::Unfold,
    pair: P::Pair,
    walk: P::WalkBody,
    run: P::Run,
    landed: P::Landed,
    m: EngineV,
) -> bool {
    &&& forall|
        e: &Expr,
        axis: usize,
        handed: &Vec<(String, Expr)>,
    | #[trigger] call_requires(filed, (e, axis, handed))
    &&& forall|e: &Expr, axis: usize, handed: &Vec<(String, Expr)>, r: Option<i64>| #[trigger]
        call_ensures(
            filed,
            (e, axis, handed),
            r,
        ) ==> r == (m.filed)(e.deep_view(), axis, handed.deep_view())
    &&& forall|
        e: &Expr,
        consts: &Table<Number>,
        sizes: &Table<Vec<i64>>,
        scope: &str,
        imports: &Vec<(String, String)>,
        on: &Footing,
    | #[trigger] call_requires(built, (e, consts, sizes, scope, imports, on))
    &&& forall|
        e: &Expr,
        consts: &Table<Number>,
        sizes: &Table<Vec<i64>>,
        scope: &str,
        imports: &Vec<(String, String)>,
        on: &Footing,
        r: Option<Vec<i64>>,
    | #[trigger]
        call_ensures(
            built,
            (e, consts, sizes, scope, imports, on),
            r,
        ) ==> r.deep_view() == (m.built)(e.deep_view(), consts.deep_view(), sizes.deep_view(), scope@, imports.deep_view(), on.deep_view())
    &&& forall|class: &ClassDef, name: &str| #[trigger] call_requires(filled, (class, name))
    &&& forall|class: &ClassDef, name: &str, r: Option<Expr>| #[trigger]
        call_ensures(filled, (class, name), r) ==> r.deep_view() == (m.filled)(*class, name@)
    &&& forall|
        class: &ClassDef,
        e: &Expr,
        bindings: &Table<Expr>,
        numbers: &Table<Number>,
        sizes: &Table<Vec<i64>>,
        depth: usize,
        on: &Footing,
    | #[trigger] call_requires(settle, (class, e, bindings, numbers, sizes, depth, on))
    &&& forall|
        class: &ClassDef,
        e: &Expr,
        bindings: &Table<Expr>,
        numbers: &Table<Number>,
        sizes: &Table<Vec<i64>>,
        depth: usize,
        on: &Footing,
        r: Option<Number>,
    | #[trigger]
        call_ensures(
            settle,
            (class, e, bindings, numbers, sizes, depth, on),
            r,
        ) ==> r == (m.settle)(*class, e.deep_view(), bindings.deep_view(), numbers.deep_view(), sizes.deep_view(), depth, on.deep_view())
    &&& forall|
        e: &Expr,
        vars: &Table<Number>,
        consts: &Table<Number>,
        sizes: &Table<Vec<i64>>,
        scope: &str,
        imports: &Vec<(String, String)>,
        records: &Table<String>,
        depth: usize,
        on: &Footing,
    | #[trigger] call_requires(expand, (e, vars, consts, sizes, scope, imports, records, depth, on))
    &&& forall|
        e: &Expr,
        vars: &Table<Number>,
        consts: &Table<Number>,
        sizes: &Table<Vec<i64>>,
        scope: &str,
        imports: &Vec<(String, String)>,
        records: &Table<String>,
        depth: usize,
        on: &Footing,
        r: Result<(Value, Vec<(Expr, String)>), String>,
    | #[trigger]
        call_ensures(
            expand,
            (e, vars, consts, sizes, scope, imports, records, depth, on),
            r,
        ) ==> told(r) == (m.expand)(e.deep_view(), vars.deep_view(), consts.deep_view(), sizes.deep_view(), scope@, imports.deep_view(), records.deep_view(), depth, on.deep_view())
    &&& forall|
        value: Value,
        vars: &Table<Number>,
        consts: &Table<Number>,
        records: &Table<String>,
        here: &Here,
        on: &Footing,
    | #[trigger] call_requires(unfold, (value, vars, consts, records, here, on))
    &&& forall|
        value: Value,
        vars: &Table<Number>,
        consts: &Table<Number>,
        records: &Table<String>,
        here: &Here,
        on: &Footing,
        r: Result<(Value, Vec<(Expr, String)>), String>,
    | #[trigger]
        call_ensures(
            unfold,
            (value, vars, consts, records, here, on),
            r,
        ) ==> told(r) == (m.unfold)(value.deep_view(), vars.deep_view(), consts.deep_view(), records.deep_view(), here.deep_view(), on.deep_view())
    &&& forall|
        lhs: &Value,
        rhs: &Value,
        origin: &str,
    | #[trigger] call_requires(pair, (lhs, rhs, origin))
    &&& forall|
        lhs: &Value,
        rhs: &Value,
        origin: &str,
        r: Result<Vec<EquationItem>, String>,
    | #[trigger]
        call_ensures(
            pair,
            (lhs, rhs, origin),
            r,
        ) ==> told(r) == (m.pair)(lhs.deep_view(), rhs.deep_view(), origin@)
    &&& forall|
        class: &ClassDef,
        list: &Vec<Statement>,
        bindings: Table<Expr>,
        consts: &Table<Number>,
        sizes: &Table<Vec<i64>>,
        depth: usize,
        on: &Footing,
    | #[trigger] call_requires(walk, (class, list, bindings, consts, sizes, depth, on))
    &&& forall|
        class: &ClassDef,
        list: &Vec<Statement>,
        bindings: Table<Expr>,
        consts: &Table<Number>,
        sizes: &Table<Vec<i64>>,
        depth: usize,
        on: &Footing,
        r: Result<Walked, String>,
    | #[trigger]
        call_ensures(
            walk,
            (class, list, bindings, consts, sizes, depth, on),
            r,
        ) ==> told(r) == (m.walk)(*class, list@, bindings.deep_view(), consts.deep_view(), sizes.deep_view(), depth, on.deep_view())
    &&& forall|
        list: &Vec<&Statement>,
        here: &Here,
        sizes: &Table<Vec<i64>>,
        on: &Footing,
    | #[trigger] call_requires(run, (list, here, sizes, on))
    &&& forall|
        list: &Vec<&Statement>,
        here: &Here,
        sizes: &Table<Vec<i64>>,
        on: &Footing,
        r: Result<Ran, String>,
    | #[trigger]
        call_ensures(
            run,
            (list, here, sizes, on),
            r,
        ) ==> told(r) == (m.run)(listed(list@), here.deep_view(), sizes.deep_view(), on.deep_view())
    &&& forall|class: &ClassDef| #[trigger] call_requires(landed, (class,))
    &&& forall|class: &ClassDef, r: String| #[trigger]
        call_ensures(landed, (class,), r) ==> r@ == (m.landed)(*class)
}

/// Whether each of them may be asked anything, and answers as its model says.
pub open spec fn engine_true<P: Parts>(s: Engine<P>) -> bool {
    engine_true_to::<P>(
        s.filed,
        s.built,
        s.filled,
        s.settle,
        s.expand,
        s.unfold,
        s.pair,
        s.walk,
        s.run,
        s.landed,
        s.model@,
    )
}

impl<P: Parts> Engine<P> {
    /// The bundle of such functions, where there is anything they answer at all.
    pub fn new(
        filed: P::Filed,
        built: P::Measured,
        filled: P::Filled,
        settle: P::Settle,
        expand: P::Expand,
        unfold: P::Unfold,
        pair: P::Pair,
        walk: P::WalkBody,
        run: P::Run,
        landed: P::Landed,
    ) -> (r: Self)
        requires
            exists|m: EngineV| #[trigger] engine_true_to::<P>(
                filed,
                built,
                filled,
                settle,
                expand,
                unfold,
                pair,
                walk,
                run,
                landed,
                m,
            ),
        ensures
            engine_true(r),
            r.filed == filed,
            r.built == built,
            r.filled == filled,
            r.settle == settle,
            r.expand == expand,
            r.unfold == unfold,
            r.pair == pair,
            r.walk == walk,
            r.run == run,
            r.landed == landed,
    {
        Engine {
            filed,
            built,
            filled,
            settle,
            expand,
            unfold,
            pair,
            walk,
            run,
            landed,
            model: Ghost(choose|m: EngineV| #[trigger] engine_true_to::<P>(filed, built, filled, settle, expand, unfold, pair, walk, run, landed, m)),
        }
    }

    pub fn do_filed(&self, e: &Expr, axis: usize, handed: &Vec<(String, Expr)>) -> (r: Option<i64>)
        requires
            engine_true(*self),
        ensures
            r == (self.model@.filed)(e.deep_view(), axis, handed.deep_view()),
    {
        let f = &self.filed;
        f(e, axis, handed)
    }

    pub fn do_built(
        &self,
        e: &Expr,
        consts: &Table<Number>,
        sizes: &Table<Vec<i64>>,
        scope: &str,
        imports: &Vec<(String, String)>,
        on: &Footing,
    ) -> (r: Option<Vec<i64>>)
        requires
            engine_true(*self),
        ensures
            r.deep_view() == (self.model@.built)(e.deep_view(), consts.deep_view(), sizes.deep_view(), scope@, imports.deep_view(), on.deep_view()),
    {
        let f = &self.built;
        f(e, consts, sizes, scope, imports, on)
    }

    pub fn do_filled(&self, class: &ClassDef, name: &str) -> (r: Option<Expr>)
        requires
            engine_true(*self),
        ensures
            r.deep_view() == (self.model@.filled)(*class, name@),
    {
        let f = &self.filled;
        f(class, name)
    }

    pub fn do_settle(
        &self,
        class: &ClassDef,
        e: &Expr,
        bindings: &Table<Expr>,
        numbers: &Table<Number>,
        sizes: &Table<Vec<i64>>,
        depth: usize,
        on: &Footing,
    ) -> (r: Option<Number>)
        requires
            engine_true(*self),
        ensures
            r == (self.model@.settle)(*class, e.deep_view(), bindings.deep_view(), numbers.deep_view(), sizes.deep_view(), depth, on.deep_view()),
    {
        let f = &self.settle;
        f(class, e, bindings, numbers, sizes, depth, on)
    }

    pub fn do_expand(
        &self,
        e: &Expr,
        vars: &Table<Number>,
        consts: &Table<Number>,
        sizes: &Table<Vec<i64>>,
        scope: &str,
        imports: &Vec<(String, String)>,
        records: &Table<String>,
        depth: usize,
        on: &Footing,
    ) -> (r: Result<(Value, Vec<(Expr, String)>), String>)
        requires
            engine_true(*self),
        ensures
            told(
                r,
            ) == (self.model@.expand)(e.deep_view(), vars.deep_view(), consts.deep_view(), sizes.deep_view(), scope@, imports.deep_view(), records.deep_view(), depth, on.deep_view()),
    {
        let f = &self.expand;
        f(e, vars, consts, sizes, scope, imports, records, depth, on)
    }

    pub fn do_unfold(
        &self,
        value: Value,
        vars: &Table<Number>,
        consts: &Table<Number>,
        records: &Table<String>,
        here: &Here,
        on: &Footing,
    ) -> (r: Result<(Value, Vec<(Expr, String)>), String>)
        requires
            engine_true(*self),
        ensures
            told(
                r,
            ) == (self.model@.unfold)(value.deep_view(), vars.deep_view(), consts.deep_view(), records.deep_view(), here.deep_view(), on.deep_view()),
    {
        let f = &self.unfold;
        f(value, vars, consts, records, here, on)
    }

    pub fn do_pair(
        &self,
        lhs: &Value,
        rhs: &Value,
        origin: &str,
    ) -> (r: Result<Vec<EquationItem>, String>)
        requires
            engine_true(*self),
        ensures
            told(r) == (self.model@.pair)(lhs.deep_view(), rhs.deep_view(), origin@),
    {
        let f = &self.pair;
        f(lhs, rhs, origin)
    }

    pub fn do_walk(
        &self,
        class: &ClassDef,
        list: &Vec<Statement>,
        bindings: Table<Expr>,
        consts: &Table<Number>,
        sizes: &Table<Vec<i64>>,
        depth: usize,
        on: &Footing,
    ) -> (r: Result<Walked, String>)
        requires
            engine_true(*self),
        ensures
            told(
                r,
            ) == (self.model@.walk)(*class, list@, bindings.deep_view(), consts.deep_view(), sizes.deep_view(), depth, on.deep_view()),
    {
        let f = &self.walk;
        f(class, list, bindings, consts, sizes, depth, on)
    }

    pub fn do_run(
        &self,
        list: &Vec<&Statement>,
        here: &Here,
        sizes: &Table<Vec<i64>>,
        on: &Footing,
    ) -> (r: Result<Ran, String>)
        requires
            engine_true(*self),
        ensures
            told(
                r,
            ) == (self.model@.run)(listed(list@), here.deep_view(), sizes.deep_view(), on.deep_view()),
    {
        let f = &self.run;
        f(list, here, sizes, on)
    }

    pub fn do_landed(&self, class: &ClassDef) -> (r: String)
        requires
            engine_true(*self),
        ensures
            r@ == (self.model@.landed)(*class),
    {
        let f = &self.landed;
        f(class)
    }
}

/// What makes components of declarations.
///
/// `text` is the text an expression comes to and `fold` what is written on
/// texts; `kept` objects to a class that is kept back and named from outside;
/// and `build` instantiates the components of a class.
pub struct Works<P: Parts> {
    pub text: P::Text,
    pub fold: P::Fold,
    pub kept: P::Kept,
    pub build: P::Build,
    /// What they answer, mathematically.
    pub model: Ghost<WorksV>,
}

/// The same, mathematically.
pub ghost struct WorksV {
    pub text: spec_fn(ExprV, Map<Seq<char>, Seq<char>>) -> Option<Seq<char>>,
    pub fold: spec_fn(ExprV, Map<Seq<char>, Seq<char>>, Worths) -> Result<ExprV, Seq<char>>,
    pub kept: spec_fn(ClassDef, Pairs) -> Option<Seq<char>>,
    pub build: spec_fn(ClassDef, EnvV, FloorV, CourseV, BuiltV) -> Result<(CourseV, BuiltV), Seq<char>>,
}

/// Whether each of them may be asked anything, and answers as `m` says.
pub open spec fn works_true_to<P: Parts>(
    text: P::Text,
    fold: P::Fold,
    kept: P::Kept,
    build: P::Build,
    m: WorksV,
) -> bool {
    &&& forall|e: &Expr, known: &Table<String>| #[trigger] call_requires(text, (e, known))
    &&& forall|e: &Expr, known: &Table<String>, r: Option<String>| #[trigger]
        call_ensures(
            text,
            (e, known),
            r,
        ) ==> r.deep_view() == (m.text)(e.deep_view(), known.deep_view())
    &&& forall|
        e: &Expr,
        known: &Table<String>,
        consts: &Table<Number>,
    | #[trigger] call_requires(fold, (e, known, consts))
    &&& forall|
        e: &Expr,
        known: &Table<String>,
        consts: &Table<Number>,
        r: Result<Expr, String>,
    | #[trigger]
        call_ensures(
            fold,
            (e, known, consts),
            r,
        ) ==> told(r) == (m.fold)(e.deep_view(), known.deep_view(), consts.deep_view())
    &&& forall|
        class: &ClassDef,
        imports: &Vec<(String, String)>,
    | #[trigger] call_requires(kept, (class, imports))
    &&& forall|class: &ClassDef, imports: &Vec<(String, String)>, r: Option<String>| #[trigger]
        call_ensures(
            kept,
            (class, imports),
            r,
        ) ==> r.deep_view() == (m.kept)(*class, imports.deep_view())
    &&& forall|
        class: &ClassDef,
        env: &Env,
        floor: &Floor,
        course: Course,
        made: Built,
    | #[trigger] call_requires(build, (class, env, floor, course, made))
    &&& forall|
        class: &ClassDef,
        env: &Env,
        floor: &Floor,
        course: Course,
        made: Built,
        r: Result<(Course, Built), String>,
    | #[trigger]
        call_ensures(
            build,
            (class, env, floor, course, made),
            r,
        ) ==> told(r) == (m.build)(*class, env.deep_view(), floor.deep_view(), course.deep_view(), made.deep_view())
}

/// Whether each of them may be asked anything, and answers as its model says.
pub open spec fn works_true<P: Parts>(s: Works<P>) -> bool {
    works_true_to::<P>(s.text, s.fold, s.kept, s.build, s.model@)
}

impl<P: Parts> Works<P> {
    /// The bundle of such functions, where there is anything they answer at all.
    pub fn new(
        text: P::Text,
        fold: P::Fold,
        kept: P::Kept,
        build: P::Build,
    ) -> (r: Self)
        requires
            exists|m: WorksV| #[trigger] works_true_to::<P>(text, fold, kept, build, m),
        ensures
            works_true(r),
            r.text == text,
            r.fold == fold,
            r.kept == kept,
            r.build == build,
    {
        Works {
            text,
            fold,
            kept,
            build,
            model: Ghost(choose|m: WorksV| #[trigger] works_true_to::<P>(text, fold, kept, build, m)),
        }
    }

    pub fn do_text(&self, e: &Expr, known: &Table<String>) -> (r: Option<String>)
        requires
            works_true(*self),
        ensures
            r.deep_view() == (self.model@.text)(e.deep_view(), known.deep_view()),
    {
        let f = &self.text;
        f(e, known)
    }

    pub fn do_fold(
        &self,
        e: &Expr,
        known: &Table<String>,
        consts: &Table<Number>,
    ) -> (r: Result<Expr, String>)
        requires
            works_true(*self),
        ensures
            told(r) == (self.model@.fold)(e.deep_view(), known.deep_view(), consts.deep_view()),
    {
        let f = &self.fold;
        f(e, known, consts)
    }

    pub fn do_kept(&self, class: &ClassDef, imports: &Vec<(String, String)>) -> (r: Option<String>)
        requires
            works_true(*self),
        ensures
            r.deep_view() == (self.model@.kept)(*class, imports.deep_view()),
    {
        let f = &self.kept;
        f(class, imports)
    }

    pub fn do_build(
        &self,
        class: &ClassDef,
        env: &Env,
        floor: &Floor,
        course: Course,
        made: Built,
    ) -> (r: Result<(Course, Built), String>)
        requires
            works_true(*self),
        ensures
            told(
                r,
            ) == (self.model@.build)(*class, env.deep_view(), floor.deep_view(), course.deep_view(), made.deep_view()),
    {
        let f = &self.build;
        f(class, env, floor, course, made)
    }
}

/// What a model goes through once it is whole: `verify` checks it, `strings`
/// settles what is a string and says what each came to, `tables` writes out the
/// tables behind handles, `inputs` checks that every input is given a value, and
/// `copies` is the bodies that were written out for it.
pub struct Finish<P: Parts> {
    pub verify: P::Verify,
    pub strings: P::Strings,
    pub tables: P::Tables,
    pub inputs: P::Inputs,
    pub copies: P::Copies,
    /// What they answer, mathematically.
    pub model: Ghost<FinishV>,
}

/// The same, mathematically.
pub ghost struct FinishV {
    pub verify: spec_fn(ModelV) -> Option<Seq<char>>,
    pub strings: spec_fn(ModelV) -> Result<(ModelV, Map<Seq<char>, Seq<char>>), Seq<char>>,
    pub tables: spec_fn(ModelV, Map<Seq<char>, ExprV>, Map<Seq<char>, Seq<char>>) -> Result<ModelV, Seq<char>>,
    pub inputs: spec_fn(Pairs, ModelV) -> Option<Seq<char>>,
    pub copies: spec_fn(ModelV) -> Seq<ClassDef>,
}

/// Whether each of them may be asked anything, and answers as `m` says.
pub open spec fn finish_true_to<P: Parts>(
    verify: P::Verify,
    strings: P::Strings,
    tables: P::Tables,
    inputs: P::Inputs,
    copies: P::Copies,
    m: FinishV,
) -> bool {
    &&& forall|model: &Model| #[trigger] call_requires(verify, (model,))
    &&& forall|model: &Model, r: Result<(), String>| #[trigger]
        call_ensures(verify, (model,), r) ==> objection(r) == (m.verify)(model.deep_view())
    &&& forall|model: Model| #[trigger] call_requires(strings, (model,))
    &&& forall|model: Model, r: Result<(Model, Table<String>), String>| #[trigger]
        call_ensures(strings, (model,), r) ==> told(r) == (m.strings)(model.deep_view())
    &&& forall|
        model: Model,
        handles: &Table<Expr>,
        settled: &Table<String>,
    | #[trigger] call_requires(tables, (model, handles, settled))
    &&& forall|
        model: Model,
        handles: &Table<Expr>,
        settled: &Table<String>,
        r: Result<Model, String>,
    | #[trigger]
        call_ensures(
            tables,
            (model, handles, settled),
            r,
        ) ==> told(r) == (m.tables)(model.deep_view(), handles.deep_view(), settled.deep_view())
    &&& forall|
        unsupplied: &Vec<(String, String)>,
        model: &Model,
    | #[trigger] call_requires(inputs, (unsupplied, model))
    &&& forall|unsupplied: &Vec<(String, String)>, model: &Model, r: Result<(), String>| #[trigger]
        call_ensures(
            inputs,
            (unsupplied, model),
            r,
        ) ==> objection(r) == (m.inputs)(unsupplied.deep_view(), model.deep_view())
    &&& forall|model: &Model| #[trigger] call_requires(copies, (model,))
    &&& forall|model: &Model, r: Vec<ClassDef>| #[trigger]
        call_ensures(copies, (model,), r) ==> r@ == (m.copies)(model.deep_view())
}

/// Whether each of them may be asked anything, and answers as its model says.
pub open spec fn finish_true<P: Parts>(s: Finish<P>) -> bool {
    finish_true_to::<P>(s.verify, s.strings, s.tables, s.inputs, s.copies, s.model@)
}

impl<P: Parts> Finish<P> {
    /// The bundle of such functions, where there is anything they answer at all.
    pub fn new(
        verify: P::Verify,
        strings: P::Strings,
        tables: P::Tables,
        inputs: P::Inputs,
        copies: P::Copies,
    ) -> (r: Self)
        requires
            exists|m: FinishV| #[trigger] finish_true_to::<P>(
                verify,
                strings,
                tables,
                inputs,
                copies,
                m,
            ),
        ensures
            finish_true(r),
            r.verify == verify,
            r.strings == strings,
            r.tables == tables,
            r.inputs == inputs,
            r.copies == copies,
    {
        Finish {
            verify,
            strings,
            tables,
            inputs,
            copies,
            model: Ghost(choose|m: FinishV| #[trigger] finish_true_to::<P>(verify, strings, tables, inputs, copies, m)),
        }
    }

    pub fn do_verify(&self, model: &Model) -> (r: Result<(), String>)
        requires
            finish_true(*self),
        ensures
            objection(r) == (self.model@.verify)(model.deep_view()),
    {
        let f = &self.verify;
        f(model)
    }

    pub fn do_strings(&self, model: Model) -> (r: Result<(Model, Table<String>), String>)
        requires
            finish_true(*self),
        ensures
            told(r) == (self.model@.strings)(model.deep_view()),
    {
        let f = &self.strings;
        f(model)
    }

    pub fn do_tables(
        &self,
        model: Model,
        handles: &Table<Expr>,
        settled: &Table<String>,
    ) -> (r: Result<Model, String>)
        requires
            finish_true(*self),
        ensures
            told(
                r,
            ) == (self.model@.tables)(model.deep_view(), handles.deep_view(), settled.deep_view()),
    {
        let f = &self.tables;
        f(model, handles, settled)
    }

    pub fn do_inputs(
        &self,
        unsupplied: &Vec<(String, String)>,
        model: &Model,
    ) -> (r: Result<(), String>)
        requires
            finish_true(*self),
        ensures
            objection(r) == (self.model@.inputs)(unsupplied.deep_view(), model.deep_view()),
    {
        let f = &self.inputs;
        f(unsupplied, model)
    }

    pub fn do_copies(&self, model: &Model) -> (r: Vec<ClassDef>)
        requires
            finish_true(*self),
        ensures
            r@ == (self.model@.copies)(model.deep_view()),
    {
        let f = &self.copies;
        f(model)
    }
}

/// The clockwork of all that is handed in.
pub type Clocks<P> = Clockwork<
    <P as Parts>::Clocks,
    <P as Parts>::ReadClock,
    <P as Parts>::PutName,
    <P as Parts>::ByName,
    <P as Parts>::Touched,
    <P as Parts>::Meet,
    <P as Parts>::Ticks,
    <P as Parts>::Agree,
    <P as Parts>::Clash,
    <P as Parts>::AtTick,
    <P as Parts>::Stride,
    <P as Parts>::Elapsed,
    <P as Parts>::Order,
    <P as Parts>::Arrange,
    <P as Parts>::Unheld,
    <P as Parts>::Assigned,
    <P as Parts>::Within,
    <P as Parts>::FirstTick,
    <P as Parts>::After,
    <P as Parts>::Counter,
    <P as Parts>::Last,
    <P as Parts>::Sole,
>;

/// The arithmetic of all that is handed in.
pub type Adding<P> = Sums<<P as Parts>::Work, <P as Parts>::Answer, <P as Parts>::Plain>;

/// Everything that is handed in.
///
/// `fresh` makes the table with no clock in it. `most` is how deep a body may
/// be inlined into a body and `no_bottom` what is said of one that will not come
/// to an end; `standing` lists the calls left for the run, each with the scope
/// it stands in; `minted` names the constants that are names of the flat model
/// already, and `twice` says whether what a redeclaration filled in takes the
/// prefix a second time.
pub struct Outside<P: Parts> {
    pub sums: Adding<P>,
    pub language: Language<P>,
    pub engine: Engine<P>,
    pub works: Works<P>,
    pub finish: Finish<P>,
    pub clocks: Clocks<P>,
    pub fresh: P::Fresh,
    pub most: usize,
    pub no_bottom: String,
    pub standing: Vec<(String, String)>,
    pub minted: Vec<String>,
    pub twice: bool,
    /// The table with no clock in it, mathematically.
    pub empty: Ghost<P::Clocks>,
}

/// The same, mathematically.
#[verifier::reject_recursive_types(C)]
pub ghost struct OutsideV<C> {
    pub sums: SumsV,
    pub language: LanguageV,
    pub engine: EngineV,
    pub works: WorksV,
    pub finish: FinishV,
    pub clocks: ClockworkV<C>,
    pub empty: C,
    pub most: nat,
    pub no_bottom: Seq<char>,
    pub standing: Pairs,
    pub minted: Seq<Seq<char>>,
    pub twice: bool,
}

/// Whether `fresh` always makes that table.
pub open spec fn makes_empty<P: Parts>(fresh: P::Fresh, empty: P::Clocks) -> bool {
    &&& call_requires(fresh, ())
    &&& forall|r: P::Clocks| #[trigger] call_ensures(fresh, (), r) ==> r == empty
}

/// Whether everything handed in may be asked anything, and answers as its
/// model says.
pub open spec fn outside_true<P: Parts>(o: Outside<P>) -> bool {
    &&& is_steady(o.sums)
    &&& language_true(o.language)
    &&& engine_true(o.engine)
    &&& works_true(o.works)
    &&& finish_true(o.finish)
    &&& runs_true(o.clocks)
    &&& makes_empty::<P>(o.fresh, o.empty@)
    &&& o.most < usize::MAX
}

/// What it answers, mathematically.
pub open spec fn outside_of<P: Parts>(o: Outside<P>) -> OutsideV<P::Clocks> {
    OutsideV {
        sums: o.sums.model@,
        language: o.language.model@,
        engine: o.engine.model@,
        works: o.works.model@,
        finish: o.finish.model@,
        clocks: o.clocks.model@,
        empty: o.empty@,
        most: o.most as nat,
        no_bottom: o.no_bottom@,
        standing: o.standing.deep_view(),
        minted: crate::text::texts(o.minted@),
        twice: o.twice,
    }
}

impl<P: Parts> Outside<P> {
    /// Everything that is handed in, with no call left standing and no constant
    /// named in the flat model yet.
    pub fn new(
        sums: Adding<P>,
        language: Language<P>,
        engine: Engine<P>,
        works: Works<P>,
        finish: Finish<P>,
        clocks: Clocks<P>,
        fresh: P::Fresh,
        most: usize,
        no_bottom: String,
    ) -> (r: Self)
        requires
            is_steady(sums),
            language_true(language),
            engine_true(engine),
            works_true(works),
            finish_true(finish),
            runs_true(clocks),
            exists|empty: P::Clocks| #[trigger] makes_empty::<P>(fresh, empty),
            most < usize::MAX,
        ensures
            outside_true(r),
            r.sums == sums,
            r.language == language,
            r.engine == engine,
            r.works == works,
            r.finish == finish,
            r.clocks == clocks,
            r.most == most,
            r.no_bottom == no_bottom,
    {
        Outside {
            sums,
            language,
            engine,
            works,
            finish,
            clocks,
            fresh,
            most,
            no_bottom,
            standing: Vec::new(),
            minted: Vec::new(),
            twice: false,
            empty: Ghost(choose|empty: P::Clocks| #[trigger] makes_empty::<P>(fresh, empty)),
        }
    }

    pub fn do_fresh(&self) -> (r: P::Clocks)
        requires
            outside_true(*self),
        ensures
            r == outside_of(*self).empty,
    {
        let f = &self.fresh;
        f()
    }
}

}
