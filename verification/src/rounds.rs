//! Loops and choices among the equations of a class: what a `for` runs over,
//! what an `if` comes to, and what each round gives to the model.
use crate::class::{EquationItem, EquationV, ForBody, ForEquation, IfBranch, IfEquation};
use crate::expr::{expr_view, kids, lemma_kids_smaller, lemma_views, told, Expr, ExprV};
use crate::flat::{
    keeps_checks, nothing_gathered, put_aside, set_aside, Checks, ConditionalEquations,
    ConditionalV, Flat, FlatV,
};
use crate::folding::{const_eval, evaluated, Worths};
use crate::make;
use crate::names::{prefix_expr, prefixed_whole, substitute_refs, substituted};
use crate::number::{from_count, nearest, zero, Number};
use crate::queries::{answer_graph_queries, answered};
use crate::reading::{
    made_of, make_of, one_of, only_one, push_check, push_connects, push_pair, reading_of,
    reads_true, spread_it, spread_out, with_check, with_connect, with_pair, Here, HereV, Ran,
    Reading, ReadingV,
};
use crate::class::{ClassDef, Statement};
use crate::stepping::{mentions, mentions_call};
use crate::sums::{is_steady, sums_of, Arith, Sums, SumsV};
use crate::table::{all_prefixed, entered, overlaid, overlay, prefix_all, Table};
use crate::text::{decimal, digits, join2, join3, join5, join7, same};
use crate::value::{lemma_values, scalars, Value, ValueV};
use vstd::prelude::*;

verus! {

/// Whether a subscript is looked for inside an expression of this kind.
pub open spec fn is_searched(e: ExprV) -> bool {
    match e {
        ExprV::Range(_, _, _) => false,
        ExprV::Comprehension(_, _, _) => false,
        ExprV::NamedArg(_, _) => false,
        ExprV::Tuple(_) => false,
        ExprV::WithDerivative(_, _, _) => false,
        _ => true,
    }
}

/// Where among the subscripts a variable stands, from the `i`-th on.
pub open spec fn subscript_at(subscripts: Seq<ExprV>, variable: Seq<char>, i: nat) -> Option<nat>
    decreases subscripts.len() - i,
{
    if i >= subscripts.len() {
        None
    } else if subscripts[i as int] == ExprV::Ref(variable) {
        Some(i)
    } else {
        subscript_at(subscripts, variable, i + 1)
    }
}

/// How long the array an expression subscripts is along the dimension that
/// the variable stands in.
pub open spec fn extent_of(
    e: ExprV,
    variable: Seq<char>,
    sizes: Map<Seq<char>, Seq<i64>>,
) -> Option<i64> {
    match e {
        ExprV::Index(base, subscripts) => match *base {
            ExprV::Ref(name) => if sizes.contains_key(name) {
                match subscript_at(subscripts, variable, 0) {
                    Some(at) => if at < sizes[name].len() {
                        Some(sizes[name][at as int])
                    } else {
                        None
                    },
                    None => None,
                }
            } else {
                None
            },
            _ => None,
        },
        _ => None,
    }
}

/// How long an array is along the dimension a name is used to subscript it
/// by, looking through a whole expression for the first such use.
pub open spec fn extent_in(
    e: ExprV,
    variable: Seq<char>,
    sizes: Map<Seq<char>, Seq<i64>>,
) -> Option<i64>
    decreases e, kids(e).len() + 1,
{
    match extent_of(e, variable, sizes) {
        Some(length) => Some(length),
        None => if is_searched(e) {
            extent_in_kids(e, variable, sizes, 0)
        } else {
            None
        },
    }
}

/// The same among the children from the `i`-th on.
pub open spec fn extent_in_kids(
    e: ExprV,
    variable: Seq<char>,
    sizes: Map<Seq<char>, Seq<i64>>,
    i: nat,
) -> Option<i64>
    decreases e, kids(e).len() - i,
{
    proof {
        lemma_kids_smaller(e);
    }
    if i >= kids(e).len() {
        None
    } else {
        match extent_in(kids(e)[i as int], variable, sizes) {
            Some(length) => Some(length),
            None => extent_in_kids(e, variable, sizes, i + 1),
        }
    }
}

fn find_extent(e: &Expr, variable: &str, sizes: &Table<Vec<i64>>) -> (r: Option<i64>)
    ensures
        r == extent_of(e.deep_view(), variable@, sizes.deep_view()),
{
    if let Expr::Index(base, subscripts) = e {
        assert((**base).deep_view() == expr_view(**base));
        proof {
            lemma_views(*subscripts);
        }
        if let Expr::Ref(name) = &**base {
            if let Some(shape) = sizes.get(name.as_str()) {
                let ghost all = subscripts.deep_view();
                assert(shape.deep_view() =~= shape@);
                let mut i: usize = 0;
                while i < subscripts.len()
                    invariant
                        i <= subscripts.len(),
                        all == subscripts.deep_view(),
                        subscript_at(all, variable@, 0) == subscript_at(all, variable@, i as nat),
                    ensures
                        subscript_at(all, variable@, 0) == (if i < subscripts.len() {
                            Some(i as nat)
                        } else {
                            None
                        }),
                    decreases subscripts.len() - i,
                {
                    assert(all[i as int] == subscripts@[i as int].deep_view());
                    if let Expr::Ref(used) = &subscripts[i] {
                        if same(used.as_str(), variable) {
                            break;
                        }
                    }
                    i = i + 1;
                }
                if i < subscripts.len() && i < shape.len() {
                    return Some(shape[i]);
                }
            }
        }
    }
    None
}

fn is_looked_into(e: &Expr) -> (r: bool)
    ensures
        r == is_searched(e.deep_view()),
{
    match e {
        Expr::Range(_, _, _) => false,
        Expr::Comprehension(_, _, _) => false,
        Expr::NamedArg(_, _) => false,
        Expr::Tuple(_) => false,
        Expr::WithDerivative(_, _, _) => false,
        _ => true,
    }
}

/// How long an array is along the dimension a name is used to subscript it
/// by, looking through a whole expression for the first such use.
pub fn subscript_extent(e: &Expr, variable: &str, sizes: &Table<Vec<i64>>) -> (r: Option<i64>)
    ensures
        r == extent_in(e.deep_view(), variable@, sizes.deep_view()),
    decreases e.deep_view(),
{
    let ghost shape = e.deep_view();
    let ghost sv = sizes.deep_view();
    if let Some(length) = find_extent(e, variable, sizes) {
        return Some(length);
    }
    if !is_looked_into(e) {
        return None;
    }
    let below = e.children();
    let mut i: usize = 0;
    proof {
        lemma_kids_smaller(shape);
    }
    while i < below.len()
        invariant
            i <= below.len(),
            shape == e.deep_view(),
            sv == sizes.deep_view(),
            below.deep_view() == kids(shape),
            forall|k: int|
                0 <= k < kids(shape).len() ==> (#[trigger] decreases_to!(shape => kids(shape)[k])),
            extent_in(shape, variable@, sv) == extent_in_kids(shape, variable@, sv, i as nat),
        decreases below.len() - i,
    {
        assert(below.deep_view()[i as int] == below@[i as int].deep_view());
        assert(decreases_to!(shape => kids(shape)[i as int]));
        if let Some(length) = subscript_extent(below[i], variable, sizes) {
            return Some(length);
        }
        i = i + 1;
    }
    assert(below.deep_view().len() == below@.len());
    None
}

/// The first of two answers.
pub open spec fn or_else(a: Option<i64>, b: Option<i64>) -> Option<i64> {
    match a {
        Some(length) => Some(length),
        None => b,
    }
}

/// The length the two sides of a line of a loop's body say.
pub open spec fn sides_say(p: HereV, a: ExprV, b: ExprV, variable: Seq<char>) -> Option<i64> {
    or_else(
        extent_in(prefixed_whole(a, p.naming), variable, p.sizes),
        extent_in(prefixed_whole(b, p.naming), variable, p.sizes),
    )
}

fn ask_sides(p: &Here, a: &Expr, b: &Expr, variable: &str) -> (r: Option<i64>)
    ensures
        r == sides_say(p.deep_view(), a.deep_view(), b.deep_view(), variable@),
{
    let named = prefix_expr(a, &p.naming);
    match subscript_extent(&named, variable, &p.sizes) {
        Some(length) => Some(length),
        None => {
            let named = prefix_expr(b, &p.naming);
            subscript_extent(&named, variable, &p.sizes)
        },
    }
}

/// The length that equations say, from the `i`-th on.
pub open spec fn equations_say(
    p: HereV,
    list: Seq<EquationItem>,
    variable: Seq<char>,
    i: nat,
) -> Option<i64>
    decreases list.len() - i,
{
    if i >= list.len() {
        None
    } else {
        or_else(
            sides_say(p, list[i as int].lhs.deep_view(), list[i as int].rhs.deep_view(), variable),
            equations_say(p, list, variable, i + 1),
        )
    }
}

fn ask_equations(p: &Here, list: &Vec<EquationItem>, variable: &str) -> (r: Option<i64>)
    ensures
        r == equations_say(p.deep_view(), list@, variable@, 0),
{
    let ghost pv = p.deep_view();
    let mut i: usize = 0;
    while i < list.len()
        invariant
            i <= list.len(),
            pv == p.deep_view(),
            equations_say(pv, list@, variable@, 0) == equations_say(
                pv,
                list@,
                variable@,
                i as nat,
            ),
        decreases list.len() - i,
    {
        if let Some(length) = ask_sides(p, &list[i].lhs, &list[i].rhs, variable) {
            return Some(length);
        }
        i = i + 1;
    }
    None
}

/// The length that the branches of an `if` say, from the `i`-th on.
pub open spec fn branches_say(
    p: HereV,
    list: Seq<IfBranch>,
    variable: Seq<char>,
    i: nat,
) -> Option<i64>
    decreases list.len() - i,
{
    if i >= list.len() {
        None
    } else {
        or_else(
            equations_say(p, list[i as int].equations@, variable, 0),
            branches_say(p, list, variable, i + 1),
        )
    }
}

fn ask_branches(p: &Here, list: &Vec<IfBranch>, variable: &str) -> (r: Option<i64>)
    ensures
        r == branches_say(p.deep_view(), list@, variable@, 0),
{
    let ghost pv = p.deep_view();
    let mut i: usize = 0;
    while i < list.len()
        invariant
            i <= list.len(),
            pv == p.deep_view(),
            branches_say(pv, list@, variable@, 0) == branches_say(pv, list@, variable@, i as nat),
        decreases list.len() - i,
    {
        if let Some(length) = ask_equations(p, &list[i].equations, variable) {
            return Some(length);
        }
        i = i + 1;
    }
    None
}

/// No loop runs over less than nothing.
pub open spec fn rounds_in(length: i64) -> i64 {
    if length < 0 {
        0
    } else {
        length
    }
}

/// The length that one line of a loop's body says.
pub open spec fn line_says(p: HereV, item: ForBody, variable: Seq<char>) -> Option<i64>
    decreases item, 0int,
{
    match item {
        ForBody::Equation(equation) => sides_say(
            p,
            equation.lhs.deep_view(),
            equation.rhs.deep_view(),
            variable,
        ),
        ForBody::Connect(a, b) => sides_say(p, a.deep_view(), b.deep_view(), variable),
        ForBody::Branch(held) => branches_say(p, held.branches@, variable, 0),
        ForBody::Nested(inner) => match body_says(p, inner.body@, variable, 0) {
            Some(length) => Some(rounds_in(length)),
            None => None,
        },
        ForBody::Assert(condition, _) => extent_in(
            prefixed_whole(condition.deep_view(), p.naming),
            variable,
            p.sizes,
        ),
    }
}

/// The length that a loop's body says, from the `i`-th line on.
pub open spec fn body_says(p: HereV, body: Seq<ForBody>, variable: Seq<char>, i: nat) -> Option<i64>
    decreases body, body.len() - i,
{
    if i >= body.len() {
        None
    } else {
        or_else(
            line_says(p, body[i as int], variable),
            body_says(p, body, variable, i + 1),
        )
    }
}

fn ask_line(p: &Here, item: &ForBody, variable: &str) -> (r: Option<i64>)
    ensures
        r == line_says(p.deep_view(), *item, variable@),
    decreases *item, 0int,
{
    match item {
        ForBody::Equation(equation) => ask_sides(p, &equation.lhs, &equation.rhs, variable),
        ForBody::Connect(a, b) => ask_sides(p, a, b, variable),
        ForBody::Branch(held) => ask_branches(p, &held.branches, variable),
        ForBody::Nested(inner) => match ask_body(p, &inner.body, variable) {
            Some(length) => Some(if length < 0 {
                0
            } else {
                length
            }),
            None => None,
        },
        ForBody::Assert(condition, _) => {
            let named = prefix_expr(condition, &p.naming);
            subscript_extent(&named, variable, &p.sizes)
        },
    }
}

fn ask_body(p: &Here, body: &Vec<ForBody>, variable: &str) -> (r: Option<i64>)
    ensures
        r == body_says(p.deep_view(), body@, variable@, 0),
    decreases body@, 1int,
{
    let ghost pv = p.deep_view();
    let mut i: usize = 0;
    while i < body.len()
        invariant
            i <= body.len(),
            pv == p.deep_view(),
            body_says(pv, body@, variable@, 0) == body_says(pv, body@, variable@, i as nat),
        decreases body.len() - i,
    {
        assert(decreases_to!(body@ => body@[i as int]));
        if let Some(length) = ask_line(p, &body[i], variable) {
            return Some(length);
        }
        i = i + 1;
    }
    None
}

/// The numbers from one up.
pub open spec fn counted_up(length: i64) -> Seq<Number> {
    Seq::new(rounds_in(length) as nat, |i: int| nearest((i + 1) as nat))
}

/// What `for i loop` runs over, which the body has to say.
pub open spec fn implied_by(p: HereV, body: Seq<ForBody>, variable: Seq<char>) -> Result<
    Seq<Number>,
    Seq<char>,
> {
    match body_says(p, body, variable, 0) {
        Some(length) => Ok(counted_up(length)),
        None => Err(
            "`for "@ + variable
                + " loop` leaves the range to the body, and nothing in the body uses `"@ + variable
                + "` to subscript an array of a length the compiler knows"@,
        ),
    }
}

/// What `for i loop` runs over, which the body has to say: the size of the
/// array along the dimension `i` is used to subscript.
pub fn implied_range(p: &Here, body: &Vec<ForBody>, variable: &str) -> (r: Result<
    Vec<Number>,
    String,
>)
    ensures
        match implied_by(p.deep_view(), body@, variable@) {
            Err(trouble) => r matches Err(why) && why@ == trouble,
            Ok(values) => r matches Ok(made) && made@ == values,
        },
{
    match ask_body(p, body, variable) {
        None => Err(
            join5(
                "`for ",
                variable,
                " loop` leaves the range to the body, and nothing in the body uses `",
                variable,
                "` to subscript an array of a length the compiler knows",
            ),
        ),
        Some(length) => {
            let mut out: Vec<Number> = Vec::new();
            let mut i: i64 = 0;
            while i < length
                invariant
                    0 <= i <= rounds_in(length),
                    out@ == counted_up(length).take(i as int),
                decreases length - i,
            {
                let ghost before = out@;
                out.push(from_count((i as u64) + 1));
                assert(out@ =~= counted_up(length).take(i + 1));
                i = i + 1;
            }
            assert(counted_up(length).take(i as int) =~= counted_up(length));
            Ok(out)
        },
    }
}

/// The values a loop takes from the first `n` elements of what its range
/// expanded to.
pub open spec fn values_taken(
    h: ReadingV,
    v: SumsV,
    items: Seq<ValueV>,
    env: Worths,
    variable: Seq<char>,
    n: nat,
) -> Result<Seq<Number>, Seq<char>>
    decreases n,
{
    if n == 0 || n > items.len() {
        Ok(Seq::empty())
    } else {
        match values_taken(h, v, items, env, variable, (n - 1) as nat) {
            Err(why) => Err(why),
            Ok(before) => match one_of(h, items[n - 1]) {
                Err(why) => Err(why),
                Ok(e) => match evaluated(e, env, v) {
                    Some(value) => Ok(before.push(value)),
                    None => Err(
                        "`"@ + variable + "` runs over values the compiler cannot work out: "@
                            + (h.show)(e),
                    ),
                },
            },
        }
    }
}

/// The values a loop variable takes.
pub open spec fn values_of(
    h: ReadingV,
    v: SumsV,
    spread: ValueV,
    env: Worths,
    variable: Seq<char>,
) -> Result<Seq<Number>, Seq<char>> {
    match spread {
        ValueV::Scalar(_) => Err(
            "`"@ + variable
                + "` needs something to run over - a range, a set or an array - and a single value is not one"@,
        ),
        ValueV::Array(items) => values_taken(h, v, items, env, variable, items.len()),
    }
}

proof fn lemma_values_taken_stop(
    h: ReadingV,
    v: SumsV,
    items: Seq<ValueV>,
    env: Worths,
    variable: Seq<char>,
    n: nat,
    all: nat,
)
    requires
        n <= all <= items.len(),
        values_taken(h, v, items, env, variable, n) is Err,
    ensures
        values_taken(h, v, items, env, variable, all) == values_taken(
            h,
            v,
            items,
            env,
            variable,
            n,
        ),
    decreases all,
{
    if n < all {
        lemma_values_taken_stop(h, v, items, env, variable, n, (all - 1) as nat);
    }
}

/// The values a loop variable takes, from whatever the range expanded to. A
/// range, a set and an array all expand to the same thing - the values, in
/// order.
pub fn loop_values<
    A1: Fn(&Expr, bool) -> Expr,
    A2: Fn(&Expr, &Table<Number>, &Table<Number>, &Table<String>) -> Result<(Value, Vec<(Expr, String)>), String>,
    A3: Fn(Value, &Table<Number>, &Table<Number>, &Table<String>) -> Result<(Value, Vec<(Expr, String)>), String>,
    A4: Fn(&Value, &Value, &str) -> Result<Vec<EquationItem>, String>,
    A5: Fn(&Expr) -> String,
    A6: Fn(Option<&Expr>) -> String,
    A7: Fn(&Vec<&Statement>) -> Result<Ran, String>,
    A8: Fn(&ClassDef, &Vec<Expr>, &Vec<Vec<i64>>) -> Result<(Vec<(String, Expr)>, Vec<(Expr, String)>), String>,
    A9: Fn(&ClassDef, &Vec<Expr>, &Vec<Vec<i64>>) -> Result<(Vec<(Expr, String)>, Vec<(Expr, String)>), String>,
    B1: Fn(&str) -> bool,
    B2: Fn(&ClassDef) -> bool,
    W: Fn(Arith, Number, Number) -> Number,
    O: Fn(&str, &Vec<Number>) -> Option<Vec<Number>>,
    N: Fn(&str) -> String,
>(
    h: &Reading<A1, A2, A3, A4, A5, A6, A7, A8, A9, B1, B2>,
    sums: &Sums<W, O, N>,
    spread: Value,
    env: &Table<Number>,
    variable: &str,
) -> (r: Result<Vec<Number>, String>)
    requires
        reads_true(*h),
        is_steady(*sums),
    ensures
        match values_of(
            reading_of(*h),
            sums_of(*sums),
            spread.deep_view(),
            env.deep_view(),
            variable@,
        ) {
            Err(trouble) => r matches Err(why) && why@ == trouble,
            Ok(values) => r matches Ok(made) && made@ == values,
        },
{
    let ghost hv = reading_of(*h);
    let ghost v = sums_of(*sums);
    let ghost ev = env.deep_view();
    let items = match spread {
        Value::Scalar(_) => return Err(
            join3(
                "`",
                variable,
                "` needs something to run over - a range, a set or an array - and a single value is not one",
            ),
        ),
        Value::Array(items) => items,
    };
    proof {
        lemma_values(items);
    }
    let ghost all = items.deep_view();
    assert(spread.deep_view() == ValueV::Array(all));
    let total: usize = items.len();
    let mut left = items;
    let mut out: Vec<Number> = Vec::new();
    let mut i: usize = 0;
    assert(left.deep_view() =~= all.skip(0));
    while left.len() > 0
        invariant
            reads_true(*h),
            is_steady(*sums),
            hv == reading_of(*h),
            v == sums_of(*sums),
            ev == env.deep_view(),
            all == items.deep_view(),
            all.len() == items@.len(),
            total == items@.len(),
            i + left@.len() == total,
            left.deep_view() == all.skip(i as int),
            values_taken(hv, v, all, ev, variable@, i as nat) == Ok::<Seq<Number>, Seq<char>>(
                out@,
            ),
            values_of(hv, v, spread.deep_view(), ev, variable@) == values_taken(
                hv,
                v,
                all,
                ev,
                variable@,
                all.len(),
            ),
        decreases left@.len(),
    {
        let ghost held = left.deep_view();
        let ghost raw = left@;
        let one = left.remove(0);
        assert(one.deep_view() == held[0]);
        assert(left@ =~= raw.drop_first());
        assert(left.deep_view() =~= held.drop_first());
        assert(held.drop_first() =~= all.skip(i + 1));
        assert(held[0] == all[i as int]);
        proof {
            if values_taken(hv, v, all, ev, variable@, (i + 1) as nat) is Err {
                lemma_values_taken_stop(hv, v, all, ev, variable@, (i + 1) as nat, all.len());
            }
        }
        match only_one(h, one) {
            Err(why) => return Err(why),
            Ok(e) => match const_eval(&e, env, sums) {
                Some(value) => {
                    out.push(value);
                },
                None => {
                    let shown = h.do_show(&e);
                    let said = join3(
                        "`",
                        variable,
                        "` runs over values the compiler cannot work out: ",
                    );
                    return Err(join2(said.as_str(), shown.as_str()));
                },
            },
        }
        i = i + 1;
    }
    Ok(out)
}

/// How expressions are read in one round of a loop: what is put in for names,
/// the loop variables and numbers in view, and whether what the class
/// declares stands before the constants of classes.
pub struct Round {
    pub folded: Table<Expr>,
    pub vars: Table<Number>,
    pub consts: Table<Number>,
    pub shadowed: bool,
}

pub ghost struct RoundV {
    pub folded: Map<Seq<char>, ExprV>,
    pub vars: Worths,
    pub consts: Worths,
    pub shadowed: bool,
}

impl DeepView for Round {
    type V = RoundV;

    open spec fn deep_view(&self) -> RoundV {
        RoundV {
            folded: self.folded.deep_view(),
            vars: self.vars.deep_view(),
            consts: self.consts.deep_view(),
            shadowed: self.shadowed,
        }
    }
}

/// An expression with what the round puts in.
pub open spec fn put_in(h: ReadingV, t: RoundV, e: ExprV) -> ExprV {
    (h.put)(substituted(e, t.folded), t.shadowed)
}

/// What an expression stands for in a round.
pub open spec fn read_in(h: ReadingV, p: HereV, t: RoundV, acc: FlatV, e: ExprV) -> Result<
    (ValueV, FlatV),
    Seq<char>,
> {
    made_of(h, acc, prefixed_whole(put_in(h, t, e), p.naming), t.vars, t.consts, p.records)
}

/// The one value an expression comes to in a round.
pub open spec fn one_in(h: ReadingV, p: HereV, t: RoundV, acc: FlatV, e: ExprV) -> Result<
    (ExprV, FlatV),
    Seq<char>,
> {
    match read_in(h, p, t, acc, e) {
        Err(why) => Err(why),
        Ok((value, acc)) => match one_of(h, value) {
            Err(why) => Err(why),
            Ok(e) => Ok((e, acc)),
        },
    }
}

pub fn put_into<
    A1: Fn(&Expr, bool) -> Expr,
    A2: Fn(&Expr, &Table<Number>, &Table<Number>, &Table<String>) -> Result<(Value, Vec<(Expr, String)>), String>,
    A3: Fn(Value, &Table<Number>, &Table<Number>, &Table<String>) -> Result<(Value, Vec<(Expr, String)>), String>,
    A4: Fn(&Value, &Value, &str) -> Result<Vec<EquationItem>, String>,
    A5: Fn(&Expr) -> String,
    A6: Fn(Option<&Expr>) -> String,
    A7: Fn(&Vec<&Statement>) -> Result<Ran, String>,
    A8: Fn(&ClassDef, &Vec<Expr>, &Vec<Vec<i64>>) -> Result<(Vec<(String, Expr)>, Vec<(Expr, String)>), String>,
    A9: Fn(&ClassDef, &Vec<Expr>, &Vec<Vec<i64>>) -> Result<(Vec<(Expr, String)>, Vec<(Expr, String)>), String>,
    B1: Fn(&str) -> bool,
    B2: Fn(&ClassDef) -> bool,
>(h: &Reading<A1, A2, A3, A4, A5, A6, A7, A8, A9, B1, B2>, t: &Round, e: &Expr) -> (r: Expr)
    requires
        reads_true(*h),
    ensures
        r.deep_view() == put_in(reading_of(*h), t.deep_view(), e.deep_view()),
{
    let plain = substitute_refs(e, &t.folded);
    h.do_put(&plain, t.shadowed)
}

pub fn read_side<
    A1: Fn(&Expr, bool) -> Expr,
    A2: Fn(&Expr, &Table<Number>, &Table<Number>, &Table<String>) -> Result<(Value, Vec<(Expr, String)>), String>,
    A3: Fn(Value, &Table<Number>, &Table<Number>, &Table<String>) -> Result<(Value, Vec<(Expr, String)>), String>,
    A4: Fn(&Value, &Value, &str) -> Result<Vec<EquationItem>, String>,
    A5: Fn(&Expr) -> String,
    A6: Fn(Option<&Expr>) -> String,
    A7: Fn(&Vec<&Statement>) -> Result<Ran, String>,
    A8: Fn(&ClassDef, &Vec<Expr>, &Vec<Vec<i64>>) -> Result<(Vec<(String, Expr)>, Vec<(Expr, String)>), String>,
    A9: Fn(&ClassDef, &Vec<Expr>, &Vec<Vec<i64>>) -> Result<(Vec<(Expr, String)>, Vec<(Expr, String)>), String>,
    B1: Fn(&str) -> bool,
    B2: Fn(&ClassDef) -> bool,
>(
    h: &Reading<A1, A2, A3, A4, A5, A6, A7, A8, A9, B1, B2>,
    p: &Here,
    t: &Round,
    acc: Flat,
    e: &Expr,
) -> (r: Result<(Value, Flat), String>)
    requires
        reads_true(*h),
    ensures
        told(r) == read_in(
            reading_of(*h),
            p.deep_view(),
            t.deep_view(),
            acc.deep_view(),
            e.deep_view(),
        ),
{
    let plain = put_into(h, t, e);
    let named = prefix_expr(&plain, &p.naming);
    make_of(h, acc, &named, &t.vars, &t.consts, &p.records)
}

pub fn read_one<
    A1: Fn(&Expr, bool) -> Expr,
    A2: Fn(&Expr, &Table<Number>, &Table<Number>, &Table<String>) -> Result<(Value, Vec<(Expr, String)>), String>,
    A3: Fn(Value, &Table<Number>, &Table<Number>, &Table<String>) -> Result<(Value, Vec<(Expr, String)>), String>,
    A4: Fn(&Value, &Value, &str) -> Result<Vec<EquationItem>, String>,
    A5: Fn(&Expr) -> String,
    A6: Fn(Option<&Expr>) -> String,
    A7: Fn(&Vec<&Statement>) -> Result<Ran, String>,
    A8: Fn(&ClassDef, &Vec<Expr>, &Vec<Vec<i64>>) -> Result<(Vec<(String, Expr)>, Vec<(Expr, String)>), String>,
    A9: Fn(&ClassDef, &Vec<Expr>, &Vec<Vec<i64>>) -> Result<(Vec<(Expr, String)>, Vec<(Expr, String)>), String>,
    B1: Fn(&str) -> bool,
    B2: Fn(&ClassDef) -> bool,
>(
    h: &Reading<A1, A2, A3, A4, A5, A6, A7, A8, A9, B1, B2>,
    p: &Here,
    t: &Round,
    acc: Flat,
    e: &Expr,
) -> (r: Result<(Expr, Flat), String>)
    requires
        reads_true(*h),
    ensures
        told(r) == one_in(
            reading_of(*h),
            p.deep_view(),
            t.deep_view(),
            acc.deep_view(),
            e.deep_view(),
        ),
{
    match read_side(h, p, t, acc, e) {
        Err(why) => Err(why),
        Ok((value, acc)) => match only_one(h, value) {
            Err(why) => Err(why),
            Ok(e) => Ok((e, acc)),
        },
    }
}

/// What a branch may not hold whose condition only the run decides.
pub open spec fn branch_trouble(class: Seq<char>, branch: IfBranch) -> Option<Seq<char>> {
    if branch.connects@.len() > 0 {
        Some(
            "a `connect` in `"@ + class
                + "` sits in an `if` branch whose condition is not known at compile time; connections are structural"@,
        )
    } else if branch.loops@.len() > 0 {
        Some(
            "a `for` equation in `"@ + class
                + "` sits in an `if` branch whose condition is not known at compile time; how many equations a loop makes is settled before the run"@,
        )
    } else if branch.graph@.len() > 0 {
        Some(
            "a `Connections` clause in `"@ + class
                + "` sits in an `if` branch whose condition is not known at compile time; the connection graph is drawn once and for all"@,
        )
    } else if branch.calls@.len() > 0 {
        Some(
            "a call standing on its own in `"@ + class
                + "` sits in an `if` branch whose condition is not known at compile time; what it is written for is what its body checks, and a check has nowhere to go from here"@,
        )
    } else if branch.whens@.len() > 0 {
        Some(
            "a `when` in `"@ + class
                + "` sits in an `if` branch whose condition is not known at compile time; what happens at an event is part of the model rather than a value it works out"@,
        )
    } else {
        None
    }
}

fn check_branch(class: &str, branch: &IfBranch) -> (r: Option<String>)
    ensures
        r.deep_view() == branch_trouble(class@, *branch),
{
    if branch.connects.len() > 0 {
        Some(
            join3(
                "a `connect` in `",
                class,
                "` sits in an `if` branch whose condition is not known at compile time; connections are structural",
            ),
        )
    } else if branch.loops.len() > 0 {
        Some(
            join3(
                "a `for` equation in `",
                class,
                "` sits in an `if` branch whose condition is not known at compile time; how many equations a loop makes is settled before the run",
            ),
        )
    } else if branch.graph.len() > 0 {
        Some(
            join3(
                "a `Connections` clause in `",
                class,
                "` sits in an `if` branch whose condition is not known at compile time; the connection graph is drawn once and for all",
            ),
        )
    } else if branch.calls.len() > 0 {
        Some(
            join3(
                "a call standing on its own in `",
                class,
                "` sits in an `if` branch whose condition is not known at compile time; what it is written for is what its body checks, and a check has nowhere to go from here",
            ),
        )
    } else if branch.whens.len() > 0 {
        Some(
            join3(
                "a `when` in `",
                class,
                "` sits in an `if` branch whose condition is not known at compile time; what happens at an event is part of the model rather than a value it works out",
            ),
        )
    } else {
        None
    }
}

/// One equation for each of two lists of scalars.
pub open spec fn zipped(left: Seq<ExprV>, right: Seq<ExprV>, origin: Seq<char>) -> Seq<EquationV> {
    Seq::new(left.len(), |i: int| EquationV { lhs: left[i], rhs: right[i], origin })
}

/// Put one equation for each of two lists of scalars.
pub fn zip_up(left: &Vec<Expr>, right: &Vec<Expr>, origin: &str, out: &mut Vec<EquationItem>)
    requires
        left@.len() == right@.len(),
    ensures
        final(out).deep_view() == old(out).deep_view() + zipped(
            left.deep_view(),
            right.deep_view(),
            origin@,
        ),
{
    let ghost was = out.deep_view();
    let ghost whole = zipped(left.deep_view(), right.deep_view(), origin@);
    let mut i: usize = 0;
    assert(out.deep_view() =~= was + whole.take(0));
    while i < left.len()
        invariant
            i <= left.len(),
            left@.len() == right@.len(),
            whole == zipped(left.deep_view(), right.deep_view(), origin@),
            out.deep_view() == was + whole.take(i as int),
        decreases left.len() - i,
    {
        let ghost before = out.deep_view();
        let one = EquationItem {
            lhs: left[i].clone(),
            rhs: right[i].clone(),
            origin: origin.to_owned(),
        };
        assert(one.deep_view() == whole[i as int]);
        out.push(one);
        assert(out.deep_view() =~= before.push(whole[i as int]));
        assert(out.deep_view() =~= was + whole.take(i + 1));
        i = i + 1;
    }
    assert(whole.take(i as int) =~= whole);
}

/// The scalar equations of the first `n` of a branch.
pub open spec fn branch_scalars(
    h: ReadingV,
    p: HereV,
    t: RoundV,
    acc: FlatV,
    class: Seq<char>,
    origin: Seq<char>,
    list: Seq<EquationItem>,
    n: nat,
) -> Result<(Seq<EquationV>, FlatV), Seq<char>>
    decreases n,
{
    if n == 0 || n > list.len() {
        Ok((Seq::empty(), acc))
    } else {
        match branch_scalars(h, p, t, acc, class, origin, list, (n - 1) as nat) {
            Err(why) => Err(why),
            Ok((before, acc)) => match read_in(h, p, t, acc, list[n - 1].lhs.deep_view()) {
                Err(why) => Err(why),
                Ok((lhs, acc)) => match read_in(h, p, t, acc, list[n - 1].rhs.deep_view()) {
                    Err(why) => Err(why),
                    Ok((rhs, acc)) => if scalars(lhs).len() != scalars(rhs).len() {
                        Err(
                            "an equation in `"@ + class + "` puts "@ + digits(scalars(lhs).len())
                                + " value(s) against "@ + digits(scalars(rhs).len()),
                        )
                    } else {
                        Ok((before + zipped(scalars(lhs), scalars(rhs), origin), acc))
                    },
                },
            },
        }
    }
}

proof fn lemma_branch_scalars_stop(
    h: ReadingV,
    p: HereV,
    t: RoundV,
    acc: FlatV,
    class: Seq<char>,
    origin: Seq<char>,
    list: Seq<EquationItem>,
    n: nat,
    all: nat,
)
    requires
        n <= all <= list.len(),
        branch_scalars(h, p, t, acc, class, origin, list, n) is Err,
    ensures
        branch_scalars(h, p, t, acc, class, origin, list, all) == branch_scalars(
            h,
            p,
            t,
            acc,
            class,
            origin,
            list,
            n,
        ),
    decreases all,
{
    if n < all {
        lemma_branch_scalars_stop(h, p, t, acc, class, origin, list, n, (all - 1) as nat);
    }
}

fn take_scalars<
    A1: Fn(&Expr, bool) -> Expr,
    A2: Fn(&Expr, &Table<Number>, &Table<Number>, &Table<String>) -> Result<(Value, Vec<(Expr, String)>), String>,
    A3: Fn(Value, &Table<Number>, &Table<Number>, &Table<String>) -> Result<(Value, Vec<(Expr, String)>), String>,
    A4: Fn(&Value, &Value, &str) -> Result<Vec<EquationItem>, String>,
    A5: Fn(&Expr) -> String,
    A6: Fn(Option<&Expr>) -> String,
    A7: Fn(&Vec<&Statement>) -> Result<Ran, String>,
    A8: Fn(&ClassDef, &Vec<Expr>, &Vec<Vec<i64>>) -> Result<(Vec<(String, Expr)>, Vec<(Expr, String)>), String>,
    A9: Fn(&ClassDef, &Vec<Expr>, &Vec<Vec<i64>>) -> Result<(Vec<(Expr, String)>, Vec<(Expr, String)>), String>,
    B1: Fn(&str) -> bool,
    B2: Fn(&ClassDef) -> bool,
>(
    h: &Reading<A1, A2, A3, A4, A5, A6, A7, A8, A9, B1, B2>,
    p: &Here,
    t: &Round,
    acc: Flat,
    class: &str,
    origin: &str,
    list: &Vec<EquationItem>,
) -> (r: Result<(Vec<EquationItem>, Flat), String>)
    requires
        reads_true(*h),
    ensures
        told(r) == branch_scalars(
            reading_of(*h),
            p.deep_view(),
            t.deep_view(),
            acc.deep_view(),
            class@,
            origin@,
            list@,
            list@.len(),
        ),
{
    let ghost hv = reading_of(*h);
    let ghost pv = p.deep_view();
    let ghost tv = t.deep_view();
    let ghost start = acc.deep_view();
    let mut now = acc;
    let mut out: Vec<EquationItem> = Vec::new();
    let mut i: usize = 0;
    assert(out.deep_view() =~= Seq::empty());
    while i < list.len()
        invariant
            i <= list.len(),
            reads_true(*h),
            hv == reading_of(*h),
            pv == p.deep_view(),
            tv == t.deep_view(),
            start == acc.deep_view(),
            branch_scalars(hv, pv, tv, start, class@, origin@, list@, i as nat) == Ok::<
                (Seq<EquationV>, FlatV),
                Seq<char>,
            >((out.deep_view(), now.deep_view())),
        decreases list.len() - i,
    {
        proof {
            if branch_scalars(hv, pv, tv, start, class@, origin@, list@, (i + 1) as nat) is Err {
                lemma_branch_scalars_stop(
                    hv,
                    pv,
                    tv,
                    start,
                    class@,
                    origin@,
                    list@,
                    (i + 1) as nat,
                    list@.len(),
                );
            }
        }
        let (lhs, next) = match read_side(h, p, t, now, &list[i].lhs) {
            Ok(made) => made,
            Err(why) => return Err(why),
        };
        let (rhs, next) = match read_side(h, p, t, next, &list[i].rhs) {
            Ok(made) => made,
            Err(why) => return Err(why),
        };
        now = next;
        let mut left: Vec<Expr> = Vec::new();
        let mut right: Vec<Expr> = Vec::new();
        lhs.flatten_into(&mut left);
        rhs.flatten_into(&mut right);
        assert(left.deep_view() =~= scalars(lhs.deep_view()));
        assert(right.deep_view() =~= scalars(rhs.deep_view()));
        assert(left.deep_view().len() == left@.len());
        assert(right.deep_view().len() == right@.len());
        if left.len() != right.len() {
            let a = decimal(left.len() as u64);
            let b = decimal(right.len() as u64);
            let said = join5(
                "an equation in `",
                class,
                "` puts ",
                a.as_str(),
                " value(s) against ",
            );
            return Err(join2(said.as_str(), b.as_str()));
        }
        zip_up(&left, &right, origin, &mut out);
        i = i + 1;
    }
    Ok((out, now))
}

/// What an `if` without an `else` is told where only the run decides it.
pub open spec fn no_else(class: Seq<char>) -> Seq<char> {
    "an `if` equation in `"@ + class
        + "` has a condition the compiler cannot decide and no `else`, so the model would have a different number of equations depending on it"@
}

/// Only the last branch of an `if` may stand without a condition.
pub open spec fn else_is_last(held: IfEquation) -> bool {
    forall|i: int|
        0 <= i < held.branches@.len() - 1 ==> (#[trigger] held.branches@[i]).condition is Some
}

/// The first `n` branches of an `if` that only the run decides.
pub open spec fn branches_read(
    h: ReadingV,
    p: HereV,
    t: RoundV,
    acc: FlatV,
    class: Seq<char>,
    origin: Seq<char>,
    list: Seq<IfBranch>,
    n: nat,
) -> Result<(ConditionalV, FlatV), Seq<char>>
    decreases n,
{
    if n == 0 || n > list.len() {
        Ok((ConditionalV { conditions: Seq::empty(), branches: Seq::empty() }, acc))
    } else {
        match branches_read(h, p, t, acc, class, origin, list, (n - 1) as nat) {
            Err(why) => Err(why),
            Ok((before, acc)) => match (if n == list.len() {
                match list[n - 1].condition {
                    Some(_) => Err(no_else(class)),
                    None => Ok((before.conditions, acc)),
                }
            } else {
                match list[n - 1].condition {
                    Some(condition) => match one_in(h, p, t, acc, condition.deep_view()) {
                        Err(why) => Err(why),
                        Ok((e, acc)) => Ok((before.conditions.push(e), acc)),
                    },
                    None => Ok((before.conditions, acc)),
                }
            }) {
                Err(why) => Err(why),
                Ok((conditions, acc)) => match branch_trouble(class, list[n - 1]) {
                    Some(why) => Err(why),
                    None => match branch_scalars(
                        h,
                        p,
                        t,
                        acc,
                        class,
                        origin,
                        list[n - 1].equations@,
                        list[n - 1].equations@.len(),
                    ) {
                        Err(why) => Err(why),
                        Ok((made, acc)) => Ok(
                            (
                                ConditionalV { conditions, branches: before.branches.push(made) },
                                acc,
                            ),
                        ),
                    },
                },
            },
        }
    }
}

proof fn lemma_branches_read_stop(
    h: ReadingV,
    p: HereV,
    t: RoundV,
    acc: FlatV,
    class: Seq<char>,
    origin: Seq<char>,
    list: Seq<IfBranch>,
    n: nat,
    all: nat,
)
    requires
        n <= all <= list.len(),
        branches_read(h, p, t, acc, class, origin, list, n) is Err,
    ensures
        branches_read(h, p, t, acc, class, origin, list, all) == branches_read(
            h,
            p,
            t,
            acc,
            class,
            origin,
            list,
            n,
        ),
    decreases all,
{
    if n < all {
        lemma_branches_read_stop(h, p, t, acc, class, origin, list, n, (all - 1) as nat);
    }
}

fn read_branches<
    A1: Fn(&Expr, bool) -> Expr,
    A2: Fn(&Expr, &Table<Number>, &Table<Number>, &Table<String>) -> Result<(Value, Vec<(Expr, String)>), String>,
    A3: Fn(Value, &Table<Number>, &Table<Number>, &Table<String>) -> Result<(Value, Vec<(Expr, String)>), String>,
    A4: Fn(&Value, &Value, &str) -> Result<Vec<EquationItem>, String>,
    A5: Fn(&Expr) -> String,
    A6: Fn(Option<&Expr>) -> String,
    A7: Fn(&Vec<&Statement>) -> Result<Ran, String>,
    A8: Fn(&ClassDef, &Vec<Expr>, &Vec<Vec<i64>>) -> Result<(Vec<(String, Expr)>, Vec<(Expr, String)>), String>,
    A9: Fn(&ClassDef, &Vec<Expr>, &Vec<Vec<i64>>) -> Result<(Vec<(Expr, String)>, Vec<(Expr, String)>), String>,
    B1: Fn(&str) -> bool,
    B2: Fn(&ClassDef) -> bool,
>(
    h: &Reading<A1, A2, A3, A4, A5, A6, A7, A8, A9, B1, B2>,
    p: &Here,
    t: &Round,
    acc: Flat,
    class: &str,
    origin: &str,
    held: &IfEquation,
) -> (r: Result<(ConditionalEquations, Flat), String>)
    requires
        reads_true(*h),
        else_is_last(*held),
    ensures
        told(r) == branches_read(
            reading_of(*h),
            p.deep_view(),
            t.deep_view(),
            acc.deep_view(),
            class@,
            origin@,
            held.branches@,
            held.branches@.len(),
        ),
{
    let ghost hv = reading_of(*h);
    let ghost pv = p.deep_view();
    let ghost tv = t.deep_view();
    let ghost start = acc.deep_view();
    let mut now = acc;
    let list = &held.branches;
    let mut out = ConditionalEquations { conditions: Vec::new(), branches: Vec::new() };
    let mut i: usize = 0;
    assert(out.conditions.deep_view() =~= Seq::empty());
    assert(out.branches.deep_view() =~= Seq::empty());
    while i < list.len()
        invariant
            i <= list.len(),
            reads_true(*h),
            else_is_last(*held),
            *list == held.branches,
            hv == reading_of(*h),
            pv == p.deep_view(),
            tv == t.deep_view(),
            start == acc.deep_view(),
            branches_read(hv, pv, tv, start, class@, origin@, list@, i as nat) == Ok::<
                (ConditionalV, FlatV),
                Seq<char>,
            >((out.deep_view(), now.deep_view())),
        decreases list.len() - i,
    {
        let ghost before = out.deep_view();
        let branch = &list[i];
        proof {
            if branches_read(hv, pv, tv, start, class@, origin@, list@, (i + 1) as nat) is Err {
                lemma_branches_read_stop(
                    hv,
                    pv,
                    tv,
                    start,
                    class@,
                    origin@,
                    list@,
                    (i + 1) as nat,
                    list@.len(),
                );
            }
        }
        match &branch.condition {
            Some(condition) => {
                if i + 1 == list.len() {
                    return Err(
                        join3(
                            "an `if` equation in `",
                            class,
                            "` has a condition the compiler cannot decide and no `else`, so the model would have a different number of equations depending on it",
                        ),
                    );
                }
                match read_one(h, p, t, now, condition) {
                    Err(why) => return Err(why),
                    Ok((e, next)) => {
                        now = next;
                        let ghost ev = e.deep_view();
                        out.conditions.push(e);
                        assert(out.conditions.deep_view() =~= before.conditions.push(ev));
                    },
                }
            },
            None => {
                assert(held.branches@[i as int].condition is None);
                assert(i + 1 == list.len());
            },
        }
        if let Some(why) = check_branch(class, branch) {
            return Err(why);
        }
        match take_scalars(h, p, t, now, class, origin, &branch.equations) {
            Err(why) => return Err(why),
            Ok((made, next)) => {
                now = next;
                let ghost mv = made.deep_view();
                out.branches.push(made);
                assert(out.branches.deep_view() =~= before.branches.push(mv));
            },
        }
        i = i + 1;
    }
    Ok((out, now))
}

/// The first branch from the `i`-th on that does not hold so many equations.
pub open spec fn first_odd(branches: Seq<Seq<EquationV>>, wanted: nat, i: nat) -> Option<nat>
    decreases branches.len() - i,
{
    if i >= branches.len() {
        None
    } else if branches[i as int].len() != wanted {
        Some(i)
    } else {
        first_odd(branches, wanted, i + 1)
    }
}

/// What branches are told that do not hold the same number of equations.
pub open spec fn unbalanced(class: Seq<char>, branches: Seq<Seq<EquationV>>) -> Option<Seq<char>> {
    match first_odd(branches, branches[0].len(), 0) {
        Some(odd) => Some(
            "the branches of an `if` equation in `"@ + class + "` are not balanced: "@ + digits(
                branches[0].len(),
            ) + " equation(s) in the first, "@ + digits(branches[odd as int].len()) + " in branch "@
                + digits(odd + 1),
        ),
        None => None,
    }
}

fn check_balance(class: &str, branches: &Vec<Vec<EquationItem>>) -> (r: Option<String>)
    requires
        branches@.len() > 0,
    ensures
        r.deep_view() == unbalanced(class@, branches.deep_view()),
{
    let ghost all = branches.deep_view();
    assert(all[0] == branches@[0].deep_view());
    assert(all[0].len() == branches@[0]@.len());
    let wanted: usize = branches[0].len();
    let mut i: usize = 0;
    while i < branches.len()
        invariant
            i <= branches.len(),
            all == branches.deep_view(),
            all.len() > 0,
            wanted == all[0].len(),
            first_odd(all, wanted as nat, 0) == first_odd(all, wanted as nat, i as nat),
        decreases branches.len() - i,
    {
        assert(all[i as int] == branches@[i as int].deep_view());
        assert(all[i as int].len() == branches@[i as int]@.len());
        if branches[i].len() != wanted {
            let a = decimal(wanted as u64);
            let b = decimal(branches[i].len() as u64);
            let c = decimal((i as u64) + 1);
            let said = join7(
                "the branches of an `if` equation in `",
                class,
                "` are not balanced: ",
                a.as_str(),
                " equation(s) in the first, ",
                b.as_str(),
                " in branch ",
            );
            return Some(join2(said.as_str(), c.as_str()));
        }
        i = i + 1;
    }
    None
}

/// A guard with one more condition.
pub open spec fn joined_guard(guard: Option<ExprV>, more: ExprV) -> ExprV {
    match guard {
        None => more,
        Some(built) => ExprV::And(Box::new(built), Box::new(more)),
    }
}

/// The denial of the first `n` conditions.
pub open spec fn denied(conditions: Seq<ExprV>, n: nat) -> Option<ExprV>
    decreases n,
{
    if n == 0 || n > conditions.len() {
        None
    } else {
        Some(
            joined_guard(
                denied(conditions, (n - 1) as nat),
                ExprV::Not(Box::new(conditions[n - 1])),
            ),
        )
    }
}

/// What has to hold for a branch to be the one taken: its own condition and
/// the denial of every one before it.
pub open spec fn guard_of(conditions: Seq<ExprV>, position: nat) -> Option<ExprV> {
    let before = denied(
        conditions,
        if position < conditions.len() {
            position
        } else {
            conditions.len()
        },
    );
    if position < conditions.len() {
        Some(joined_guard(before, conditions[position as int]))
    } else {
        before
    }
}

fn join_guard(guard: Option<Expr>, more: Expr) -> (r: Expr)
    ensures
        r.deep_view() == joined_guard(guard.deep_view(), more.deep_view()),
{
    match guard {
        None => more,
        Some(built) => make::and(built, more),
    }
}

fn find_guard(conditions: &Vec<Expr>, position: usize) -> (r: Option<Expr>)
    ensures
        r.deep_view() == guard_of(conditions.deep_view(), position as nat),
{
    let ghost all = conditions.deep_view();
    assert(all.len() == conditions@.len());
    let mut guard: Option<Expr> = None;
    let mut i: usize = 0;
    while i < position && i < conditions.len()
        invariant
            i <= conditions.len(),
            i <= position,
            all == conditions.deep_view(),
            guard.deep_view() == denied(all, i as nat),
        decreases conditions.len() - i,
    {
        assert(all[i as int] == conditions@[i as int].deep_view());
        let more = make::not(conditions[i].clone());
        guard = Some(join_guard(guard, more));
        i = i + 1;
    }
    if position < conditions.len() {
        assert(all[position as int] == conditions@[position as int].deep_view());
        guard = Some(join_guard(guard, conditions[position].clone()));
    }
    guard
}

/// A check that says nothing where its branch is not taken.
pub open spec fn guarded(guard: Option<ExprV>, condition: ExprV) -> ExprV {
    match guard {
        None => condition,
        Some(guard) => ExprV::Or(
            Box::new(ExprV::Not(Box::new(guard))),
            Box::new(condition),
        ),
    }
}

/// What was gathered with the first `n` checks of a branch.
pub open spec fn with_guarded(
    h: ReadingV,
    p: HereV,
    t: RoundV,
    acc: FlatV,
    guard: Option<ExprV>,
    list: Seq<(Expr, String)>,
    n: nat,
) -> Result<FlatV, Seq<char>>
    decreases n,
{
    if n == 0 || n > list.len() {
        Ok(acc)
    } else {
        match with_guarded(h, p, t, acc, guard, list, (n - 1) as nat) {
            Err(why) => Err(why),
            Ok(before) => match one_in(h, p, t, before, list[n - 1].0.deep_view()) {
                Err(why) => Err(why),
                Ok((condition, before)) => Ok(
                    with_check(before, guarded(guard, condition), list[n - 1].1@),
                ),
            },
        }
    }
}

proof fn lemma_with_guarded_stop(
    h: ReadingV,
    p: HereV,
    t: RoundV,
    acc: FlatV,
    guard: Option<ExprV>,
    list: Seq<(Expr, String)>,
    n: nat,
    all: nat,
)
    requires
        n <= all <= list.len(),
        with_guarded(h, p, t, acc, guard, list, n) is Err,
    ensures
        with_guarded(h, p, t, acc, guard, list, all) == with_guarded(
            h,
            p,
            t,
            acc,
            guard,
            list,
            n,
        ),
    decreases all,
{
    if n < all {
        lemma_with_guarded_stop(h, p, t, acc, guard, list, n, (all - 1) as nat);
    }
}

/// Put the checks of a list in, each under a guard.
pub fn push_guarded<
    A1: Fn(&Expr, bool) -> Expr,
    A2: Fn(&Expr, &Table<Number>, &Table<Number>, &Table<String>) -> Result<(Value, Vec<(Expr, String)>), String>,
    A3: Fn(Value, &Table<Number>, &Table<Number>, &Table<String>) -> Result<(Value, Vec<(Expr, String)>), String>,
    A4: Fn(&Value, &Value, &str) -> Result<Vec<EquationItem>, String>,
    A5: Fn(&Expr) -> String,
    A6: Fn(Option<&Expr>) -> String,
    A7: Fn(&Vec<&Statement>) -> Result<Ran, String>,
    A8: Fn(&ClassDef, &Vec<Expr>, &Vec<Vec<i64>>) -> Result<(Vec<(String, Expr)>, Vec<(Expr, String)>), String>,
    A9: Fn(&ClassDef, &Vec<Expr>, &Vec<Vec<i64>>) -> Result<(Vec<(Expr, String)>, Vec<(Expr, String)>), String>,
    B1: Fn(&str) -> bool,
    B2: Fn(&ClassDef) -> bool,
>(
    h: &Reading<A1, A2, A3, A4, A5, A6, A7, A8, A9, B1, B2>,
    p: &Here,
    t: &Round,
    acc: Flat,
    guard: &Option<Expr>,
    list: &Vec<(Expr, String)>,
) -> (r: Result<Flat, String>)
    requires
        reads_true(*h),
    ensures
        told(r) == with_guarded(
            reading_of(*h),
            p.deep_view(),
            t.deep_view(),
            acc.deep_view(),
            guard.deep_view(),
            list@,
            list@.len(),
        ),
{
    let ghost hv = reading_of(*h);
    let ghost pv = p.deep_view();
    let ghost tv = t.deep_view();
    let ghost start = acc.deep_view();
    let ghost gv = guard.deep_view();
    let mut now = acc;
    let mut i: usize = 0;
    while i < list.len()
        invariant
            i <= list.len(),
            reads_true(*h),
            hv == reading_of(*h),
            pv == p.deep_view(),
            tv == t.deep_view(),
            start == acc.deep_view(),
            gv == guard.deep_view(),
            with_guarded(hv, pv, tv, start, gv, list@, i as nat) == Ok::<FlatV, Seq<char>>(
                now.deep_view(),
            ),
        decreases list.len() - i,
    {
        match read_one(h, p, t, now, &list[i].0) {
            Err(why) => {
                proof {
                    lemma_with_guarded_stop(
                        hv,
                        pv,
                        tv,
                        start,
                        gv,
                        list@,
                        (i + 1) as nat,
                        list@.len(),
                    );
                }
                return Err(why);
            },
            Ok((condition, next)) => {
                let held = match guard {
                    None => condition,
                    Some(guard) => make::or(make::not(guard.clone()), condition),
                };
                now = push_check(next, held, list[i].1.clone());
            },
        }
        i = i + 1;
    }
    Ok(now)
}

/// What was gathered with the checks of the first `n` branches.
pub open spec fn with_branch_checks(
    h: ReadingV,
    p: HereV,
    t: RoundV,
    acc: FlatV,
    conditions: Seq<ExprV>,
    list: Seq<IfBranch>,
    n: nat,
) -> Result<FlatV, Seq<char>>
    decreases n,
{
    if n == 0 || n > list.len() {
        Ok(acc)
    } else {
        match with_branch_checks(h, p, t, acc, conditions, list, (n - 1) as nat) {
            Err(why) => Err(why),
            Ok(before) => with_guarded(
                h,
                p,
                t,
                before,
                guard_of(conditions, (n - 1) as nat),
                list[n - 1].asserts@,
                list[n - 1].asserts@.len(),
            ),
        }
    }
}

proof fn lemma_with_branch_checks_stop(
    h: ReadingV,
    p: HereV,
    t: RoundV,
    acc: FlatV,
    conditions: Seq<ExprV>,
    list: Seq<IfBranch>,
    n: nat,
    all: nat,
)
    requires
        n <= all <= list.len(),
        with_branch_checks(h, p, t, acc, conditions, list, n) is Err,
    ensures
        with_branch_checks(h, p, t, acc, conditions, list, all) == with_branch_checks(
            h,
            p,
            t,
            acc,
            conditions,
            list,
            n,
        ),
    decreases all,
{
    if n < all {
        lemma_with_branch_checks_stop(h, p, t, acc, conditions, list, n, (all - 1) as nat);
    }
}

fn push_branch_checks<
    A1: Fn(&Expr, bool) -> Expr,
    A2: Fn(&Expr, &Table<Number>, &Table<Number>, &Table<String>) -> Result<(Value, Vec<(Expr, String)>), String>,
    A3: Fn(Value, &Table<Number>, &Table<Number>, &Table<String>) -> Result<(Value, Vec<(Expr, String)>), String>,
    A4: Fn(&Value, &Value, &str) -> Result<Vec<EquationItem>, String>,
    A5: Fn(&Expr) -> String,
    A6: Fn(Option<&Expr>) -> String,
    A7: Fn(&Vec<&Statement>) -> Result<Ran, String>,
    A8: Fn(&ClassDef, &Vec<Expr>, &Vec<Vec<i64>>) -> Result<(Vec<(String, Expr)>, Vec<(Expr, String)>), String>,
    A9: Fn(&ClassDef, &Vec<Expr>, &Vec<Vec<i64>>) -> Result<(Vec<(Expr, String)>, Vec<(Expr, String)>), String>,
    B1: Fn(&str) -> bool,
    B2: Fn(&ClassDef) -> bool,
>(
    h: &Reading<A1, A2, A3, A4, A5, A6, A7, A8, A9, B1, B2>,
    p: &Here,
    t: &Round,
    acc: Flat,
    conditions: &Vec<Expr>,
    list: &Vec<IfBranch>,
) -> (r: Result<Flat, String>)
    requires
        reads_true(*h),
    ensures
        told(r) == with_branch_checks(
            reading_of(*h),
            p.deep_view(),
            t.deep_view(),
            acc.deep_view(),
            conditions.deep_view(),
            list@,
            list@.len(),
        ),
{
    let ghost hv = reading_of(*h);
    let ghost pv = p.deep_view();
    let ghost tv = t.deep_view();
    let ghost start = acc.deep_view();
    let ghost cv = conditions.deep_view();
    let mut now = acc;
    let mut i: usize = 0;
    while i < list.len()
        invariant
            i <= list.len(),
            reads_true(*h),
            hv == reading_of(*h),
            pv == p.deep_view(),
            tv == t.deep_view(),
            start == acc.deep_view(),
            cv == conditions.deep_view(),
            with_branch_checks(hv, pv, tv, start, cv, list@, i as nat) == Ok::<FlatV, Seq<char>>(
                now.deep_view(),
            ),
        decreases list.len() - i,
    {
        proof {
            if with_branch_checks(hv, pv, tv, start, cv, list@, (i + 1) as nat) is Err {
                lemma_with_branch_checks_stop(
                    hv,
                    pv,
                    tv,
                    start,
                    cv,
                    list@,
                    (i + 1) as nat,
                    list@.len(),
                );
            }
        }
        let guard = find_guard(conditions, i);
        match push_guarded(h, p, t, now, &guard, &list[i].asserts) {
            Err(why) => return Err(why),
            Ok(next) => {
                now = next;
            },
        }
        i = i + 1;
    }
    Ok(now)
}

/// What was gathered with an `if` equation that only the run decides.
pub open spec fn with_conditional(
    h: ReadingV,
    p: HereV,
    t: RoundV,
    acc: FlatV,
    held: IfEquation,
    class: Seq<char>,
) -> Result<FlatV, Seq<char>> {
    match branches_read(h, p, t, acc, class, acc.origin, held.branches@, held.branches@.len()) {
        Err(why) => Err(why),
        Ok((made, acc)) => match unbalanced(class, made.branches) {
            Some(why) => Err(why),
            None => match with_branch_checks(
                h,
                p,
                t,
                acc,
                made.conditions,
                held.branches@,
                held.branches@.len(),
            ) {
                Err(why) => Err(why),
                Ok(acc) => Ok(FlatV { conditional: acc.conditional.push(made), ..acc }),
            },
        },
    }
}

proof fn lemma_as_many_branches(
    h: ReadingV,
    p: HereV,
    t: RoundV,
    acc: FlatV,
    class: Seq<char>,
    origin: Seq<char>,
    list: Seq<IfBranch>,
    n: nat,
)
    requires
        n <= list.len(),
        branches_read(h, p, t, acc, class, origin, list, n) is Ok,
    ensures
        branches_read(h, p, t, acc, class, origin, list, n)->Ok_0.0.branches.len() == n,
    decreases n,
{
    if n > 0 {
        lemma_as_many_branches(h, p, t, acc, class, origin, list, (n - 1) as nat);
    }
}

/// Record an `if` equation whose condition only the run can decide.
///
/// Every branch, `else` included, contributes the same number of equations,
/// so the model has one equation per position however the condition falls.
/// What a branch may not do is change the structure.
pub fn push_conditional<
    A1: Fn(&Expr, bool) -> Expr,
    A2: Fn(&Expr, &Table<Number>, &Table<Number>, &Table<String>) -> Result<(Value, Vec<(Expr, String)>), String>,
    A3: Fn(Value, &Table<Number>, &Table<Number>, &Table<String>) -> Result<(Value, Vec<(Expr, String)>), String>,
    A4: Fn(&Value, &Value, &str) -> Result<Vec<EquationItem>, String>,
    A5: Fn(&Expr) -> String,
    A6: Fn(Option<&Expr>) -> String,
    A7: Fn(&Vec<&Statement>) -> Result<Ran, String>,
    A8: Fn(&ClassDef, &Vec<Expr>, &Vec<Vec<i64>>) -> Result<(Vec<(String, Expr)>, Vec<(Expr, String)>), String>,
    A9: Fn(&ClassDef, &Vec<Expr>, &Vec<Vec<i64>>) -> Result<(Vec<(Expr, String)>, Vec<(Expr, String)>), String>,
    B1: Fn(&str) -> bool,
    B2: Fn(&ClassDef) -> bool,
>(
    h: &Reading<A1, A2, A3, A4, A5, A6, A7, A8, A9, B1, B2>,
    p: &Here,
    t: &Round,
    acc: Flat,
    held: &IfEquation,
    class: &str,
) -> (r: Result<Flat, String>)
    requires
        reads_true(*h),
        else_is_last(*held),
        held.branches@.len() > 0,
    ensures
        told(r) == with_conditional(
            reading_of(*h),
            p.deep_view(),
            t.deep_view(),
            acc.deep_view(),
            *held,
            class@,
        ),
{
    let origin = acc.origin.clone();
    let ghost start = acc.deep_view();
    let (made, acc) = match read_branches(h, p, t, acc, class, origin.as_str(), held) {
        Ok(made) => made,
        Err(why) => return Err(why),
    };
    proof {
        lemma_as_many_branches(
            reading_of(*h),
            p.deep_view(),
            t.deep_view(),
            start,
            class@,
            origin@,
            held.branches@,
            held.branches@.len(),
        );
        assert(made.branches.deep_view().len() == made.branches@.len());
    }
    if let Some(why) = check_balance(class, &made.branches) {
        return Err(why);
    }
    match push_branch_checks(h, p, t, acc, &made.conditions, &held.branches) {
        Err(why) => Err(why),
        Ok(next) => {
            let mut next = next;
            let ghost was = next.deep_view();
            let ghost mv = made.deep_view();
            next.conditional.push(made);
            assert(next.conditional.deep_view() =~= was.conditional.push(mv));
            Ok(next)
        },
    }
}

/// Whether every `if` in a loop has its `else` last.
pub open spec fn loop_laid_out(l: ForEquation) -> bool
    decreases l, 0int,
{
    forall|i: int| 0 <= i < l.body@.len() ==> line_laid_out(#[trigger] l.body@[i])
}

pub open spec fn line_laid_out(item: ForBody) -> bool
    decreases item, 0int,
{
    match item {
        ForBody::Nested(inner) => loop_laid_out(inner),
        ForBody::Branch(held) => choice_laid_out(held),
        _ => true,
    }
}

/// Whether an `if` and every one inside it has its `else` last.
pub open spec fn choice_laid_out(held: IfEquation) -> bool
    decreases held, 0int,
{
    &&& else_is_last(held)
    &&& forall|i: int|
        0 <= i < held.branches@.len() ==> branch_laid_out(#[trigger] held.branches@[i])
}

pub open spec fn branch_laid_out(branch: IfBranch) -> bool
    decreases branch, 0int,
{
    forall|i: int| 0 <= i < branch.loops@.len() ==> loop_laid_out(#[trigger] branch.loops@[i])
}

/// Whether every `if` in a loop has its `else` last.
pub fn is_loop_laid_out(l: &ForEquation) -> (r: bool)
    ensures
        r == loop_laid_out(*l),
    decreases l,
{
    let mut i: usize = 0;
    while i < l.body.len()
        invariant
            i <= l.body.len(),
            forall|k: int| 0 <= k < i ==> line_laid_out(#[trigger] l.body@[k]),
        decreases l.body.len() - i,
    {
        assert(decreases_to!(l.body@ => l.body@[i as int]));
        let fits = match &l.body[i] {
            ForBody::Nested(inner) => is_loop_laid_out(inner),
            ForBody::Branch(held) => is_choice_laid_out(held),
            _ => true,
        };
        if !fits {
            assert(!line_laid_out(l.body@[i as int]));
            return false;
        }
        i = i + 1;
    }
    true
}

pub fn are_loops_laid_out(list: &Vec<ForEquation>) -> (r: bool)
    ensures
        r == (forall|i: int| 0 <= i < list@.len() ==> loop_laid_out(#[trigger] list@[i])),
    decreases list,
{
    let mut i: usize = 0;
    while i < list.len()
        invariant
            i <= list.len(),
            forall|k: int| 0 <= k < i ==> loop_laid_out(#[trigger] list@[k]),
        decreases list.len() - i,
    {
        assert(decreases_to!(list@ => list@[i as int]));
        if !is_loop_laid_out(&list[i]) {
            assert(!loop_laid_out(list@[i as int]));
            return false;
        }
        i = i + 1;
    }
    true
}

/// Whether an `if` and every one inside it has its `else` last.
pub fn is_choice_laid_out(held: &IfEquation) -> (r: bool)
    ensures
        r == choice_laid_out(*held),
    decreases held,
{
    let mut i: usize = 0;
    while i < held.branches.len()
        invariant
            i <= held.branches.len(),
            forall|k: int|
                0 <= k < i && k < held.branches@.len() - 1 ==> (#[trigger] held.branches@[k]).condition is Some,
            forall|k: int| 0 <= k < i ==> branch_laid_out(#[trigger] held.branches@[k]),
        decreases held.branches.len() - i,
    {
        assert(decreases_to!(held.branches@ => held.branches@[i as int]));
        if i < held.branches.len() - 1 && held.branches[i].condition.is_none() {
            assert(held.branches@[i as int].condition is None);
            return false;
        }
        if !are_loops_laid_out(&held.branches[i].loops) {
            assert(!branch_laid_out(held.branches@[i as int]));
            return false;
        }
        i = i + 1;
    }
    true
}

/// Whether a condition asks the connections a question.
///
/// `Connections.isRoot(frame_a.R)` and `Connections.rooted(...)` are answered
/// from the roots the graph was broken open at, and `cardinality(port)` from
/// how many `connect` equations named the port.
pub open spec fn asks_connections(e: ExprV) -> bool {
    mentions(e, "Connections.isRoot"@) || mentions(e, "Connections.rooted"@) || mentions(
        e,
        "cardinality"@,
    )
}

/// Whether a condition asks the connections a question.
pub fn asks_the_connections(condition: &Expr) -> (r: bool)
    ensures
        r == asks_connections(condition.deep_view()),
{
    mentions_call(condition, "Connections.isRoot") || mentions_call(condition, "Connections.rooted")
        || mentions_call(condition, "cardinality")
}

pub open spec fn asked_by(condition: Option<Expr>) -> bool {
    match condition {
        Some(condition) => asks_connections(condition.deep_view()),
        None => false,
    }
}

/// Whether an `if` equation asks the connections a question.
pub open spec fn graph_asked_by(held: IfEquation) -> bool {
    exists|i: int|
        0 <= i < held.branches@.len() && asked_by((#[trigger] held.branches@[i]).condition)
}

/// Whether an `if` equation asks the connections a question.
pub fn asks_the_graph(held: &IfEquation) -> (r: bool)
    ensures
        r == graph_asked_by(*held),
{
    let mut i: usize = 0;
    while i < held.branches.len()
        invariant
            i <= held.branches.len(),
            forall|k: int| 0 <= k < i ==> !asked_by((#[trigger] held.branches@[k]).condition),
        decreases held.branches.len() - i,
    {
        if let Some(condition) = &held.branches[i].condition {
            if asks_the_connections(condition) {
                assert(asked_by(held.branches@[i as int].condition));
                return true;
            }
        }
        i = i + 1;
    }
    false
}

/// What the compiler makes of a branch's condition: it always holds, it is
/// worth a number, or it is left open.
#[derive(Clone, Copy, Debug)]
pub enum Verdict {
    Always,
    Worth(Number),
    Open,
}

pub open spec fn verdict_on(worth: Option<Number>) -> Verdict {
    match worth {
        Some(value) => Verdict::Worth(value),
        None => Verdict::Open,
    }
}

pub open spec fn are_decided(list: Seq<Verdict>) -> bool {
    forall|i: int| 0 <= i < list.len() ==> !(#[trigger] list[i] is Open)
}

/// Whether a branch holds.
pub open spec fn is_taken(verdict: Verdict) -> bool {
    match verdict {
        Verdict::Always => true,
        Verdict::Worth(value) => !value.level(zero()),
        Verdict::Open => true,
    }
}

/// The first branch from the `i`-th on that holds.
pub open spec fn taken_from(list: Seq<Verdict>, i: nat) -> Option<nat>
    decreases list.len() - i,
{
    if i >= list.len() {
        None
    } else if is_taken(list[i as int]) {
        Some(i)
    } else {
        taken_from(list, i + 1)
    }
}

pub fn all_decided(list: &Vec<Verdict>) -> (r: bool)
    ensures
        r == are_decided(list@),
{
    let mut i: usize = 0;
    while i < list.len()
        invariant
            i <= list.len(),
            forall|k: int| 0 <= k < i ==> !(#[trigger] list@[k] is Open),
        decreases list.len() - i,
    {
        if matches!(list[i], Verdict::Open) {
            assert(list@[i as int] is Open);
            return false;
        }
        i = i + 1;
    }
    true
}

pub fn find_taken(list: &Vec<Verdict>) -> (r: Option<usize>)
    ensures
        match r {
            Some(at) => taken_from(list@, 0) == Some(at as nat) && at < list@.len(),
            None => taken_from(list@, 0) is None,
        },
{
    let mut i: usize = 0;
    while i < list.len()
        invariant
            i <= list.len(),
            taken_from(list@, 0) == taken_from(list@, i as nat),
        decreases list.len() - i,
    {
        let taken = match list[i] {
            Verdict::Always => true,
            Verdict::Worth(value) => !value.equals(zero()),
            Verdict::Open => true,
        };
        if taken {
            return Some(i);
        }
        i = i + 1;
    }
    None
}

/// What a condition is worth in a round.
pub open spec fn worth_in(
    h: ReadingV,
    v: SumsV,
    p: HereV,
    t: RoundV,
    acc: FlatV,
    condition: ExprV,
) -> Option<Number> {
    let settling = overlaid(t.consts, t.vars);
    match evaluated(put_in(h, t, condition), settling, v) {
        Some(value) => Some(value),
        None => if !acc.answered {
            None
        } else {
            match one_in(h, p, t, nothing_gathered(), condition) {
                Err(_) => None,
                Ok((asked, _)) => evaluated(answered(asked, acc.roots, acc.counts), settling, v),
            }
        },
    }
}

/// What working out a condition sets aside in a round: nothing where it need not
/// be worked out.
pub open spec fn worth_leaves(
    h: ReadingV,
    v: SumsV,
    p: HereV,
    t: RoundV,
    acc: FlatV,
    condition: ExprV,
) -> Checks {
    if evaluated(put_in(h, t, condition), overlaid(t.consts, t.vars), v) is Some || !acc.answered {
        Seq::empty()
    } else {
        match one_in(h, p, t, nothing_gathered(), condition) {
            Err(_) => Seq::empty(),
            Ok((_, made)) => made.rest.aside,
        }
    }
}

/// What working out the conditions of the first `n` branches sets aside.
pub open spec fn verdicts_leave(
    h: ReadingV,
    v: SumsV,
    p: HereV,
    t: RoundV,
    acc: FlatV,
    held: IfEquation,
    n: nat,
) -> Checks
    decreases n,
{
    if n == 0 || n > held.branches@.len() {
        Seq::empty()
    } else {
        let before = verdicts_leave(h, v, p, t, acc, held, (n - 1) as nat);
        match held.branches@[n - 1].condition {
            None => before,
            Some(condition) => before + worth_leaves(h, v, p, t, acc, condition.deep_view()),
        }
    }
}

/// What the compiler makes of each branch in a round.
pub open spec fn verdicts_in(
    h: ReadingV,
    v: SumsV,
    p: HereV,
    t: RoundV,
    acc: FlatV,
    held: IfEquation,
) -> Seq<Verdict> {
    Seq::new(
        held.branches@.len(),
        |i: int|
            match held.branches@[i].condition {
                None => Verdict::Always,
                Some(condition) => verdict_on(
                    worth_in(h, v, p, t, acc, condition.deep_view()),
                ),
            },
    )
}

fn find_worth<
    A1: Fn(&Expr, bool) -> Expr,
    A2: Fn(&Expr, &Table<Number>, &Table<Number>, &Table<String>) -> Result<(Value, Vec<(Expr, String)>), String>,
    A3: Fn(Value, &Table<Number>, &Table<Number>, &Table<String>) -> Result<(Value, Vec<(Expr, String)>), String>,
    A4: Fn(&Value, &Value, &str) -> Result<Vec<EquationItem>, String>,
    A5: Fn(&Expr) -> String,
    A6: Fn(Option<&Expr>) -> String,
    A7: Fn(&Vec<&Statement>) -> Result<Ran, String>,
    A8: Fn(&ClassDef, &Vec<Expr>, &Vec<Vec<i64>>) -> Result<(Vec<(String, Expr)>, Vec<(Expr, String)>), String>,
    A9: Fn(&ClassDef, &Vec<Expr>, &Vec<Vec<i64>>) -> Result<(Vec<(Expr, String)>, Vec<(Expr, String)>), String>,
    B1: Fn(&str) -> bool,
    B2: Fn(&ClassDef) -> bool,
    W: Fn(Arith, Number, Number) -> Number,
    O: Fn(&str, &Vec<Number>) -> Option<Vec<Number>>,
    N: Fn(&str) -> String,
>(
    h: &Reading<A1, A2, A3, A4, A5, A6, A7, A8, A9, B1, B2>,
    sums: &Sums<W, O, N>,
    p: &Here,
    t: &Round,
    acc: &Flat,
    condition: &Expr,
) -> (r: (Option<Number>, Vec<(Expr, String)>))
    requires
        reads_true(*h),
        is_steady(*sums),
    ensures
        r.0 == worth_in(
            reading_of(*h),
            sums_of(*sums),
            p.deep_view(),
            t.deep_view(),
            acc.deep_view(),
            condition.deep_view(),
        ),
        r.1.deep_view() == worth_leaves(
            reading_of(*h),
            sums_of(*sums),
            p.deep_view(),
            t.deep_view(),
            acc.deep_view(),
            condition.deep_view(),
        ),
{
    let none: Vec<(Expr, String)> = Vec::new();
    assert(none.deep_view() =~= Seq::empty());
    let settling = overlay(&t.consts, &t.vars);
    let plain = put_into(h, t, condition);
    if let Some(value) = const_eval(&plain, &settling, sums) {
        return (Some(value), none);
    }
    if !acc.answered {
        return (None, none);
    }
    match read_one(h, p, t, Flat::new(), condition) {
        Err(_) => (None, none),
        Ok((asked, made)) => {
            let said = answer_graph_queries(&asked, &acc.roots, &acc.counts);
            (const_eval(&said, &settling, sums), made.rest.aside)
        },
    }
}

fn find_verdicts<
    A1: Fn(&Expr, bool) -> Expr,
    A2: Fn(&Expr, &Table<Number>, &Table<Number>, &Table<String>) -> Result<(Value, Vec<(Expr, String)>), String>,
    A3: Fn(Value, &Table<Number>, &Table<Number>, &Table<String>) -> Result<(Value, Vec<(Expr, String)>), String>,
    A4: Fn(&Value, &Value, &str) -> Result<Vec<EquationItem>, String>,
    A5: Fn(&Expr) -> String,
    A6: Fn(Option<&Expr>) -> String,
    A7: Fn(&Vec<&Statement>) -> Result<Ran, String>,
    A8: Fn(&ClassDef, &Vec<Expr>, &Vec<Vec<i64>>) -> Result<(Vec<(String, Expr)>, Vec<(Expr, String)>), String>,
    A9: Fn(&ClassDef, &Vec<Expr>, &Vec<Vec<i64>>) -> Result<(Vec<(Expr, String)>, Vec<(Expr, String)>), String>,
    B1: Fn(&str) -> bool,
    B2: Fn(&ClassDef) -> bool,
    W: Fn(Arith, Number, Number) -> Number,
    O: Fn(&str, &Vec<Number>) -> Option<Vec<Number>>,
    N: Fn(&str) -> String,
>(
    h: &Reading<A1, A2, A3, A4, A5, A6, A7, A8, A9, B1, B2>,
    sums: &Sums<W, O, N>,
    p: &Here,
    t: &Round,
    acc: &Flat,
    held: &IfEquation,
) -> (r: (Vec<Verdict>, Vec<(Expr, String)>))
    requires
        reads_true(*h),
        is_steady(*sums),
    ensures
        r.0@ == verdicts_in(
            reading_of(*h),
            sums_of(*sums),
            p.deep_view(),
            t.deep_view(),
            acc.deep_view(),
            *held,
        ),
        r.1.deep_view() == verdicts_leave(
            reading_of(*h),
            sums_of(*sums),
            p.deep_view(),
            t.deep_view(),
            acc.deep_view(),
            *held,
            held.branches@.len(),
        ),
{
    let ghost whole = verdicts_in(
        reading_of(*h),
        sums_of(*sums),
        p.deep_view(),
        t.deep_view(),
        acc.deep_view(),
        *held,
    );
    let mut out: Vec<Verdict> = Vec::new();
    let mut aside: Vec<(Expr, String)> = Vec::new();
    assert(aside.deep_view() =~= Seq::empty());
    let mut i: usize = 0;
    while i < held.branches.len()
        invariant
            i <= held.branches.len(),
            reads_true(*h),
            is_steady(*sums),
            whole == verdicts_in(
                reading_of(*h),
                sums_of(*sums),
                p.deep_view(),
                t.deep_view(),
                acc.deep_view(),
                *held,
            ),
            out@ == whole.take(i as int),
            aside.deep_view() == verdicts_leave(
                reading_of(*h),
                sums_of(*sums),
                p.deep_view(),
                t.deep_view(),
                acc.deep_view(),
                *held,
                i as nat,
            ),
        decreases held.branches.len() - i,
    {
        let verdict = match &held.branches[i].condition {
            None => Verdict::Always,
            Some(condition) => {
                let (worth, more) = find_worth(h, sums, p, t, acc, condition);
                let mut more = more;
                let ghost before = aside.deep_view();
                let ghost added = more.deep_view();
                aside.append(&mut more);
                assert(aside.deep_view() =~= before + added);
                match worth {
                    Some(value) => Verdict::Worth(value),
                    None => Verdict::Open,
                }
            },
        };
        assert(verdict == whole[i as int]);
        out.push(verdict);
        assert(out@ =~= whole.take(i + 1));
        i = i + 1;
    }
    assert(whole.take(i as int) =~= whole);
    (out, aside)
}

/// The loop variables as the numbers they are put in as.
pub open spec fn folded_of(vars: Worths) -> Map<Seq<char>, ExprV> {
    vars.map_values(|value: Number| ExprV::Number(value))
}

fn fold_in(vars: &Table<Number>) -> (r: Table<Expr>)
    ensures
        r.deep_view() == folded_of(vars.deep_view()),
{
    let ghost all = vars.entries.deep_view();
    let mut out: Table<Expr> = Table::new();
    let mut i: usize = 0;
    assert(all.take(0) =~= Seq::empty());
    assert(out.deep_view() =~= folded_of(entered(all.take(0))));
    while i < vars.entries.len()
        invariant
            i <= vars.entries.len(),
            all == vars.entries.deep_view(),
            out.deep_view() == folded_of(entered(all.take(i as int))),
        decreases vars.entries.len() - i,
    {
        assert(all[i as int] == vars.entries@[i as int].deep_view());
        assert(all.take(i + 1).drop_last() =~= all.take(i as int));
        out.put(vars.entries[i].0.clone(), make::number(vars.entries[i].1));
        assert(out.deep_view() =~= folded_of(entered(all.take(i + 1))));
        i = i + 1;
    }
    assert(all.take(i as int) =~= all);
    out
}

/// What was gathered with an equation read in a round.
pub open spec fn with_equation(
    h: ReadingV,
    p: HereV,
    t: RoundV,
    acc: FlatV,
    lhs: ExprV,
    rhs: ExprV,
) -> Result<FlatV, Seq<char>> {
    match read_in(h, p, t, acc, lhs) {
        Err(why) => Err(why),
        Ok((left, acc)) => match read_in(h, p, t, acc, rhs) {
            Err(why) => Err(why),
            Ok((right, acc)) => with_pair(h, acc, left, right),
        },
    }
}

pub fn push_equation<
    A1: Fn(&Expr, bool) -> Expr,
    A2: Fn(&Expr, &Table<Number>, &Table<Number>, &Table<String>) -> Result<(Value, Vec<(Expr, String)>), String>,
    A3: Fn(Value, &Table<Number>, &Table<Number>, &Table<String>) -> Result<(Value, Vec<(Expr, String)>), String>,
    A4: Fn(&Value, &Value, &str) -> Result<Vec<EquationItem>, String>,
    A5: Fn(&Expr) -> String,
    A6: Fn(Option<&Expr>) -> String,
    A7: Fn(&Vec<&Statement>) -> Result<Ran, String>,
    A8: Fn(&ClassDef, &Vec<Expr>, &Vec<Vec<i64>>) -> Result<(Vec<(String, Expr)>, Vec<(Expr, String)>), String>,
    A9: Fn(&ClassDef, &Vec<Expr>, &Vec<Vec<i64>>) -> Result<(Vec<(Expr, String)>, Vec<(Expr, String)>), String>,
    B1: Fn(&str) -> bool,
    B2: Fn(&ClassDef) -> bool,
>(
    h: &Reading<A1, A2, A3, A4, A5, A6, A7, A8, A9, B1, B2>,
    p: &Here,
    t: &Round,
    acc: Flat,
    lhs: &Expr,
    rhs: &Expr,
) -> (r: Result<Flat, String>)
    requires
        reads_true(*h),
    ensures
        told(r) == with_equation(
            reading_of(*h),
            p.deep_view(),
            t.deep_view(),
            acc.deep_view(),
            lhs.deep_view(),
            rhs.deep_view(),
        ),
{
    let (left, acc) = match read_side(h, p, t, acc, lhs) {
        Ok(made) => made,
        Err(why) => return Err(why),
    };
    let (right, acc) = match read_side(h, p, t, acc, rhs) {
        Ok(made) => made,
        Err(why) => return Err(why),
    };
    push_pair(h, acc, &left, &right)
}

/// What was gathered with a `connect` read in a round.
pub open spec fn with_link(
    h: ReadingV,
    p: HereV,
    t: RoundV,
    acc: FlatV,
    a: ExprV,
    b: ExprV,
) -> Result<
    FlatV,
    Seq<char>,
> {
    with_connect(
        h,
        p,
        acc,
        substituted(a, t.folded),
        substituted(b, t.folded),
        t.vars,
        t.consts,
        p.records,
    )
}

pub fn push_link<
    A1: Fn(&Expr, bool) -> Expr,
    A2: Fn(&Expr, &Table<Number>, &Table<Number>, &Table<String>) -> Result<(Value, Vec<(Expr, String)>), String>,
    A3: Fn(Value, &Table<Number>, &Table<Number>, &Table<String>) -> Result<(Value, Vec<(Expr, String)>), String>,
    A4: Fn(&Value, &Value, &str) -> Result<Vec<EquationItem>, String>,
    A5: Fn(&Expr) -> String,
    A6: Fn(Option<&Expr>) -> String,
    A7: Fn(&Vec<&Statement>) -> Result<Ran, String>,
    A8: Fn(&ClassDef, &Vec<Expr>, &Vec<Vec<i64>>) -> Result<(Vec<(String, Expr)>, Vec<(Expr, String)>), String>,
    A9: Fn(&ClassDef, &Vec<Expr>, &Vec<Vec<i64>>) -> Result<(Vec<(Expr, String)>, Vec<(Expr, String)>), String>,
    B1: Fn(&str) -> bool,
    B2: Fn(&ClassDef) -> bool,
>(h: &Reading<A1, A2, A3, A4, A5, A6, A7, A8, A9, B1, B2>, p: &Here, t: &Round, acc: Flat, a: &Expr, b: &Expr) -> (r:
    Result<Flat, String>)
    requires
        reads_true(*h),
    ensures
        told(r) == with_link(
            reading_of(*h),
            p.deep_view(),
            t.deep_view(),
            acc.deep_view(),
            a.deep_view(),
            b.deep_view(),
        ),
{
    let a = substitute_refs(a, &t.folded);
    let b = substitute_refs(b, &t.folded);
    push_connects(h, p, acc, &a, &b, &t.vars, &t.consts, &p.records)
}

/// What was gathered with the first `n` equations of a list.
pub open spec fn with_equations(
    h: ReadingV,
    p: HereV,
    t: RoundV,
    acc: FlatV,
    list: Seq<EquationItem>,
    n: nat,
) -> Result<FlatV, Seq<char>>
    decreases n,
{
    if n == 0 || n > list.len() {
        Ok(acc)
    } else {
        match with_equations(h, p, t, acc, list, (n - 1) as nat) {
            Err(why) => Err(why),
            Ok(before) => with_equation(
                h,
                p,
                t,
                before,
                list[n - 1].lhs.deep_view(),
                list[n - 1].rhs.deep_view(),
            ),
        }
    }
}

proof fn lemma_with_equations_stops(
    h: ReadingV,
    p: HereV,
    t: RoundV,
    acc: FlatV,
    list: Seq<EquationItem>,
    n: nat,
    all: nat,
)
    requires
        n <= all <= list.len(),
        with_equations(h, p, t, acc, list, n) is Err,
    ensures
        with_equations(h, p, t, acc, list, all) == with_equations(h, p, t, acc, list, n),
    decreases all,
{
    if n < all {
        lemma_with_equations_stops(h, p, t, acc, list, n, (all - 1) as nat);
    }
}

pub fn push_equations<
    A1: Fn(&Expr, bool) -> Expr,
    A2: Fn(&Expr, &Table<Number>, &Table<Number>, &Table<String>) -> Result<(Value, Vec<(Expr, String)>), String>,
    A3: Fn(Value, &Table<Number>, &Table<Number>, &Table<String>) -> Result<(Value, Vec<(Expr, String)>), String>,
    A4: Fn(&Value, &Value, &str) -> Result<Vec<EquationItem>, String>,
    A5: Fn(&Expr) -> String,
    A6: Fn(Option<&Expr>) -> String,
    A7: Fn(&Vec<&Statement>) -> Result<Ran, String>,
    A8: Fn(&ClassDef, &Vec<Expr>, &Vec<Vec<i64>>) -> Result<(Vec<(String, Expr)>, Vec<(Expr, String)>), String>,
    A9: Fn(&ClassDef, &Vec<Expr>, &Vec<Vec<i64>>) -> Result<(Vec<(Expr, String)>, Vec<(Expr, String)>), String>,
    B1: Fn(&str) -> bool,
    B2: Fn(&ClassDef) -> bool,
>(h: &Reading<A1, A2, A3, A4, A5, A6, A7, A8, A9, B1, B2>, p: &Here, t: &Round, acc: Flat, list: &Vec<EquationItem>) -> (r: Result<
    Flat,
    String,
>)
    requires
        reads_true(*h),
    ensures
        told(r) == with_equations(
            reading_of(*h),
            p.deep_view(),
            t.deep_view(),
            acc.deep_view(),
            list@,
            list@.len(),
        ),
{
    let ghost hv = reading_of(*h);
    let ghost pv = p.deep_view();
    let ghost tv = t.deep_view();
    let ghost start = acc.deep_view();
    let mut now = acc;
    let mut i: usize = 0;
    while i < list.len()
        invariant
            i <= list.len(),
            reads_true(*h),
            hv == reading_of(*h),
            pv == p.deep_view(),
            tv == t.deep_view(),
            start == acc.deep_view(),
            with_equations(hv, pv, tv, start, list@, i as nat) == Ok::<FlatV, Seq<char>>(
                now.deep_view(),
            ),
        decreases list.len() - i,
    {
        proof {
            if with_equations(hv, pv, tv, start, list@, (i + 1) as nat) is Err {
                lemma_with_equations_stops(hv, pv, tv, start, list@, (i + 1) as nat, list@.len());
            }
        }
        match push_equation(h, p, t, now, &list[i].lhs, &list[i].rhs) {
            Err(why) => return Err(why),
            Ok(next) => {
                now = next;
            },
        }
        i = i + 1;
    }
    Ok(now)
}

/// What was gathered with the first `n` connections of a list.
pub open spec fn with_links(
    h: ReadingV,
    p: HereV,
    t: RoundV,
    acc: FlatV,
    list: Seq<(Expr, Expr)>,
    n: nat,
) -> Result<FlatV, Seq<char>>
    decreases n,
{
    if n == 0 || n > list.len() {
        Ok(acc)
    } else {
        match with_links(h, p, t, acc, list, (n - 1) as nat) {
            Err(why) => Err(why),
            Ok(before) => with_link(
                h,
                p,
                t,
                before,
                list[n - 1].0.deep_view(),
                list[n - 1].1.deep_view(),
            ),
        }
    }
}

proof fn lemma_with_links_stops(
    h: ReadingV,
    p: HereV,
    t: RoundV,
    acc: FlatV,
    list: Seq<(Expr, Expr)>,
    n: nat,
    all: nat,
)
    requires
        n <= all <= list.len(),
        with_links(h, p, t, acc, list, n) is Err,
    ensures
        with_links(h, p, t, acc, list, all) == with_links(h, p, t, acc, list, n),
    decreases all,
{
    if n < all {
        lemma_with_links_stops(h, p, t, acc, list, n, (all - 1) as nat);
    }
}

pub fn push_links<
    A1: Fn(&Expr, bool) -> Expr,
    A2: Fn(&Expr, &Table<Number>, &Table<Number>, &Table<String>) -> Result<(Value, Vec<(Expr, String)>), String>,
    A3: Fn(Value, &Table<Number>, &Table<Number>, &Table<String>) -> Result<(Value, Vec<(Expr, String)>), String>,
    A4: Fn(&Value, &Value, &str) -> Result<Vec<EquationItem>, String>,
    A5: Fn(&Expr) -> String,
    A6: Fn(Option<&Expr>) -> String,
    A7: Fn(&Vec<&Statement>) -> Result<Ran, String>,
    A8: Fn(&ClassDef, &Vec<Expr>, &Vec<Vec<i64>>) -> Result<(Vec<(String, Expr)>, Vec<(Expr, String)>), String>,
    A9: Fn(&ClassDef, &Vec<Expr>, &Vec<Vec<i64>>) -> Result<(Vec<(Expr, String)>, Vec<(Expr, String)>), String>,
    B1: Fn(&str) -> bool,
    B2: Fn(&ClassDef) -> bool,
>(h: &Reading<A1, A2, A3, A4, A5, A6, A7, A8, A9, B1, B2>, p: &Here, t: &Round, acc: Flat, list: &Vec<(Expr, Expr)>) -> (r: Result<
    Flat,
    String,
>)
    requires
        reads_true(*h),
    ensures
        told(r) == with_links(
            reading_of(*h),
            p.deep_view(),
            t.deep_view(),
            acc.deep_view(),
            list@,
            list@.len(),
        ),
{
    let ghost hv = reading_of(*h);
    let ghost pv = p.deep_view();
    let ghost tv = t.deep_view();
    let ghost start = acc.deep_view();
    let mut now = acc;
    let mut i: usize = 0;
    while i < list.len()
        invariant
            i <= list.len(),
            reads_true(*h),
            hv == reading_of(*h),
            pv == p.deep_view(),
            tv == t.deep_view(),
            start == acc.deep_view(),
            with_links(hv, pv, tv, start, list@, i as nat) == Ok::<FlatV, Seq<char>>(
                now.deep_view(),
            ),
        decreases list.len() - i,
    {
        proof {
            if with_links(hv, pv, tv, start, list@, (i + 1) as nat) is Err {
                lemma_with_links_stops(hv, pv, tv, start, list@, (i + 1) as nat, list@.len());
            }
        }
        match push_link(h, p, t, now, &list[i].0, &list[i].1) {
            Err(why) => return Err(why),
            Ok(next) => {
                now = next;
            },
        }
        i = i + 1;
    }
    Ok(now)
}

/// What a branch in a loop is told that holds what none there may.
pub open spec fn unread_in_loop(class: Seq<char>) -> Seq<char> {
    "a `when`, a call on its own or a `Connections` clause sits in an `if` inside a `for` in `"@
        + class + "`, and this compiler reads none of them there"@
}

/// The values a loop runs over.
pub open spec fn runs_over(
    h: ReadingV,
    v: SumsV,
    p: HereV,
    acc: FlatV,
    l: ForEquation,
    vars: Worths,
    consts: Worths,
) -> Result<(Seq<Number>, FlatV), Seq<char>> {
    match l.range {
        Some(range) => match spread_out(
            h,
            acc,
            prefixed_whole((h.put)(range.deep_view(), false), p.naming),
            vars,
            consts,
            Map::empty(),
        ) {
            Err(why) => Err(why),
            Ok((spread, acc)) => match values_of(
                h,
                v,
                spread,
                overlaid(consts, vars),
                l.variable@,
            ) {
                Err(why) => Err(why),
                Ok(values) => Ok((values, acc)),
            },
        },
        None => match implied_by(p, l.body@, l.variable@) {
            Err(why) => Err(why),
            Ok(values) => Ok((values, acc)),
        },
    }
}

fn find_range<
    A1: Fn(&Expr, bool) -> Expr,
    A2: Fn(&Expr, &Table<Number>, &Table<Number>, &Table<String>) -> Result<(Value, Vec<(Expr, String)>), String>,
    A3: Fn(Value, &Table<Number>, &Table<Number>, &Table<String>) -> Result<(Value, Vec<(Expr, String)>), String>,
    A4: Fn(&Value, &Value, &str) -> Result<Vec<EquationItem>, String>,
    A5: Fn(&Expr) -> String,
    A6: Fn(Option<&Expr>) -> String,
    A7: Fn(&Vec<&Statement>) -> Result<Ran, String>,
    A8: Fn(&ClassDef, &Vec<Expr>, &Vec<Vec<i64>>) -> Result<(Vec<(String, Expr)>, Vec<(Expr, String)>), String>,
    A9: Fn(&ClassDef, &Vec<Expr>, &Vec<Vec<i64>>) -> Result<(Vec<(Expr, String)>, Vec<(Expr, String)>), String>,
    B1: Fn(&str) -> bool,
    B2: Fn(&ClassDef) -> bool,
    W: Fn(Arith, Number, Number) -> Number,
    O: Fn(&str, &Vec<Number>) -> Option<Vec<Number>>,
    N: Fn(&str) -> String,
>(
    h: &Reading<A1, A2, A3, A4, A5, A6, A7, A8, A9, B1, B2>,
    sums: &Sums<W, O, N>,
    p: &Here,
    acc: Flat,
    l: &ForEquation,
    vars: &Table<Number>,
    consts: &Table<Number>,
) -> (r: Result<(Vec<Number>, Flat), String>)
    requires
        reads_true(*h),
        is_steady(*sums),
    ensures
        match runs_over(
            reading_of(*h),
            sums_of(*sums),
            p.deep_view(),
            acc.deep_view(),
            *l,
            vars.deep_view(),
            consts.deep_view(),
        ) {
            Err(trouble) => r matches Err(why) && why@ == trouble,
            Ok((values, after)) => r matches Ok(made) && made.0@ == values && made.1.deep_view()
                == after,
        },
{
    match &l.range {
        Some(range) => {
            let plain = h.do_put(range, false);
            let named = prefix_expr(&plain, &p.naming);
            let none: Table<String> = Table::new();
            match spread_it(h, acc, &named, vars, consts, &none) {
                Err(why) => Err(why),
                Ok((spread, acc)) => {
                    let env = overlay(consts, vars);
                    match loop_values(h, sums, spread, &env, l.variable.as_str()) {
                        Err(why) => Err(why),
                        Ok(values) => Ok((values, acc)),
                    }
                },
            }
        },
        None => match implied_range(p, &l.body, l.variable.as_str()) {
            Err(why) => Err(why),
            Ok(values) => Ok((values, acc)),
        },
    }
}

/// What a round of a loop reads with.
pub open spec fn round_with(vars: Worths, consts: Worths) -> RoundV {
    RoundV { folded: folded_of(vars), vars, consts, shadowed: false }
}

/// What was gathered with a loop unrolled: everything in it is findable under
/// its instance path as well as under its plain name.
pub open spec fn unrolled(
    h: ReadingV,
    v: SumsV,
    p: HereV,
    acc: FlatV,
    l: ForEquation,
    vars: Worths,
    consts: Worths,
) -> Result<FlatV, Seq<char>>
    decreases l, 3int, 0nat,
{
    let known = overlaid(consts, all_prefixed(consts, p.naming.prefix));
    match runs_over(h, v, p, acc, l, vars, known) {
        Err(why) => Err(why),
        Ok((values, acc)) => rounds_done(h, v, p, acc, l, vars, known, values, values.len()),
    }
}

/// The first `n` rounds of a loop.
pub open spec fn rounds_done(
    h: ReadingV,
    v: SumsV,
    p: HereV,
    acc: FlatV,
    l: ForEquation,
    vars: Worths,
    consts: Worths,
    values: Seq<Number>,
    n: nat,
) -> Result<FlatV, Seq<char>>
    decreases l, 2int, n,
{
    if n == 0 || n > values.len() {
        Ok(acc)
    } else {
        match rounds_done(h, v, p, acc, l, vars, consts, values, (n - 1) as nat) {
            Err(why) => Err(why),
            Ok(before) => lines_done(
                h,
                v,
                p,
                before,
                l,
                round_with(vars.insert(l.variable@, values[n - 1]), consts),
                l.body@.len(),
            ),
        }
    }
}

/// The first `n` lines of one round of a loop.
pub open spec fn lines_done(
    h: ReadingV,
    v: SumsV,
    p: HereV,
    acc: FlatV,
    l: ForEquation,
    t: RoundV,
    n: nat,
) -> Result<FlatV, Seq<char>>
    decreases l, 1int, n,
{
    if n == 0 || n > l.body@.len() {
        Ok(acc)
    } else {
        match lines_done(h, v, p, acc, l, t, (n - 1) as nat) {
            Err(why) => Err(why),
            Ok(before) => line_done(h, v, p, before, l.body@[n - 1], t),
        }
    }
}

/// One line of one round of a loop.
pub open spec fn line_done(
    h: ReadingV,
    v: SumsV,
    p: HereV,
    acc: FlatV,
    item: ForBody,
    t: RoundV,
) -> Result<FlatV, Seq<char>>
    decreases item, 1int, 0nat,
{
    match item {
        ForBody::Equation(equation) => with_equation(
            h,
            p,
            t,
            acc,
            equation.lhs.deep_view(),
            equation.rhs.deep_view(),
        ),
        ForBody::Connect(a, b) => with_link(h, p, t, acc, a.deep_view(), b.deep_view()),
        ForBody::Nested(inner) => unrolled(h, v, p, acc, inner, t.vars, t.consts),
        ForBody::Branch(held) => branch_done(h, v, p, acc, held, t),
        ForBody::Assert(condition, message) => Ok(
            with_check(
                acc,
                prefixed_whole(put_in(h, t, condition.deep_view()), p.naming),
                message@,
            ),
        ),
    }
}

/// An `if` in one round of a loop: the branch that holds gives its equations
/// to the round, and the others give nothing.
pub open spec fn branch_done(
    h: ReadingV,
    v: SumsV,
    p: HereV,
    acc: FlatV,
    held: IfEquation,
    t: RoundV,
) -> Result<FlatV, Seq<char>>
    decreases held, 1int, 0nat,
{
    let list = verdicts_in(h, v, p, t, acc, held);
    let acc = set_aside(acc, verdicts_leave(h, v, p, t, acc, held, held.branches@.len()));
    if !are_decided(list) {
        if !acc.answered && graph_asked_by(held) {
            Ok(FlatV { graph_asked: true, ..acc })
        } else {
            with_conditional(h, p, t, acc, held, p.scope)
        }
    } else {
        match taken_from(list, 0) {
            None => Ok(acc),
            Some(at) => if at >= held.branches@.len() {
                Ok(acc)
            } else {
                let branch = held.branches@[at as int];
                if branch.whens@.len() > 0 || branch.calls@.len() > 0 || branch.graph@.len() > 0 {
                    Err(unread_in_loop(p.scope))
                } else {
                    match with_links(h, p, t, acc, branch.connects@, branch.connects@.len()) {
                        Err(why) => Err(why),
                        Ok(acc) => match loops_done(h, v, p, acc, branch, t, branch.loops@.len()) {
                            Err(why) => Err(why),
                            Ok(acc) => match with_equations(
                                h,
                                p,
                                t,
                                acc,
                                branch.equations@,
                                branch.equations@.len(),
                            ) {
                                Err(why) => Err(why),
                                Ok(acc) => with_guarded(
                                    h,
                                    p,
                                    t,
                                    acc,
                                    None,
                                    branch.asserts@,
                                    branch.asserts@.len(),
                                ),
                            },
                        },
                    }
                }
            },
        }
    }
}

/// The first `n` loops of a branch.
pub open spec fn loops_done(
    h: ReadingV,
    v: SumsV,
    p: HereV,
    acc: FlatV,
    branch: IfBranch,
    t: RoundV,
    n: nat,
) -> Result<FlatV, Seq<char>>
    decreases branch, 0int, n,
{
    if n == 0 || n > branch.loops@.len() {
        Ok(acc)
    } else {
        match loops_done(h, v, p, acc, branch, t, (n - 1) as nat) {
            Err(why) => Err(why),
            Ok(before) => unrolled(h, v, p, before, branch.loops@[n - 1], t.vars, t.consts),
        }
    }
}

proof fn lemma_rounds_done_stops(
    h: ReadingV,
    v: SumsV,
    p: HereV,
    acc: FlatV,
    l: ForEquation,
    vars: Worths,
    consts: Worths,
    values: Seq<Number>,
    n: nat,
    all: nat,
)
    requires
        n <= all <= values.len(),
        rounds_done(h, v, p, acc, l, vars, consts, values, n) is Err,
    ensures
        rounds_done(
            h,
            v,
            p,
            acc,
            l,
            vars,
            consts,
            values,
            all,
        ) == rounds_done(h, v, p, acc, l, vars, consts, values, n),
    decreases all,
{
    if n < all {
        lemma_rounds_done_stops(h, v, p, acc, l, vars, consts, values, n, (all - 1) as nat);
    }
}

proof fn lemma_lines_done_stops(
    h: ReadingV,
    v: SumsV,
    p: HereV,
    acc: FlatV,
    l: ForEquation,
    t: RoundV,
    n: nat,
    all: nat,
)
    requires
        n <= all <= l.body@.len(),
        lines_done(h, v, p, acc, l, t, n) is Err,
    ensures
        lines_done(h, v, p, acc, l, t, all) == lines_done(h, v, p, acc, l, t, n),
    decreases all,
{
    if n < all {
        lemma_lines_done_stops(h, v, p, acc, l, t, n, (all - 1) as nat);
    }
}

proof fn lemma_loops_done_stops(
    h: ReadingV,
    v: SumsV,
    p: HereV,
    acc: FlatV,
    branch: IfBranch,
    t: RoundV,
    n: nat,
    all: nat,
)
    requires
        n <= all <= branch.loops@.len(),
        loops_done(h, v, p, acc, branch, t, n) is Err,
    ensures
        loops_done(h, v, p, acc, branch, t, all) == loops_done(h, v, p, acc, branch, t, n),
    decreases all,
{
    if n < all {
        lemma_loops_done_stops(h, v, p, acc, branch, t, n, (all - 1) as nat);
    }
}

/// Unroll a `for` equation, going into nested loops. The loop variable is a
/// number known at compile time, so the body is given once per value with
/// every subscript already resolved.
pub fn unroll<
    A1: Fn(&Expr, bool) -> Expr,
    A2: Fn(&Expr, &Table<Number>, &Table<Number>, &Table<String>) -> Result<(Value, Vec<(Expr, String)>), String>,
    A3: Fn(Value, &Table<Number>, &Table<Number>, &Table<String>) -> Result<(Value, Vec<(Expr, String)>), String>,
    A4: Fn(&Value, &Value, &str) -> Result<Vec<EquationItem>, String>,
    A5: Fn(&Expr) -> String,
    A6: Fn(Option<&Expr>) -> String,
    A7: Fn(&Vec<&Statement>) -> Result<Ran, String>,
    A8: Fn(&ClassDef, &Vec<Expr>, &Vec<Vec<i64>>) -> Result<(Vec<(String, Expr)>, Vec<(Expr, String)>), String>,
    A9: Fn(&ClassDef, &Vec<Expr>, &Vec<Vec<i64>>) -> Result<(Vec<(Expr, String)>, Vec<(Expr, String)>), String>,
    B1: Fn(&str) -> bool,
    B2: Fn(&ClassDef) -> bool,
    W: Fn(Arith, Number, Number) -> Number,
    O: Fn(&str, &Vec<Number>) -> Option<Vec<Number>>,
    N: Fn(&str) -> String,
>(
    h: &Reading<A1, A2, A3, A4, A5, A6, A7, A8, A9, B1, B2>,
    sums: &Sums<W, O, N>,
    p: &Here,
    acc: Flat,
    l: &ForEquation,
    vars: &Table<Number>,
    consts: &Table<Number>,
) -> (r: Result<Flat, String>)
    requires
        reads_true(*h),
        is_steady(*sums),
        loop_laid_out(*l),
    ensures
        told(r) == unrolled(
            reading_of(*h),
            sums_of(*sums),
            p.deep_view(),
            acc.deep_view(),
            *l,
            vars.deep_view(),
            consts.deep_view(),
        ),
    decreases *l, 3int,
{
    let ghost hv = reading_of(*h);
    let ghost v = sums_of(*sums);
    let ghost pv = p.deep_view();
    let ghost vv = vars.deep_view();
    let under = prefix_all(consts, p.naming.prefix.as_str());
    let known = overlay(consts, &under);
    let ghost kv = known.deep_view();
    let ghost first = acc.deep_view();
    let (values, ready) = match find_range(h, sums, p, acc, l, vars, &known) {
        Ok(made) => made,
        Err(why) => return Err(why),
    };
    let ghost start = ready.deep_view();
    let mut now = ready;
    let mut i: usize = 0;
    while i < values.len()
        invariant
            i <= values.len(),
            reads_true(*h),
            is_steady(*sums),
            loop_laid_out(*l),
            hv == reading_of(*h),
            v == sums_of(*sums),
            pv == p.deep_view(),
            first == acc.deep_view(),
            vv == vars.deep_view(),
            kv == known.deep_view(),
            kv == overlaid(consts.deep_view(), all_prefixed(consts.deep_view(), pv.naming.prefix)),
            runs_over(hv, v, pv, first, *l, vv, kv) == Ok::<(Seq<Number>, FlatV), Seq<char>>(
                (values@, start),
            ),
            rounds_done(hv, v, pv, start, *l, vv, kv, values@, i as nat) == Ok::<
                FlatV,
                Seq<char>,
            >(now.deep_view()),
        decreases values.len() - i,
    {
        proof {
            if rounds_done(hv, v, pv, start, *l, vv, kv, values@, (i + 1) as nat) is Err {
                lemma_rounds_done_stops(
                    hv,
                    v,
                    pv,
                    start,
                    *l,
                    vv,
                    kv,
                    values@,
                    (i + 1) as nat,
                    values@.len(),
                );
            }
        }
        let none: Table<Number> = Table::new();
        let mut inner = overlay(vars, &none);
        assert(inner.deep_view() =~= vv);
        inner.put(l.variable.clone(), values[i]);
        let folded = fold_in(&inner);
        let same_consts = overlay(&known, &none);
        assert(same_consts.deep_view() =~= kv);
        let t = Round { folded, vars: inner, consts: same_consts, shadowed: false };
        assert(t.deep_view() == round_with(vv.insert(l.variable@, values@[i as int]), kv));
        match do_lines(h, sums, p, now, l, &t) {
            Err(why) => return Err(why),
            Ok(next) => {
                now = next;
            },
        }
        i = i + 1;
    }
    Ok(now)
}

fn do_lines<
    A1: Fn(&Expr, bool) -> Expr,
    A2: Fn(&Expr, &Table<Number>, &Table<Number>, &Table<String>) -> Result<(Value, Vec<(Expr, String)>), String>,
    A3: Fn(Value, &Table<Number>, &Table<Number>, &Table<String>) -> Result<(Value, Vec<(Expr, String)>), String>,
    A4: Fn(&Value, &Value, &str) -> Result<Vec<EquationItem>, String>,
    A5: Fn(&Expr) -> String,
    A6: Fn(Option<&Expr>) -> String,
    A7: Fn(&Vec<&Statement>) -> Result<Ran, String>,
    A8: Fn(&ClassDef, &Vec<Expr>, &Vec<Vec<i64>>) -> Result<(Vec<(String, Expr)>, Vec<(Expr, String)>), String>,
    A9: Fn(&ClassDef, &Vec<Expr>, &Vec<Vec<i64>>) -> Result<(Vec<(Expr, String)>, Vec<(Expr, String)>), String>,
    B1: Fn(&str) -> bool,
    B2: Fn(&ClassDef) -> bool,
    W: Fn(Arith, Number, Number) -> Number,
    O: Fn(&str, &Vec<Number>) -> Option<Vec<Number>>,
    N: Fn(&str) -> String,
>(
    h: &Reading<A1, A2, A3, A4, A5, A6, A7, A8, A9, B1, B2>,
    sums: &Sums<W, O, N>,
    p: &Here,
    acc: Flat,
    l: &ForEquation,
    t: &Round,
) -> (r: Result<Flat, String>)
    requires
        reads_true(*h),
        is_steady(*sums),
        loop_laid_out(*l),
    ensures
        told(r) == lines_done(
            reading_of(*h),
            sums_of(*sums),
            p.deep_view(),
            acc.deep_view(),
            *l,
            t.deep_view(),
            l.body@.len(),
        ),
    decreases *l, 1int,
{
    let ghost hv = reading_of(*h);
    let ghost v = sums_of(*sums);
    let ghost pv = p.deep_view();
    let ghost start = acc.deep_view();
    let ghost tv = t.deep_view();
    let mut now = acc;
    let mut i: usize = 0;
    while i < l.body.len()
        invariant
            i <= l.body.len(),
            reads_true(*h),
            is_steady(*sums),
            loop_laid_out(*l),
            hv == reading_of(*h),
            v == sums_of(*sums),
            pv == p.deep_view(),
            start == acc.deep_view(),
            tv == t.deep_view(),
            lines_done(hv, v, pv, start, *l, tv, i as nat) == Ok::<FlatV, Seq<char>>(
                now.deep_view(),
            ),
        decreases l.body.len() - i,
    {
        proof {
            if lines_done(hv, v, pv, start, *l, tv, (i + 1) as nat) is Err {
                lemma_lines_done_stops(
                    hv,
                    v,
                    pv,
                    start,
                    *l,
                    tv,
                    (i + 1) as nat,
                    l.body@.len(),
                );
            }
            assert(line_laid_out(l.body@[i as int]));
            assert(decreases_to!(*l => l.body@[i as int]));
        }
        match do_line(h, sums, p, now, &l.body[i], t) {
            Err(why) => return Err(why),
            Ok(next) => {
                now = next;
            },
        }
        i = i + 1;
    }
    Ok(now)
}

fn do_line<
    A1: Fn(&Expr, bool) -> Expr,
    A2: Fn(&Expr, &Table<Number>, &Table<Number>, &Table<String>) -> Result<(Value, Vec<(Expr, String)>), String>,
    A3: Fn(Value, &Table<Number>, &Table<Number>, &Table<String>) -> Result<(Value, Vec<(Expr, String)>), String>,
    A4: Fn(&Value, &Value, &str) -> Result<Vec<EquationItem>, String>,
    A5: Fn(&Expr) -> String,
    A6: Fn(Option<&Expr>) -> String,
    A7: Fn(&Vec<&Statement>) -> Result<Ran, String>,
    A8: Fn(&ClassDef, &Vec<Expr>, &Vec<Vec<i64>>) -> Result<(Vec<(String, Expr)>, Vec<(Expr, String)>), String>,
    A9: Fn(&ClassDef, &Vec<Expr>, &Vec<Vec<i64>>) -> Result<(Vec<(Expr, String)>, Vec<(Expr, String)>), String>,
    B1: Fn(&str) -> bool,
    B2: Fn(&ClassDef) -> bool,
    W: Fn(Arith, Number, Number) -> Number,
    O: Fn(&str, &Vec<Number>) -> Option<Vec<Number>>,
    N: Fn(&str) -> String,
>(
    h: &Reading<A1, A2, A3, A4, A5, A6, A7, A8, A9, B1, B2>,
    sums: &Sums<W, O, N>,
    p: &Here,
    acc: Flat,
    item: &ForBody,
    t: &Round,
) -> (r: Result<Flat, String>)
    requires
        reads_true(*h),
        is_steady(*sums),
        line_laid_out(*item),
    ensures
        told(r) == line_done(
            reading_of(*h),
            sums_of(*sums),
            p.deep_view(),
            acc.deep_view(),
            *item,
            t.deep_view(),
        ),
    decreases *item, 1int,
{
    match item {
        ForBody::Equation(equation) => push_equation(
            h,
            p,
            t,
            acc,
            &equation.lhs,
            &equation.rhs,
        ),
        ForBody::Connect(a, b) => push_link(h, p, t, acc, a, b),
        ForBody::Nested(inner) => unroll(h, sums, p, acc, inner, &t.vars, &t.consts),
        ForBody::Branch(held) => do_branch(h, sums, p, acc, held, t),
        ForBody::Assert(condition, message) => {
            let plain = put_into(h, t, condition);
            let named = prefix_expr(&plain, &p.naming);
            Ok(push_check(acc, named, message.clone()))
        },
    }
}

fn do_branch<
    A1: Fn(&Expr, bool) -> Expr,
    A2: Fn(&Expr, &Table<Number>, &Table<Number>, &Table<String>) -> Result<(Value, Vec<(Expr, String)>), String>,
    A3: Fn(Value, &Table<Number>, &Table<Number>, &Table<String>) -> Result<(Value, Vec<(Expr, String)>), String>,
    A4: Fn(&Value, &Value, &str) -> Result<Vec<EquationItem>, String>,
    A5: Fn(&Expr) -> String,
    A6: Fn(Option<&Expr>) -> String,
    A7: Fn(&Vec<&Statement>) -> Result<Ran, String>,
    A8: Fn(&ClassDef, &Vec<Expr>, &Vec<Vec<i64>>) -> Result<(Vec<(String, Expr)>, Vec<(Expr, String)>), String>,
    A9: Fn(&ClassDef, &Vec<Expr>, &Vec<Vec<i64>>) -> Result<(Vec<(Expr, String)>, Vec<(Expr, String)>), String>,
    B1: Fn(&str) -> bool,
    B2: Fn(&ClassDef) -> bool,
    W: Fn(Arith, Number, Number) -> Number,
    O: Fn(&str, &Vec<Number>) -> Option<Vec<Number>>,
    N: Fn(&str) -> String,
>(
    h: &Reading<A1, A2, A3, A4, A5, A6, A7, A8, A9, B1, B2>,
    sums: &Sums<W, O, N>,
    p: &Here,
    acc: Flat,
    held: &IfEquation,
    t: &Round,
) -> (r: Result<Flat, String>)
    requires
        reads_true(*h),
        is_steady(*sums),
        choice_laid_out(*held),
    ensures
        told(r) == branch_done(
            reading_of(*h),
            sums_of(*sums),
            p.deep_view(),
            acc.deep_view(),
            *held,
            t.deep_view(),
        ),
    decreases *held, 1int,
{
    let (list, more) = find_verdicts(h, sums, p, t, &acc, held);
    let acc = put_aside(acc, more);
    if !all_decided(&list) {
        if !acc.answered && asks_the_graph(held) {
            let mut acc = acc;
            acc.graph_asked = true;
            return Ok(acc);
        }
        assert(held.branches@.len() > 0) by {
            let at = choose|i: int| 0 <= i < list@.len() && #[trigger] list@[i] is Open;
            assert(list@.len() == held.branches@.len());
        }
        return push_conditional(h, p, t, acc, held, p.scope.as_str());
    }
    let at: usize = match find_taken(&list) {
        Some(at) => at,
        None => return Ok(acc),
    };
    let branch = &held.branches[at];
    if branch.whens.len() > 0 || branch.calls.len() > 0 || branch.graph.len() > 0 {
        return Err(
            join3(
                "a `when`, a call on its own or a `Connections` clause sits in an `if` inside a `for` in `",
                p.scope.as_str(),
                "`, and this compiler reads none of them there",
            ),
        );
    }
    let acc = match push_links(h, p, t, acc, &branch.connects) {
        Ok(acc) => acc,
        Err(why) => return Err(why),
    };
    proof {
        assert(branch_laid_out(held.branches@[at as int]));
        assert(decreases_to!(*held => held.branches@[at as int]));
    }
    let acc = match do_loops(h, sums, p, acc, branch, t) {
        Ok(acc) => acc,
        Err(why) => return Err(why),
    };
    let acc = match push_equations(h, p, t, acc, &branch.equations) {
        Ok(acc) => acc,
        Err(why) => return Err(why),
    };
    let none: Option<Expr> = None;
    push_guarded(h, p, t, acc, &none, &branch.asserts)
}

fn do_loops<
    A1: Fn(&Expr, bool) -> Expr,
    A2: Fn(&Expr, &Table<Number>, &Table<Number>, &Table<String>) -> Result<(Value, Vec<(Expr, String)>), String>,
    A3: Fn(Value, &Table<Number>, &Table<Number>, &Table<String>) -> Result<(Value, Vec<(Expr, String)>), String>,
    A4: Fn(&Value, &Value, &str) -> Result<Vec<EquationItem>, String>,
    A5: Fn(&Expr) -> String,
    A6: Fn(Option<&Expr>) -> String,
    A7: Fn(&Vec<&Statement>) -> Result<Ran, String>,
    A8: Fn(&ClassDef, &Vec<Expr>, &Vec<Vec<i64>>) -> Result<(Vec<(String, Expr)>, Vec<(Expr, String)>), String>,
    A9: Fn(&ClassDef, &Vec<Expr>, &Vec<Vec<i64>>) -> Result<(Vec<(Expr, String)>, Vec<(Expr, String)>), String>,
    B1: Fn(&str) -> bool,
    B2: Fn(&ClassDef) -> bool,
    W: Fn(Arith, Number, Number) -> Number,
    O: Fn(&str, &Vec<Number>) -> Option<Vec<Number>>,
    N: Fn(&str) -> String,
>(
    h: &Reading<A1, A2, A3, A4, A5, A6, A7, A8, A9, B1, B2>,
    sums: &Sums<W, O, N>,
    p: &Here,
    acc: Flat,
    branch: &IfBranch,
    t: &Round,
) -> (r: Result<Flat, String>)
    requires
        reads_true(*h),
        is_steady(*sums),
        branch_laid_out(*branch),
    ensures
        told(r) == loops_done(
            reading_of(*h),
            sums_of(*sums),
            p.deep_view(),
            acc.deep_view(),
            *branch,
            t.deep_view(),
            branch.loops@.len(),
        ),
    decreases *branch, 0int,
{
    let ghost hv = reading_of(*h);
    let ghost v = sums_of(*sums);
    let ghost pv = p.deep_view();
    let ghost start = acc.deep_view();
    let ghost tv = t.deep_view();
    let mut now = acc;
    let mut i: usize = 0;
    while i < branch.loops.len()
        invariant
            i <= branch.loops.len(),
            reads_true(*h),
            is_steady(*sums),
            branch_laid_out(*branch),
            hv == reading_of(*h),
            v == sums_of(*sums),
            pv == p.deep_view(),
            start == acc.deep_view(),
            tv == t.deep_view(),
            loops_done(hv, v, pv, start, *branch, tv, i as nat) == Ok::<FlatV, Seq<char>>(
                now.deep_view(),
            ),
        decreases branch.loops.len() - i,
    {
        proof {
            if loops_done(hv, v, pv, start, *branch, tv, (i + 1) as nat) is Err {
                lemma_loops_done_stops(
                    hv,
                    v,
                    pv,
                    start,
                    *branch,
                    tv,
                    (i + 1) as nat,
                    branch.loops@.len(),
                );
            }
            assert(loop_laid_out(branch.loops@[i as int]));
            assert(decreases_to!(*branch => branch.loops@[i as int]));
        }
        match unroll(h, sums, p, now, &branch.loops[i], &t.vars, &t.consts) {
            Err(why) => return Err(why),
            Ok(next) => {
                now = next;
            },
        }
        i = i + 1;
    }
    Ok(now)
}

proof fn lemma_no_odd(branches: Seq<Seq<EquationV>>, wanted: nat, i: nat, k: int)
    requires
        first_odd(branches, wanted, i) is None,
        i <= k < branches.len(),
    ensures
        branches[k].len() == wanted,
    decreases branches.len() - i,
{
    if i < k {
        lemma_no_odd(branches, wanted, i + 1, k);
    }
}

proof fn lemma_checks_keep(
    h: ReadingV,
    p: HereV,
    t: RoundV,
    acc: FlatV,
    guard: Option<ExprV>,
    list: Seq<(Expr, String)>,
    n: nat,
)
    requires
        with_guarded(h, p, t, acc, guard, list, n) is Ok,
    ensures
        with_guarded(h, p, t, acc, guard, list, n)->Ok_0.conditional == acc.conditional,
    decreases n,
{
    if n > 0 && n <= list.len() {
        lemma_checks_keep(h, p, t, acc, guard, list, (n - 1) as nat);
    }
}

proof fn lemma_scalars_keep(
    h: ReadingV,
    p: HereV,
    t: RoundV,
    acc: FlatV,
    class: Seq<char>,
    origin: Seq<char>,
    list: Seq<EquationItem>,
    n: nat,
)
    ensures
        branch_scalars(h, p, t, acc, class, origin, list, n) matches Ok(made) ==> keeps_checks(
            acc,
            made.1,
        ) && made.1.conditional == acc.conditional,
    decreases n,
{
    if n > 0 && n <= list.len() {
        lemma_scalars_keep(h, p, t, acc, class, origin, list, (n - 1) as nat);
    }
}

pub proof fn lemma_branches_keep(
    h: ReadingV,
    p: HereV,
    t: RoundV,
    acc: FlatV,
    class: Seq<char>,
    origin: Seq<char>,
    list: Seq<IfBranch>,
    n: nat,
)
    ensures
        branches_read(h, p, t, acc, class, origin, list, n) matches Ok(made) ==> keeps_checks(
            acc,
            made.1,
        ) && made.1.conditional == acc.conditional,
    decreases n,
{
    if n > 0 && n <= list.len() {
        lemma_branches_keep(h, p, t, acc, class, origin, list, (n - 1) as nat);
        if let Ok((before, mid)) = branches_read(
            h,
            p,
            t,
            acc,
            class,
            origin,
            list,
            (n - 1) as nat,
        ) {
            let here = list[n - 1];
            lemma_scalars_keep(
                h,
                p,
                t,
                mid,
                class,
                origin,
                here.equations@,
                here.equations@.len(),
            );
            if let Some(condition) = here.condition {
                if let Ok((e, after)) = one_in(h, p, t, mid, condition.deep_view()) {
                    lemma_scalars_keep(
                        h,
                        p,
                        t,
                        after,
                        class,
                        origin,
                        here.equations@,
                        here.equations@.len(),
                    );
                }
            }
        }
    }
}

proof fn lemma_branch_checks_keep(
    h: ReadingV,
    p: HereV,
    t: RoundV,
    acc: FlatV,
    conditions: Seq<ExprV>,
    list: Seq<IfBranch>,
    n: nat,
)
    requires
        with_branch_checks(h, p, t, acc, conditions, list, n) is Ok,
    ensures
        with_branch_checks(h, p, t, acc, conditions, list, n)->Ok_0.conditional
            == acc.conditional,
    decreases n,
{
    if n > 0 && n <= list.len() {
        lemma_branch_checks_keep(h, p, t, acc, conditions, list, (n - 1) as nat);
        let before = with_branch_checks(h, p, t, acc, conditions, list, (n - 1) as nat)->Ok_0;
        lemma_checks_keep(
            h,
            p,
            t,
            before,
            guard_of(conditions, (n - 1) as nat),
            list[n - 1].asserts@,
            list[n - 1].asserts@.len(),
        );
    }
}

/// An `if` that only the run decides is balanced: every branch of what is
/// recorded holds as many equations as the first, so the model has one
/// equation per position however the condition falls.
pub proof fn law_branches_balance(
    h: ReadingV,
    p: HereV,
    t: RoundV,
    acc: FlatV,
    held: IfEquation,
    class: Seq<char>,
    k: int,
)
    requires
        with_conditional(h, p, t, acc, held, class) is Ok,
        0 <= k < held.branches@.len(),
    ensures
        ({
            let made = with_conditional(h, p, t, acc, held, class)->Ok_0.conditional;
            &&& made.len() == acc.conditional.len() + 1
            &&& made.last().branches.len() == held.branches@.len()
            &&& made.last().branches[k].len() == made.last().branches[0].len()
        }),
{
    let n = held.branches@.len();
    let (read, after) = branches_read(h, p, t, acc, class, acc.origin, held.branches@, n)->Ok_0;
    lemma_as_many_branches(h, p, t, acc, class, acc.origin, held.branches@, n);
    lemma_no_odd(read.branches, read.branches[0].len(), 0, k);
    lemma_branches_keep(h, p, t, acc, class, acc.origin, held.branches@, n);
    lemma_branch_checks_keep(h, p, t, after, read.conditions, held.branches@, n);
}

}
