//! What repeating comes to: the rounds of a loop, and an operator worked on each
//! record of an array.
use crate::class::{ClassDef, ClassKind, ForEquation};
use crate::expr::ExprV;
use crate::flat::FlatV;
use crate::folding::Worths;
use crate::lookup::class_named;
use crate::meaning::{holds, real_of, worth, Moment};
use crate::names::substituted;
use crate::number::Number;
use crate::operators::{each_worked, least_inside, takes_so_many, OperandV};
use crate::reading::{HereV, ReadingV};
use crate::renaming::{law_what_is_put_for_a_name_is_what_it_holds, seen_through, tells_truth};
use crate::rounds::{folded_of, lines_done, round_with, rounds_done};
use crate::running::{is_quantity, is_truth};
use crate::sums::SumsV;
use crate::text::{begins_with, law_text_order, precedes};
use crate::value::ValueV;
use vstd::prelude::*;

verus! {

proof fn lemma_prefix_rounds(
    h: ReadingV,
    v: SumsV,
    p: HereV,
    acc: FlatV,
    l: ForEquation,
    vars: Worths,
    consts: Worths,
    values: Seq<Number>,
    more: Seq<Number>,
    n: nat,
)
    requires
        n <= values.len(),
    ensures
        rounds_done(h, v, p, acc, l, vars, consts, values + more, n) == rounds_done(
            h,
            v,
            p,
            acc,
            l,
            vars,
            consts,
            values,
            n,
        ),
    decreases n,
{
    if n > 0 {
        lemma_prefix_rounds(h, v, p, acc, l, vars, consts, values, more, (n - 1) as nat);
        assert((values + more)[n - 1] == values[n - 1]);
    }
}

/// A loop runs over its values in order: over two lists one after the other it does
/// what it does over the first and then, from there, over the second.
pub proof fn law_a_loop_runs_over_its_values_in_order(
    h: ReadingV,
    v: SumsV,
    p: HereV,
    acc: FlatV,
    l: ForEquation,
    vars: Worths,
    consts: Worths,
    first: Seq<Number>,
    second: Seq<Number>,
    n: nat,
)
    requires
        n <= second.len(),
    ensures
        rounds_done(h, v, p, acc, l, vars, consts, first + second, first.len() + n) == match rounds_done(
            h,
            v,
            p,
            acc,
            l,
            vars,
            consts,
            first,
            first.len(),
        ) {
            Err(why) => Err(why),
            Ok(after) => rounds_done(h, v, p, after, l, vars, consts, second, n),
        },
    decreases n,
{
    if n == 0 {
        lemma_prefix_rounds(h, v, p, acc, l, vars, consts, first, second, first.len());
    } else {
        law_a_loop_runs_over_its_values_in_order(
            h,
            v,
            p,
            acc,
            l,
            vars,
            consts,
            first,
            second,
            (n - 1) as nat,
        );
        assert((first + second)[first.len() + n - 1] == second[n - 1]);
    }
}

/// A loop over one value reads its lines once, with that value for its variable,
/// and a loop over none reads nothing.
pub proof fn law_a_loop_over_one_value_is_one_round(
    h: ReadingV,
    v: SumsV,
    p: HereV,
    acc: FlatV,
    l: ForEquation,
    vars: Worths,
    consts: Worths,
    value: Number,
)
    ensures
        rounds_done(h, v, p, acc, l, vars, consts, Seq::empty(), 0) == Ok::<FlatV, Seq<char>>(acc),
        rounds_done(h, v, p, acc, l, vars, consts, seq![value], 1) == lines_done(
            h,
            v,
            p,
            acc,
            l,
            round_with(vars.insert(l.variable@, value), consts),
            l.body@.len(),
        ),
{
    assert(seq![value][0] == value);
    assert(rounds_done(h, v, p, acc, l, vars, consts, seq![value], 0) == Ok::<FlatV, Seq<char>>(
        acc,
    ));
}

/// The moment in which the variables of the loops hold their values.
pub open spec fn in_round(vars: Worths, m: Moment) -> Moment {
    Moment {
        now: |name: Seq<char>|
            if vars.contains_key(name) {
                real_of(vars[name])
            } else {
                (m.now)(name)
            },
        ..m
    }
}

/// What a round puts into its lines makes each of them worth what it is where the
/// loop's variables hold their values and a number that is put where a truth is
/// asked for is true where it is not nothing.
pub proof fn law_a_loop_variable_is_worth_its_value(
    e: ExprV,
    vars: Worths,
    consts: Worths,
    m: Moment,
)
    requires
        tells_truth(folded_of(vars), m),
    ensures
        is_quantity(e) ==> worth(substituted(e, round_with(vars, consts).folded), m) == worth(
            e,
            in_round(vars, m),
        ),
        is_truth(e) ==> holds(substituted(e, round_with(vars, consts).folded), m) == holds(
            e,
            in_round(vars, m),
        ),
{
    let map = folded_of(vars);
    law_what_is_put_for_a_name_is_what_it_holds(e, map, m);
    let a = seen_through(map, m);
    let b = in_round(vars, m);
    assert(a.now =~= b.now) by {
        assert forall|name: Seq<char>| #[trigger] (a.now)(name) == (b.now)(name) by {
            assert(map.contains_key(name) == vars.contains_key(name));
            if vars.contains_key(name) {
                assert(map[name] == ExprV::Number(vars[name]));
                assert(worth(map[name], m) == real_of(vars[name]));
            }
        }
    }
    assert(a == b);
}

/// Whether a value is what an operator comes to on the records at one place of
/// arrays.
pub open spec fn is_worked_at(
    k: OperandV,
    values: Seq<ValueV>,
    many: usize,
    at: int,
    value: ValueV,
) -> bool {
    (k.h.each)(values, many, at as usize) matches Ok(one) && (k.h.again)(k.symbol, one, k.depth)
        == Ok::<ValueV, Seq<char>>(value)
}

/// An operator on arrays of records is worked on the records at each place, and
/// what it comes to stands at that place.
pub proof fn law_an_operator_on_arrays_is_worked_place_by_place(
    k: OperandV,
    values: Seq<ValueV>,
    many: usize,
    n: nat,
)
    ensures
        each_worked(k, values, many, n) matches Ok(items) ==> items.len() == n && forall|i: int|
            0 <= i < n ==> is_worked_at(k, values, many, i, #[trigger] items[i]),
    decreases n,
{
    if n > 0 {
        let less = (n - 1) as nat;
        law_an_operator_on_arrays_is_worked_place_by_place(k, values, many, less);
        if let Ok(items) = each_worked(k, values, many, n) {
            let before = each_worked(k, values, many, less)->Ok_0;
            assert forall|i: int| 0 <= i < n implies is_worked_at(
                k,
                values,
                many,
                i,
                #[trigger] items[i],
            ) by {
                if i < less {
                    assert(items[i] == before[i]);
                }
            }
        }
    }
}

/// Whether a class is a function under a prefix that takes so many arguments.
pub open spec fn is_offered(
    classes: Seq<&ClassDef>,
    prefix: Seq<char>,
    arity: nat,
    i: int,
    class: ClassDef,
) -> bool {
    &&& 0 <= i < classes.len()
    &&& class_named(classes, classes[i].name@) == Some(class)
    &&& begins_with(class.name@, prefix)
    &&& class.kind == ClassKind::Function
    &&& takes_so_many(classes, class, arity)
}

proof fn lemma_least(classes: Seq<&ClassDef>, prefix: Seq<char>, arity: nat, n: nat)
    requires
        n <= classes.len(),
    ensures
        match least_inside(classes, prefix, arity, n) {
            Some(best) => (exists|i: int| #[trigger]
                is_offered(classes, prefix, arity, i, best)) && forall|i: int, other: ClassDef|
                i < n && #[trigger] is_offered(classes, prefix, arity, i, other) ==> !precedes(
                    other.name@,
                    best.name@,
                ),
            None => forall|i: int, other: ClassDef|
                i < n ==> !#[trigger] is_offered(classes, prefix, arity, i, other),
        },
    decreases n,
{
    if n > 0 {
        let less = (n - 1) as nat;
        let at: int = less as int;
        lemma_least(classes, prefix, arity, less);
        let before = least_inside(classes, prefix, arity, less);
        if let Some(class) = class_named(classes, classes[at].name@) {
            law_text_order(class.name@, class.name@, class.name@);
            if is_offered(classes, prefix, arity, at, class) {
                if let Some(best) = before {
                    assert forall|i: int, other: ClassDef|
                        i < n && #[trigger] is_offered(classes, prefix, arity, i, other)
                            && precedes(class.name@, best.name@) implies !precedes(
                        other.name@,
                        class.name@,
                    ) by {
                        law_text_order(other.name@, class.name@, best.name@);
                    }
                }
            }
        }
    }
}

/// Of the functions that a record offers for an operator under names of their own,
/// the one meant is the first by name of those that take so many arguments.
pub proof fn law_the_function_meant_is_the_first_by_name(
    classes: Seq<&ClassDef>,
    prefix: Seq<char>,
    arity: nat,
)
    ensures
        match least_inside(classes, prefix, arity, classes.len()) {
            Some(best) => (exists|i: int| #[trigger]
                is_offered(classes, prefix, arity, i, best)) && forall|i: int, other: ClassDef|
                 #[trigger]
                is_offered(classes, prefix, arity, i, other) ==> !precedes(other.name@, best.name@),
            None => forall|i: int, other: ClassDef|
                !#[trigger] is_offered(classes, prefix, arity, i, other),
        },
{
    lemma_least(classes, prefix, arity, classes.len());
}

}
