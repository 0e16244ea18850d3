//! Which branch of a choice is the one taken, and what the checks written in it
//! ask; and what a reduction over an array comes to.
use crate::expr::ExprV;
use crate::meaning::{holds, larger_real, looks_back_at, smaller_real, worth, Moment};
use crate::number::zero;
use crate::rounds::{denied, guard_of, guarded, taken_from, Verdict};
use crate::slices::{combined, reduced};
use vstd::prelude::*;

verus! {

/// Whether the branch at a position is the one taken: its own condition holds,
/// where it has one, and none before it does.
pub open spec fn is_chosen(conditions: Seq<ExprV>, position: nat, m: Moment) -> bool {
    &&& forall|i: int| 0 <= i < position && i < conditions.len() ==> !holds(#[trigger] conditions[i], m)
    &&& position < conditions.len() ==> holds(conditions[position as int], m)
}

proof fn lemma_denied(conditions: Seq<ExprV>, n: nat, m: Moment)
    requires
        n <= conditions.len(),
    ensures
        denied(conditions, n) is None <==> n == 0,
        denied(conditions, n) matches Some(e) ==> (holds(e, m) <==> forall|i: int|
            0 <= i < n ==> !holds(#[trigger] conditions[i], m)),
    decreases n,
{
    if n > 0 {
        let less = (n - 1) as nat;
        lemma_denied(conditions, less, m);
        let own = conditions[n - 1];
        let not = ExprV::Not(Box::new(own));
        assert(holds(not, m) == !holds(own, m));
        match denied(conditions, less) {
            Some(before) => {
                let all = ExprV::And(Box::new(before), Box::new(not));
                assert(holds(all, m) == (holds(before, m) && holds(not, m)));
            },
            None => {},
        }
    }
}

/// A check written in a branch asks its condition where that branch is the one
/// taken, and nothing where it is not.
pub proof fn law_a_check_in_a_branch_asks_where_the_branch_is_taken(
    conditions: Seq<ExprV>,
    position: nat,
    condition: ExprV,
    m: Moment,
)
    ensures
        holds(guarded(guard_of(conditions, position), condition), m) <==> (is_chosen(
            conditions,
            position,
            m,
        ) ==> holds(condition, m)),
{
    let n = if position < conditions.len() {
        position
    } else {
        conditions.len()
    };
    lemma_denied(conditions, n, m);
    let before = denied(conditions, n);
    let guard = guard_of(conditions, position);
    if position < conditions.len() {
        let own = conditions[position as int];
        if let Some(built) = before {
            let all = ExprV::And(Box::new(built), Box::new(own));
            assert(holds(all, m) == (holds(built, m) && holds(own, m)));
            assert(guard == Some(all));
        } else {
            assert(guard == Some(own));
        }
    }
    assert(guard matches Some(g) ==> holds(g, m) == is_chosen(conditions, position, m));
    if let Some(g) = guard {
        let not = ExprV::Not(Box::new(g));
        assert(holds(not, m) == !holds(g, m));
        assert(holds(ExprV::Or(Box::new(not), Box::new(condition)), m) == (holds(not, m) || holds(
            condition,
            m,
        )));
    }
}

/// Whether a branch is known to hold: it has no condition, or its condition came to
/// something other than nothing.
pub open spec fn is_known_to_hold(verdict: Verdict) -> bool {
    match verdict {
        Verdict::Always => true,
        Verdict::Worth(value) => !value.is_nought(),
        Verdict::Open => false,
    }
}

proof fn lemma_first(list: Seq<Verdict>, from: nat)
    requires
        forall|i: int| 0 <= i < list.len() ==> !(#[trigger] list[i] is Open),
    ensures
        match taken_from(list, from) {
            Some(k) => from <= k < list.len() && is_known_to_hold(list[k as int]) && forall|i: int|
                from <= i < k ==> !is_known_to_hold(#[trigger] list[i]),
            None => forall|i: int| from <= i < list.len() ==> !is_known_to_hold(#[trigger] list[i]),
        },
    decreases list.len() - from,
{
    if from < list.len() {
        lemma_first(list, from + 1);
        let here = list[from as int];
        if let Verdict::Worth(value) = here {
            assert(value.level(zero()) <==> value.is_nought());
        }
    }
}

/// A choice that is settled before the run takes the first branch that holds.
pub proof fn law_the_first_branch_that_holds_is_taken(list: Seq<Verdict>)
    requires
        forall|i: int| 0 <= i < list.len() ==> !(#[trigger] list[i] is Open),
    ensures
        match taken_from(list, 0) {
            Some(k) => k < list.len() && is_known_to_hold(list[k as int]) && forall|i: int|
                0 <= i < k ==> !is_known_to_hold(#[trigger] list[i]),
            None => forall|i: int| 0 <= i < list.len() ==> !is_known_to_hold(#[trigger] list[i]),
        },
{
    lemma_first(list, 0);
}

/// What a list of values adds up to.
pub open spec fn added_up(items: Seq<ExprV>, m: Moment) -> real
    decreases items.len(),
{
    if items.len() == 0 {
        0 as real
    } else {
        added_up(items.drop_last(), m) + worth(items.last(), m)
    }
}

/// `sum` is what the elements add up to.
pub proof fn law_a_sum_is_what_the_elements_add_up_to(items: Seq<ExprV>, m: Moment)
    requires
        items.len() > 0,
    ensures
        worth(reduced("sum"@, items), m) == added_up(items, m),
    decreases items.len(),
{
    let short = items.drop_last();
    if items.len() == 1 {
        assert(added_up(short, m) == 0 as real);
    } else {
        law_a_sum_is_what_the_elements_add_up_to(short, m);
        let before = reduced("sum"@, short);
        assert(worth(combined("sum"@, before, items.last()), m) == worth(before, m) + worth(
            items.last(),
            m,
        ));
    }
}

/// `max` is worth one of the elements, and none is worth more; `min` is worth one
/// of them, and none is worth less.
pub proof fn law_an_extreme_is_the_outermost_element(items: Seq<ExprV>, m: Moment)
    requires
        items.len() > 0,
    ensures
        exists|i: int| 0 <= i < items.len() && worth(reduced("max"@, items), m) == worth(#[trigger] items[i], m),
        forall|i: int| 0 <= i < items.len() ==> worth(#[trigger] items[i], m) <= worth(reduced("max"@, items), m),
        exists|i: int| 0 <= i < items.len() && worth(reduced("min"@, items), m) == worth(#[trigger] items[i], m),
        forall|i: int| 0 <= i < items.len() ==> worth(#[trigger] items[i], m) >= worth(reduced("min"@, items), m),
    decreases items.len(),
{
    let short = items.drop_last();
    if items.len() == 1 {
        assert(worth(reduced("max"@, items), m) == worth(items[0], m));
        assert(worth(reduced("min"@, items), m) == worth(items[0], m));
    } else {
        law_an_extreme_is_the_outermost_element(short, m);
        reveal_strlit("max");
        reveal_strlit("min");
        reveal_strlit("sum");
        reveal_strlit("previous");
        reveal_strlit("pre");
        assert("max"@[1] == 'a' && "min"@[1] == 'i' && "sum"@[1] == 'u');
        assert("max"@[0] == 'm' && "min"@[0] == 'm' && "pre"@[0] == 'p' && "previous"@[0] == 'p');
        let last = items.last();
        let most = reduced("max"@, short);
        let least = reduced("min"@, short);
        let a = seq![most, last];
        let b = seq![least, last];
        assert(a.len() == 2 && b.len() == 2 && a[0] == most && a[1] == last && b[0] == least && b[1]
            == last);
        assert(looks_back_at("max"@, a) is None && looks_back_at("min"@, b) is None);
        assert(worth(ExprV::Call("max"@, a), m) == larger_real(worth(most, m), worth(last, m)));
        assert(worth(ExprV::Call("min"@, b), m) == smaller_real(worth(least, m), worth(last, m)));
        assert(reduced("max"@, items) == ExprV::Call("max"@, a));
        assert(reduced("min"@, items) == ExprV::Call("min"@, b));
        let i = choose|i: int|
            0 <= i < short.len() && worth(most, m) == worth(#[trigger] short[i], m);
        let j = choose|j: int|
            0 <= j < short.len() && worth(least, m) == worth(#[trigger] short[j], m);
        assert(items[i] == short[i] && items[j] == short[j]);
        assert(items[items.len() - 1] == last);
        assert forall|k: int| 0 <= k < items.len() implies worth(#[trigger] items[k], m) <= worth(
            reduced("max"@, items),
            m,
        ) && worth(items[k], m) >= worth(reduced("min"@, items), m) by {
            if k < short.len() {
                assert(items[k] == short[k]);
            }
        }
    }
}

}
