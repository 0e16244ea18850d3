//! What an event gives a variable that an `if` at the event speaks of.
use crate::equations::{given_to, value_chosen, GivenBranchV};
use crate::expr::ExprV;
use crate::meaning::{holds, looks_back_at, worth, Moment};
use vstd::prelude::*;

verus! {

/// Whether a branch is the first whose condition holds; one without a condition
/// holds always.
pub open spec fn is_taken(branches: Seq<GivenBranchV>, i: int, m: Moment) -> bool {
    &&& 0 <= i < branches.len()
    &&& branches[i].0 matches Some(condition) ==> holds(condition, m)
    &&& forall|j: int| 0 <= j < i ==> is_passed(#[trigger] branches[j], m)
}

pub open spec fn is_passed(branch: GivenBranchV, m: Moment) -> bool {
    branch.0 matches Some(condition) && !holds(condition, m)
}

/// Whether a branch gives a variable a value, and gave it none before.
pub open spec fn is_given_first(branch: GivenBranchV, target: Seq<char>, k: int) -> bool {
    &&& 0 <= k < branch.1.len()
    &&& branch.1[k].0 == target
    &&& forall|j: int| 0 <= j < k ==> (#[trigger] branch.1[j]).0 != target
}

proof fn lemma_given(branch: GivenBranchV, target: Seq<char>, from: nat, k: int)
    requires
        from <= k,
        is_given_first(branch, target, k),
    ensures
        given_to(branch.1, target, from) == Some(branch.1[k].1),
    decreases k - from,
{
    if from < k {
        lemma_given(branch, target, from + 1, k);
    }
}

proof fn lemma_not_given(branch: GivenBranchV, target: Seq<char>, from: nat)
    requires
        forall|j: int| 0 <= j < branch.1.len() ==> (#[trigger] branch.1[j]).0 != target,
    ensures
        given_to(branch.1, target, from) is None,
    decreases branch.1.len() - from,
{
    if from < branch.1.len() {
        lemma_not_given(branch, target, from + 1);
    }
}

proof fn lemma_kept(target: Seq<char>, m: Moment)
    ensures
        worth(ExprV::Call("pre"@, seq![ExprV::Ref(target)]), m) == (m.before)(target),
{
    let args = seq![ExprV::Ref(target)];
    assert(args.len() == 1 && args[0] == ExprV::Ref(target));
    assert(looks_back_at("pre"@, args) == Some(target));
}

proof fn lemma_taken(
    branches: Seq<GivenBranchV>,
    target: Seq<char>,
    from: nat,
    i: int,
    m: Moment,
)
    requires
        is_taken(branches, i, m),
        from <= i,
    ensures
        worth(value_chosen(branches, target, from), m) == match given_to(
            branches[i].1,
            target,
            0,
        ) {
            Some(value) => worth(value, m),
            None => (m.before)(target),
        },
    decreases i - from,
{
    lemma_kept(target, m);
    if from < i {
        assert(is_passed(branches[from as int], m));
        lemma_taken(branches, target, from + 1, i, m);
    }
    if let Some(condition) = branches[from as int].0 {
        let later = value_chosen(branches, target, from + 1);
        let value = match given_to(branches[from as int].1, target, 0) {
            None => ExprV::Call("pre"@, seq![ExprV::Ref(target)]),
            Some(value) => value,
        };
        let whole = ExprV::If(Box::new(condition), Box::new(value), Box::new(later));
        assert(worth(whole, m) == if holds(condition, m) {
            worth(value, m)
        } else {
            worth(later, m)
        });
    }
}

proof fn lemma_none_taken(
    branches: Seq<GivenBranchV>,
    target: Seq<char>,
    from: nat,
    m: Moment,
)
    requires
        from <= branches.len(),
        forall|j: int| 0 <= j < branches.len() ==> is_passed(#[trigger] branches[j], m),
    ensures
        worth(value_chosen(branches, target, from), m) == (m.before)(target),
    decreases branches.len() - from,
{
    lemma_kept(target, m);
    if from < branches.len() {
        assert(is_passed(branches[from as int], m));
        lemma_none_taken(branches, target, from + 1, m);
        let later = value_chosen(branches, target, from + 1);
        let condition = branches[from as int].0->0;
        let value = match given_to(branches[from as int].1, target, 0) {
            None => ExprV::Call("pre"@, seq![ExprV::Ref(target)]),
            Some(value) => value,
        };
        let whole = ExprV::If(Box::new(condition), Box::new(value), Box::new(later));
        assert(worth(whole, m) == worth(later, m));
    }
}

/// At an event a variable takes the value of the first branch whose condition
/// holds, and keeps what it had where that branch says nothing of it or where no
/// condition holds.
pub proof fn law_an_event_gives_the_value_of_the_first_branch_that_holds(
    branches: Seq<GivenBranchV>,
    target: Seq<char>,
    m: Moment,
)
    ensures
        forall|i: int, k: int|
            #![trigger is_taken(branches, i, m), is_given_first(branches[i], target, k)]
            is_taken(branches, i, m) && is_given_first(branches[i], target, k) ==> worth(
                value_chosen(branches, target, 0),
                m,
            ) == worth(branches[i].1[k].1, m),
        forall|i: int| #[trigger]
            is_taken(branches, i, m) && (forall|j: int|
                0 <= j < branches[i].1.len() ==> (#[trigger] branches[i].1[j]).0 != target) ==> worth(
                value_chosen(branches, target, 0),
                m,
            ) == (m.before)(target),
        (forall|j: int| 0 <= j < branches.len() ==> is_passed(#[trigger] branches[j], m)) ==> worth(
            value_chosen(branches, target, 0),
            m,
        ) == (m.before)(target),
{
    assert forall|i: int, k: int|
        #![trigger is_taken(branches, i, m), is_given_first(branches[i], target, k)]
        is_taken(branches, i, m) && is_given_first(branches[i], target, k) implies worth(
        value_chosen(branches, target, 0),
        m,
    ) == worth(branches[i].1[k].1, m) by {
        lemma_taken(branches, target, 0, i, m);
        lemma_given(branches[i], target, 0, k);
    }
    assert forall|i: int| #[trigger]
        is_taken(branches, i, m) && (forall|j: int|
            0 <= j < branches[i].1.len() ==> (#[trigger] branches[i].1[j]).0 != target) implies worth(
        value_chosen(branches, target, 0),
        m,
    ) == (m.before)(target) by {
        lemma_taken(branches, target, 0, i, m);
        lemma_not_given(branches[i], target, 0);
    }
    if forall|j: int| 0 <= j < branches.len() ==> is_passed(#[trigger] branches[j], m) {
        lemma_none_taken(branches, target, 0, m);
    }
}

}
