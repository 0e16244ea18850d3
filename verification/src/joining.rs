//! What connecting comes to while the model runs: what is common to the connectors
//! of a set is the same in all of them, and what flows into one flows out of the
//! others.
use crate::class::{ClassDef, EquationV, Variability};
use crate::expr::ExprV;
use crate::joins::{
    called, class_at, held_at, made, member_equations, members_equations, output_from,
    set_equations, source_of, taken_from, MemberV,
};
use crate::meaning::{lemma_zero, worth, Moment};
use crate::number::zero;
use crate::streams::summed;
use crate::text::dotted;
use vstd::prelude::*;

verus! {

/// Whether the two sides of an equation are worth the same.
pub open spec fn is_met(e: EquationV, m: Moment) -> bool {
    worth(e.lhs, m) == worth(e.rhs, m)
}

pub open spec fn are_met(list: Seq<EquationV>, m: Moment) -> bool {
    forall|i: int| 0 <= i < list.len() ==> is_met(#[trigger] list[i], m)
}

/// What flows into all the connectors of a set together.
pub open spec fn flowing_into(set: Seq<Seq<char>>, member: Seq<char>, m: Moment) -> real
    decreases set.len(),
{
    if set.len() == 0 {
        0 as real
    } else {
        flowing_into(set.drop_last(), member, m) + (m.now)(dotted(set.last(), member))
    }
}

/// Whether every connector of a set holds the same.
pub open spec fn is_shared(set: Seq<Seq<char>>, member: Seq<char>, m: Moment) -> bool {
    forall|i: int, j: int|
        0 <= i < set.len() && 0 <= j < set.len() ==> (m.now)(dotted(#[trigger] set[i], member)) == (
        m.now)(dotted(#[trigger] set[j], member))
}

/// Whether a member varies while the model runs and is no stream.
pub open spec fn is_joined(member: MemberV) -> bool {
    !member.stream && (member.variability == Variability::Continuous || member.variability
        == Variability::Discrete)
}

/// Whether a member of the connectors of a set is as it should be: a flow adds up
/// to nothing, and anything else is shared.
pub open spec fn is_balanced(set: Seq<Seq<char>>, member: MemberV, m: Moment) -> bool {
    is_joined(member) ==> if member.flow {
        flowing_into(set, member.name, m) == 0 as real
    } else {
        is_shared(set, member.name, m)
    }
}

proof fn lemma_flowing(set: Seq<Seq<char>>, member: Seq<char>, m: Moment)
    requires
        set.len() > 0,
    ensures
        worth(summed(called(set, member)), m) == flowing_into(set, member, m),
    decreases set.len(),
{
    let terms = called(set, member);
    let short = set.drop_last();
    let last = ExprV::Ref(dotted(set.last(), member));
    assert(terms.last() == last);
    assert(worth(last, m) == (m.now)(dotted(set.last(), member)));
    if set.len() == 1 {
        assert(terms[0] == last);
        assert(flowing_into(short, member, m) == 0 as real);
    } else {
        assert(terms.drop_last() =~= called(short, member));
        lemma_flowing(short, member, m);
        let before = summed(called(short, member));
        assert(worth(summed(terms), m) == worth(before, m) + worth(last, m));
    }
}

proof fn lemma_member(set: Seq<Seq<char>>, member: MemberV, m: Moment)
    requires
        set.len() > 0,
    ensures
        are_met(member_equations(set, member), m) == is_balanced(set, member, m),
{
    let list = member_equations(set, member);
    lemma_zero();
    if is_joined(member) {
        if member.flow {
            lemma_flowing(set, member.name, m);
            let none = ExprV::Number(zero());
            assert(worth(none, m) == 0 as real);
            assert(list.len() == 1 && list[0] == made(summed(called(set, member.name)), none));
        } else {
            let name = member.name;
            let first = ExprV::Ref(dotted(set[0], name));
            assert(worth(first, m) == (m.now)(dotted(set[0], name)));
            assert forall|i: int| 0 <= i < list.len() implies is_met(#[trigger] list[i], m) == ((
            m.now)(dotted(set[i + 1], name)) == (m.now)(dotted(set[0], name))) by {
                assert(worth(ExprV::Ref(dotted(set[i + 1], name)), m) == (m.now)(
                    dotted(set[i + 1], name),
                ));
            }
            if are_met(list, m) {
                assert forall|i: int| 0 <= i < set.len() implies (m.now)(
                    dotted(#[trigger] set[i], name),
                ) == (m.now)(dotted(set[0], name)) by {
                    if i > 0 {
                        assert(is_met(list[i - 1], m));
                    }
                }
            }
        }
    } else {
        assert(list.len() == 0);
    }
}

proof fn lemma_members(set: Seq<Seq<char>>, held: Seq<MemberV>, n: nat, m: Moment)
    requires
        set.len() > 0,
        n <= held.len(),
    ensures
        are_met(members_equations(set, held, n), m) <==> forall|k: int|
            0 <= k < n ==> is_balanced(set, #[trigger] held[k], m),
    decreases n,
{
    if n > 0 {
        let less = (n - 1) as nat;
        lemma_members(set, held, less, m);
        lemma_member(set, held[n - 1], m);
        let a = members_equations(set, held, less);
        let b = member_equations(set, held[n - 1]);
        lemma_both_met(a, b, m);
    }
}

proof fn lemma_both_met(a: Seq<EquationV>, b: Seq<EquationV>, m: Moment)
    ensures
        are_met(a + b, m) <==> are_met(a, m) && are_met(b, m),
{
    let all = a + b;
    if are_met(all, m) {
        assert forall|i: int| 0 <= i < a.len() implies is_met(#[trigger] a[i], m) by {
            assert(all[i] == a[i]);
        }
        assert forall|i: int| 0 <= i < b.len() implies is_met(#[trigger] b[i], m) by {
            assert(all[a.len() + i] == b[i]);
        }
    }
}

/// The equations of a connection set are met exactly where what the connectors have
/// in common is the same in all of them and what flows into them adds up to
/// nothing.
pub proof fn law_connected_connectors_share_and_balance(
    classes: Seq<&ClassDef>,
    connectors: Map<Seq<char>, Seq<char>>,
    set: Seq<Seq<char>>,
    m: Moment,
)
    requires
        set.len() > 0,
        held_at(classes, connectors, set[0]).len() > 0,
    ensures
        are_met(set_equations(classes, connectors, set), m) <==> forall|k: int|
            0 <= k < held_at(classes, connectors, set[0]).len() ==> is_balanced(
                set,
                #[trigger] held_at(classes, connectors, set[0])[k],
                m,
            ),
{
    let held = held_at(classes, connectors, set[0]);
    lemma_members(set, held, held.len(), m);
}

proof fn lemma_taken(set: Seq<Seq<char>>, source: Seq<char>, n: nat, m: Moment)
    requires
        n <= set.len(),
    ensures
        are_met(taken_from(set, source, n), m) <==> forall|i: int|
            0 <= i < n ==> (m.now)(#[trigger] set[i]) == (m.now)(source),
    decreases n,
{
    if n > 0 {
        let less = (n - 1) as nat;
        lemma_taken(set, source, less, m);
        if set[n - 1] != source {
            let before = taken_from(set, source, less);
            let one = made(ExprV::Ref(set[n - 1]), ExprV::Ref(source));
            assert(worth(ExprV::Ref(set[n - 1]), m) == (m.now)(set[n - 1]));
            assert(worth(ExprV::Ref(source), m) == (m.now)(source));
            assert(before.push(one) =~= before + seq![one]);
            lemma_both_met(before, seq![one], m);
            assert(are_met(seq![one], m) == is_met(one, m)) by {
                assert(seq![one][0] == one);
            }
        }
    }
}

proof fn lemma_source(
    classes: Seq<&ClassDef>,
    connectors: Map<Seq<char>, Seq<char>>,
    set: Seq<Seq<char>>,
    i: nat,
)
    ensures
        output_from(classes, connectors, set, i) matches Some(path) ==> set.contains(path),
    decreases set.len() - i,
{
    if i < set.len() {
        assert(set.contains(set[i as int]));
        lemma_source(classes, connectors, set, i + 1);
    }
}

/// Connectors that are one value each are, where they are connected, worth the
/// same, and nothing else is asked of them.
pub proof fn law_connected_values_are_the_same(
    classes: Seq<&ClassDef>,
    connectors: Map<Seq<char>, Seq<char>>,
    set: Seq<Seq<char>>,
    m: Moment,
)
    requires
        set.len() > 0,
        held_at(classes, connectors, set[0]).len() == 0,
        class_at(classes, connectors, set[0]).alias_of is Some,
    ensures
        are_met(set_equations(classes, connectors, set), m) <==> forall|i: int, j: int|
            0 <= i < set.len() && 0 <= j < set.len() ==> (m.now)(#[trigger] set[i]) == (m.now)(
                #[trigger] set[j],
            ),
{
    let source = source_of(classes, connectors, set);
    lemma_source(classes, connectors, set, 0);
    assert(set.contains(set[0]));
    assert(set.contains(source));
    let at = choose|at: int| 0 <= at < set.len() && set[at] == source;
    lemma_taken(set, source, set.len(), m);
    if are_met(set_equations(classes, connectors, set), m) {
        assert forall|i: int, j: int| 0 <= i < set.len() && 0 <= j < set.len() implies (m.now)(
            #[trigger] set[i],
        ) == (m.now)(#[trigger] set[j]) by {
            assert((m.now)(set[i]) == (m.now)(source));
            assert((m.now)(set[j]) == (m.now)(source));
        }
    } else {
        let i = choose|i: int| 0 <= i < set.len() && (m.now)(#[trigger] set[i]) != (m.now)(source);
        assert(set[at] == source);
    }
}

}
