//! What an expression is worth once its names are changed: where others are put for
//! them, and where they are given their names in the flat model.
use crate::expr::{kids, lemma_kids_smaller, with_kids, ExprV};
use crate::meaning::{holds, worth, Moment};
use crate::names::{
    bound_from, flat_of, prefixed, prefixed_kids, prefixed_whole, substituted, substituted_kids,
    NamingV,
};
use crate::running::{is_quantity, is_truth};
use crate::text::{cut_last, last_of, lemma_last_of};
use vstd::prelude::*;

verus! {

/// Whether the parts of an expression are worth at one moment what others are at
/// another.
pub open spec fn are_worth_the_same(e: ExprV, new: Seq<ExprV>, m: Moment, then: Moment) -> bool {
    &&& new.len() == kids(e).len()
    &&& forall|i: int|
        0 <= i < new.len() && is_quantity(kids(e)[i]) ==> worth(#[trigger] new[i], m) == worth(
            kids(e)[i],
            then,
        )
    &&& forall|i: int|
        0 <= i < new.len() && is_truth(kids(e)[i]) ==> holds(#[trigger] new[i], m) == holds(
            kids(e)[i],
            then,
        )
}

proof fn lemma_made_of(e: ExprV, new: Seq<ExprV>, m: Moment, then: Moment)
    requires
        are_worth_the_same(e, new, m, then),
        !(e is Ref),
    ensures
        is_quantity(e) ==> worth(with_kids(e, new), m) == worth(e, then),
        is_truth(e) ==> holds(with_kids(e, new), m) == holds(e, then),
{
    match e {
        ExprV::Neg(a) => {
            assert(kids(e)[0] == *a);
            assert(is_quantity(e) ==> worth(new[0], m) == worth(*a, then));
        },
        ExprV::Not(a) => {
            assert(kids(e)[0] == *a);
            assert(is_truth(e) ==> holds(new[0], m) == holds(*a, then));
        },
        ExprV::And(a, b) | ExprV::Or(a, b) => {
            assert(kids(e)[0] == *a && kids(e)[1] == *b);
            assert(is_truth(e) ==> holds(new[0], m) == holds(*a, then));
            assert(is_truth(e) ==> holds(new[1], m) == holds(*b, then));
        },
        ExprV::Rel(_, a, b) => {
            assert(kids(e)[0] == *a && kids(e)[1] == *b);
            assert(is_truth(e) ==> worth(new[0], m) == worth(*a, then));
            assert(is_truth(e) ==> worth(new[1], m) == worth(*b, then));
        },
        ExprV::Bin(_, a, b) => {
            assert(kids(e)[0] == *a && kids(e)[1] == *b);
            assert(is_quantity(e) ==> worth(new[0], m) == worth(*a, then));
            assert(is_quantity(e) ==> worth(new[1], m) == worth(*b, then));
        },
        ExprV::If(c, a, b) => {
            assert(kids(e)[0] == *c && kids(e)[1] == *a && kids(e)[2] == *b);
            assert(is_quantity(e) || is_truth(e) ==> holds(new[0], m) == holds(*c, then));
            assert(is_quantity(e) ==> worth(new[1], m) == worth(*a, then));
            assert(is_quantity(e) ==> worth(new[2], m) == worth(*b, then));
            assert(is_truth(e) ==> holds(new[1], m) == holds(*a, then));
            assert(is_truth(e) ==> holds(new[2], m) == holds(*b, then));
        },
        _ => {},
    }
}

/// The moment in which each name that others are put for holds what those are
/// worth.
pub open spec fn seen_through(map: Map<Seq<char>, ExprV>, m: Moment) -> Moment {
    Moment {
        now: |name: Seq<char>|
            if map.contains_key(name) {
                worth(map[name], m)
            } else {
                (m.now)(name)
            },
        ..m
    }
}

/// Whether what is put for a name is true exactly where it is worth something.
pub open spec fn tells_truth(map: Map<Seq<char>, ExprV>, m: Moment) -> bool {
    forall|name: Seq<char>| #[trigger]
        map.contains_key(name) ==> (holds(map[name], m) <==> worth(map[name], m) != 0 as real)
}

/// Putting expressions for names leaves the rest of an expression as it is: it is
/// worth what it would be where each of those names held what is put for it.
pub proof fn law_what_is_put_for_a_name_is_what_it_holds(
    e: ExprV,
    map: Map<Seq<char>, ExprV>,
    m: Moment,
)
    ensures
        is_quantity(e) && tells_truth(map, m) ==> worth(substituted(e, map), m) == worth(
            e,
            seen_through(map, m),
        ),
        is_truth(e) && tells_truth(map, m) ==> holds(substituted(e, map), m) == holds(
            e,
            seen_through(map, m),
        ),
    decreases e,
{
    if tells_truth(map, m) {
        lemma_kids_smaller(e);
        let new = substituted_kids(e, map);
        let then = seen_through(map, m);
        assert forall|i: int| 0 <= i < new.len() implies (is_quantity(kids(e)[i]) ==> worth(
            #[trigger] new[i],
            m,
        ) == worth(kids(e)[i], then)) && (is_truth(kids(e)[i]) ==> holds(new[i], m) == holds(
            kids(e)[i],
            then,
        )) by {
            law_what_is_put_for_a_name_is_what_it_holds(kids(e)[i], map, m);
            assert(new[i] == substituted(kids(e)[i], map));
        }
        match e {
            ExprV::Ref(name) => {},
            _ => {
                lemma_made_of(e, new, m, then);
                assert(substituted(e, map) == with_kids(e, new));
            },
        }
    }
}

/// The moment as a class sees it: each of its names holds what the flat model
/// calls by the name's flat one.
pub open spec fn seen_from(naming: NamingV, m: Moment) -> Moment {
    Moment { now: |name: Seq<char>| (m.now)(flat_of(name, naming)), ..m }
}

proof fn lemma_prefixed(e: ExprV, naming: NamingV, m: Moment)
    ensures
        is_quantity(e) ==> worth(prefixed(e, naming, Seq::empty()), m) == worth(
            e,
            seen_from(naming, m),
        ),
        is_truth(e) ==> holds(prefixed(e, naming, Seq::empty()), m) == holds(
            e,
            seen_from(naming, m),
        ),
    decreases e,
{
    let none: Seq<Seq<char>> = Seq::empty();
    lemma_kids_smaller(e);
    let new = prefixed_kids(e, naming, none);
    let then = seen_from(naming, m);
    assert forall|i: int| 0 <= i < new.len() implies (is_quantity(kids(e)[i]) ==> worth(
        #[trigger] new[i],
        m,
    ) == worth(kids(e)[i], then)) && (is_truth(kids(e)[i]) ==> holds(new[i], m) == holds(
        kids(e)[i],
        then,
    )) by {
        lemma_prefixed(kids(e)[i], naming, m);
        assert(new[i] == prefixed(kids(e)[i], naming, none));
    }
    match e {
        ExprV::Ref(name) => {
            assert(!none.contains(name));
        },
        ExprV::Comprehension(..) | ExprV::WithDerivative(..) | ExprV::Call(..) => {},
        _ => {
            lemma_made_of(e, new, m, then);
            assert(prefixed(e, naming, none) == with_kids(e, new));
        },
    }
}

proof fn lemma_no_outer(name: Seq<char>, head: Seq<char>)
    ensures
        bound_from(name, head, Map::empty()) is None,
    decreases head.len(),
{
    lemma_last_of(head, '.');
    match cut_last(head, '.') {
        Some((shorter, _)) => {
            lemma_no_outer(name, shorter);
        },
        None => {},
    }
}

/// An expression of a class, given its names in the flat model, is worth there
/// what it is worth to the class.
pub proof fn law_a_flat_name_stands_for_the_one_written(e: ExprV, naming: NamingV, m: Moment)
    ensures
        is_quantity(e) ==> worth(prefixed_whole(e, naming), m) == worth(e, seen_from(naming, m)),
        is_truth(e) ==> holds(prefixed_whole(e, naming), m) == holds(e, seen_from(naming, m)),
{
    if naming.prefix.len() == 0 && naming.outers == Map::<Seq<char>, Seq<char>>::empty() {
        lemma_at_the_top(e, naming, m);
    } else {
        lemma_prefixed(e, naming, m);
    }
}

proof fn lemma_at_the_top(e: ExprV, naming: NamingV, m: Moment)
    requires
        naming.prefix.len() == 0,
        naming.outers == Map::<Seq<char>, Seq<char>>::empty(),
    ensures
        is_quantity(e) ==> worth(e, m) == worth(e, seen_from(naming, m)),
        is_truth(e) ==> holds(e, m) == holds(e, seen_from(naming, m)),
    decreases e,
{
    lemma_kids_smaller(e);
    let then = seen_from(naming, m);
    match e {
        ExprV::Ref(name) => {
            lemma_no_outer(name, name);
            assert(naming.prefix + name =~= name);
        },
        _ => {
            assert forall|i: int| 0 <= i < kids(e).len() implies (is_quantity(kids(e)[i]) ==> worth(
                #[trigger] kids(e)[i],
                m,
            ) == worth(kids(e)[i], then)) && (is_truth(kids(e)[i]) ==> holds(kids(e)[i], m)
                == holds(kids(e)[i], then)) by {
                lemma_at_the_top(kids(e)[i], naming, m);
            }
            lemma_made_of(e, kids(e), m, then);
            crate::expr::law_rebuilding(e, kids(e));
        },
    }
}

/// Whether a name leads into another: it is the whole of it, or what stands before
/// one of its dots.
pub open spec fn leads_into(head: Seq<char>, name: Seq<char>) -> bool {
    head == name || (head.len() < name.len() && name[head.len() as int] == '.' && name.take(
        head.len() as int,
    ) == head)
}

proof fn lemma_bound(
    name: Seq<char>,
    from: Seq<char>,
    head: Seq<char>,
    outers: Map<Seq<char>, Seq<char>>,
)
    requires
        leads_into(from, name),
        leads_into(head, name),
        head.len() <= from.len(),
        outers.contains_key(head),
        forall|longer: Seq<char>| #[trigger]
            leads_into(longer, name) && longer.len() > head.len() ==> !outers.contains_key(longer),
    ensures
        bound_from(name, from, outers) == Some(outers[head] + name.skip(head.len() as int)),
    decreases from.len(),
{
    let here = from.len() as int;
    let most = head.len() as int;
    if from == name {
        assert(name.take(here) =~= name);
    }
    if head == name {
        assert(name.take(most) =~= name);
    }
    if here == most {
        assert(from == name.take(here));
        assert(head == name.take(most));
    } else {
        lemma_last_of(from, '.');
        let at = last_of(from, '.');
        assert(from[most] == '.') by {
            assert(from == name.take(here));
        }
        assert(at >= most);
        let shorter = from.take(at);
        assert(shorter =~= name.take(at));
        assert(name[at] == '.') by {
            assert(from[at] == name.take(here)[at]);
        }
        lemma_bound(name, shorter, head, outers);
    }
}

proof fn lemma_unbound(name: Seq<char>, from: Seq<char>, outers: Map<Seq<char>, Seq<char>>)
    requires
        leads_into(from, name),
        forall|head: Seq<char>| #[trigger] leads_into(head, name) ==> !outers.contains_key(head),
    ensures
        bound_from(name, from, outers) is None,
    decreases from.len(),
{
    let here = from.len() as int;
    if from == name {
        assert(name.take(here) =~= name);
    }
    lemma_last_of(from, '.');
    let at = last_of(from, '.');
    if at >= 0 {
        let shorter = from.take(at);
        assert(shorter =~= name.take(at));
        assert(name[at] == '.') by {
            assert(from[at] == name.take(here)[at]);
        }
        lemma_unbound(name, shorter, outers);
    }
}

/// A name that leads through an `outer` declaration is that of the instance the
/// declaration is bound to, the longest lead first; every other is that of the
/// class's own instance; and one that is a name of the flat model already stands.
pub proof fn law_an_outer_name_is_that_of_its_instance(name: Seq<char>, naming: NamingV)
    ensures
        naming.minted.contains(name) ==> flat_of(name, naming) == name,
        !naming.minted.contains(name) ==> forall|head: Seq<char>|
            #![trigger naming.outers.contains_key(head)]
            leads_into(head, name) && naming.outers.contains_key(head) && (forall|longer: Seq<char>|
             #[trigger]
                leads_into(longer, name) && longer.len() > head.len()
                    ==> !naming.outers.contains_key(longer)) ==> flat_of(name, naming)
                == naming.outers[head] + name.skip(head.len() as int),
        !naming.minted.contains(name) && (forall|head: Seq<char>| #[trigger]
            leads_into(head, name) ==> !naming.outers.contains_key(head)) ==> flat_of(name, naming)
            == naming.prefix + name,
{
    assert(leads_into(name, name));
    assert forall|head: Seq<char>|
        #![trigger naming.outers.contains_key(head)]
        leads_into(head, name) && naming.outers.contains_key(head) && (forall|longer: Seq<char>|
         #[trigger]
            leads_into(longer, name) && longer.len() > head.len() ==> !naming.outers.contains_key(
                longer,
            )) implies bound_from(name, name, naming.outers) == Some(
        naming.outers[head] + name.skip(head.len() as int),
    ) by {
        lemma_bound(name, name, head, naming.outers);
    }
    if forall|head: Seq<char>| #[trigger]
        leads_into(head, name) ==> !naming.outers.contains_key(head) {
        lemma_unbound(name, name, naming.outers);
    }
}

}
