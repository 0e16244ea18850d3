//! What every `connect` of a model comes to.
//!
//! The connectors joined by connections fall into sets, and a set is what the
//! equations are written about: the potentials across it are equal and the
//! flows into it sum to nothing. Stream variables are answered from the same
//! sets, since `inStream` is a question about one.
use crate::class::{
    Causality, ClassDef, ClassKind, Component, EquationItem, EquationV, Variability, MAX_DEPTH,
};
use crate::expr::{told, Expr, ExprV};
use crate::flat::{
    computes_or_fails, tried_asserts, tried_clauses, tried_conditionals, tried_equations,
    try_asserts, try_clauses, try_conditionals, try_equations, ConditionalV, Flat, FlatV, WhenClauseV,
};
use crate::groups::{group_of, grouped, labels, lemma_label_is_first, joins, law_same_edges_same_groups};
use crate::lookup::{class_named, find_class, left, lookup, meaning, Registry};
use crate::make;
use crate::number::zero;
use crate::streams::{
    is_whole, resolve_streams, sum_of, summed, unstreamed, StreamContext, StreamV,
};
use crate::table::{entered, Table};
use crate::text::{
    comes_before, cut_last, decimal, digits, dot, dotted, holds, join5, join7, law_text_order,
    precedes, quoted, quoted_list, same, split_last, texts,
};
use vstd::multiset::Multiset;
use vstd::prelude::*;

verus! {

/// A name put in its place in a list that is in order; one that is there
/// already is not put in again.
pub open spec fn put_in_order(names: Seq<Seq<char>>, name: Seq<char>) -> Seq<Seq<char>>
    decreases names.len(),
{
    if names.len() == 0 {
        seq![name]
    } else if names.last() == name {
        names
    } else if precedes(names.last(), name) {
        names.push(name)
    } else {
        put_in_order(names.drop_last(), name).push(names.last())
    }
}

/// The names in order, each once.
pub open spec fn ordered(names: Seq<Seq<char>>) -> Seq<Seq<char>>
    decreases names.len(),
{
    if names.len() == 0 {
        Seq::empty()
    } else {
        put_in_order(ordered(names.drop_last()), names.last())
    }
}

pub open spec fn is_ascending(names: Seq<Seq<char>>) -> bool {
    forall|i: int, j: int|
        0 <= i < j < names.len() ==> precedes(#[trigger] names[i], #[trigger] names[j])
}

proof fn lemma_put_in_order(names: Seq<Seq<char>>, name: Seq<char>)
    requires
        is_ascending(names),
    ensures
        is_ascending(put_in_order(names, name)),
        put_in_order(names, name).len() > 0,
        precedes(put_in_order(names, name).last(), name) == false,
        names.len() > 0 ==> put_in_order(names, name).last() == name || put_in_order(
            names,
            name,
        ).last() == names.last(),
        forall|x: Seq<char>| #[trigger]
            put_in_order(names, name).contains(x) <==> names.contains(x) || x == name,
    decreases names.len(),
{
    let after = put_in_order(names, name);
    law_text_order(name, name, name);
    if names.len() == 0 {
        assert(after[0] == name);
    } else if names.last() == name {
        assert(names.contains(name));
    } else if precedes(names.last(), name) {
        assert forall|i: int, j: int| 0 <= i < j < after.len() implies precedes(
            #[trigger] after[i],
            #[trigger] after[j],
        ) by {
            if j == names.len() {
                if i < names.len() - 1 {
                    assert(precedes(names[i], names[names.len() - 1]));
                    law_text_order(names[i], names.last(), name);
                }
            }
        }
        assert forall|x: Seq<char>| #[trigger] after.contains(x) implies names.contains(x) || x
            == name by {
            let k = choose|k: int| 0 <= k < after.len() && after[k] == x;
            if k < names.len() {
                assert(names[k] == x);
            }
        }
        assert forall|x: Seq<char>| names.contains(x) || x == name implies #[trigger] after.contains(
            x,
        ) by {
            if x == name {
                assert(after[names.len() as int] == x);
            } else {
                let k = choose|k: int| 0 <= k < names.len() && names[k] == x;
                assert(after[k] == x);
            }
        }
    } else {
        let front = names.drop_last();
        let last = names.last();
        assert forall|i: int, j: int| 0 <= i < j < front.len() implies precedes(
            #[trigger] front[i],
            #[trigger] front[j],
        ) by {
            assert(names[i] == front[i]);
            assert(names[j] == front[j]);
        }
        lemma_put_in_order(front, name);
        let before = put_in_order(front, name);
        law_text_order(last, name, last);
        assert(precedes(name, last));
        assert(precedes(before.last(), last)) by {
            if before.last() != name {
                assert(before.last() == front.last());
                assert(names[front.len() - 1] == front.last());
                assert(names[names.len() - 1] == last);
            }
        }
        assert forall|i: int, j: int| 0 <= i < j < after.len() implies precedes(
            #[trigger] after[i],
            #[trigger] after[j],
        ) by {
            if j == before.len() {
                if i < before.len() - 1 {
                    assert(precedes(before[i], before[before.len() - 1]));
                    law_text_order(before[i], before.last(), last);
                }
            } else {
                assert(precedes(before[i], before[j]));
            }
        }
        law_text_order(name, last, name);
        assert forall|x: Seq<char>| #[trigger] after.contains(x) implies names.contains(x) || x
            == name by {
            let k = choose|k: int| 0 <= k < after.len() && after[k] == x;
            if k < before.len() {
                assert(before[k] == x);
                assert(before.contains(x));
                if front.contains(x) {
                    let m = choose|m: int| 0 <= m < front.len() && front[m] == x;
                    assert(names[m] == x);
                }
            } else {
                assert(names[names.len() - 1] == x);
            }
        }
        assert forall|x: Seq<char>| names.contains(x) || x == name implies #[trigger] after.contains(
            x,
        ) by {
            if x == last {
                assert(after[before.len() as int] == x);
            } else {
                if x != name {
                    let m = choose|m: int| 0 <= m < names.len() && names[m] == x;
                    assert(front[m] == x);
                    assert(front.contains(x));
                }
                assert(before.contains(x));
                let k = choose|k: int| 0 <= k < before.len() && before[k] == x;
                assert(after[k] == x);
            }
        }
    }
}

/// Ordering a list keeps what is in it, and puts every name after the ones
/// that come before it.
pub proof fn law_ordered(names: Seq<Seq<char>>)
    ensures
        is_ascending(ordered(names)),
        ordered(names).no_duplicates(),
        forall|x: Seq<char>| #[trigger] ordered(names).contains(x) <==> names.contains(x),
    decreases names.len(),
{
    if names.len() > 0 {
        let front = names.drop_last();
        law_ordered(front);
        lemma_put_in_order(ordered(front), names.last());
        assert forall|x: Seq<char>| #[trigger] ordered(names).contains(x) <==> names.contains(
            x,
        ) by {
            if names.contains(x) && x != names.last() {
                let k = choose|k: int| 0 <= k < names.len() && names[k] == x;
                assert(front[k] == x);
            }
            if front.contains(x) {
                let k = choose|k: int| 0 <= k < front.len() && front[k] == x;
                assert(names[k] == x);
            }
            if x == names.last() {
                assert(names[names.len() - 1] == x);
            }
        }
    }
    let after = ordered(names);
    assert forall|i: int, j: int| 0 <= i < after.len() && 0 <= j < after.len() && i
        != j implies after[i] != after[j] by {
        law_text_order(after[i], after[i], after[i]);
        if i < j {
            assert(precedes(after[i], after[j]));
        } else {
            assert(precedes(after[j], after[i]));
        }
    }
}

pub fn put_name(names: &mut Vec<String>, name: &str)
    ensures
        texts(final(names)@) == put_in_order(texts(old(names)@), name@),
{
    let ghost was = texts(names@);
    let mut at: usize = names.len();
    let ghost mut tail: Seq<Seq<char>> = Seq::empty();
    assert(was.take(at as int) =~= was);
    assert(put_in_order(was, name@) =~= put_in_order(was.take(at as int), name@) + tail);
    while at > 0
        invariant
            at <= names.len(),
            was == texts(names@),
            was == texts(old(names)@),
            tail == was.skip(at as int),
            put_in_order(was, name@) == put_in_order(was.take(at as int), name@) + tail,
        decreases at,
    {
        let ghost here = was.take(at as int);
        assert(here.last() == was[at - 1]);
        assert(here.drop_last() =~= was.take(at - 1));
        if same(names[at - 1].as_str(), name) {
            assert(here + tail =~= was);
            return;
        }
        if comes_before(names[at - 1].as_str(), name) {
            names.insert(at, name.to_owned());
            assert(texts(names@) =~= here.push(name@) + tail);
            return;
        }
        proof {
            assert(put_in_order(here, name@) + tail =~= put_in_order(was.take(at - 1), name@) + (
            seq![was[at - 1]] + tail));
            tail = seq![was[at - 1]] + tail;
            assert(tail =~= was.skip(at - 1));
        }
        at = at - 1;
    }
    names.insert(0, name.to_owned());
    assert(was.take(0) =~= Seq::empty());
    assert(texts(names@) =~= seq![name@] + tail);
}

/// The names of a table, in order.
pub open spec fn names_of<V>(entries: Seq<(Seq<char>, V)>) -> Seq<Seq<char>> {
    Seq::new(entries.len(), |i: int| entries[i].0)
}

/// The names that a table holds something under, in order.
pub open spec fn keys_in_order(connectors: Seq<(Seq<char>, Seq<char>)>) -> Seq<Seq<char>> {
    ordered(names_of(connectors))
}

pub fn paths_in_order(connectors: &Table<String>) -> (r: Vec<String>)
    ensures
        texts(r@) == keys_in_order(connectors.entries.deep_view()),
{
    let ghost all = names_of(connectors.entries.deep_view());
    let mut out: Vec<String> = Vec::new();
    let mut i: usize = 0;
    assert(texts(out@) =~= ordered(all.take(0)));
    while i < connectors.entries.len()
        invariant
            i <= connectors.entries.len(),
            all == names_of(connectors.entries.deep_view()),
            texts(out@) == ordered(all.take(i as int)),
        decreases connectors.entries.len() - i,
    {
        assert(all.take(i + 1).drop_last() =~= all.take(i as int));
        put_name(&mut out, connectors.entries[i].0.as_str());
        i = i + 1;
    }
    assert(all.take(i as int) =~= all);
    out
}

/// The members of a connector that are connectors themselves, among a list of
/// paths.
pub open spec fn members_under(paths: Seq<Seq<char>>, outer: Seq<char>) -> Seq<Seq<char>>
    decreases paths.len(),
{
    if paths.len() == 0 {
        Seq::empty()
    } else {
        let before = members_under(paths.drop_last(), outer);
        match cut_last(paths.last(), '.') {
            Some((holder, member)) => if holder == outer {
                before.push(member)
            } else {
                before
            },
            None => before,
        }
    }
}

/// The connectors inside a connector, by their names there, in order.
pub open spec fn inside_of(paths: Seq<Seq<char>>, outer: Seq<char>) -> Seq<Seq<char>> {
    if paths.contains(outer) {
        ordered(members_under(paths, outer))
    } else {
        Seq::empty()
    }
}

fn find_inside(paths: &Vec<String>, outer: &str) -> (r: Vec<String>)
    ensures
        texts(r@) == inside_of(texts(paths@), outer@),
{
    let ghost all = texts(paths@);
    let mut out: Vec<String> = Vec::new();
    assert(texts(out@) =~= Seq::empty());
    if !holds(paths, outer) {
        return out;
    }
    let mut i: usize = 0;
    assert(texts(out@) =~= ordered(members_under(all.take(0), outer@)));
    while i < paths.len()
        invariant
            i <= paths.len(),
            all == texts(paths@),
            texts(out@) == ordered(members_under(all.take(i as int), outer@)),
        decreases paths.len() - i,
    {
        let ghost before = members_under(all.take(i as int), outer@);
        assert(all.take(i + 1).drop_last() =~= all.take(i as int));
        if let Some((holder, member)) = split_last(paths[i].as_str(), '.') {
            if same(holder.as_str(), outer) {
                assert(before.push(member@).drop_last() =~= before);
                put_name(&mut out, member.as_str());
            }
        }
        i = i + 1;
    }
    assert(all.take(i as int) =~= all);
    out
}

/// The pairs of a connection of two connectors that hold the same connectors:
/// those, in pairs.
pub open spec fn member_pairs(connect: (Seq<char>, Seq<char>), members: Seq<Seq<char>>) -> Seq<
    (Seq<char>, Seq<char>),
> {
    Seq::new(
        members.len(),
        |i: int| (dotted(connect.0, members[i]), dotted(connect.1, members[i])),
    )
}

/// The pairs of connectors that one connection joins.
pub open spec fn pairs_of(paths: Seq<Seq<char>>, connect: (Seq<char>, Seq<char>)) -> Seq<
    (Seq<char>, Seq<char>),
> {
    let inside = inside_of(paths, connect.0);
    if inside.len() == 0 || inside != inside_of(paths, connect.1) {
        seq![connect]
    } else {
        member_pairs(connect, inside)
    }
}

/// The pairs of connectors that the connections join.
pub open spec fn all_pairs(
    paths: Seq<Seq<char>>,
    connects: Seq<(Seq<char>, Seq<char>)>,
) -> Seq<(Seq<char>, Seq<char>)>
    decreases connects.len(),
{
    if connects.len() == 0 {
        Seq::empty()
    } else {
        all_pairs(paths, connects.drop_last()) + pairs_of(paths, connects.last())
    }
}

/// Whether two lists hold the same names in the same order.
fn same_names(a: &Vec<String>, b: &Vec<String>) -> (r: bool)
    ensures
        r == (texts(a@) == texts(b@)),
{
    if a.len() != b.len() {
        assert(texts(a@).len() != texts(b@).len());
        return false;
    }
    let mut i: usize = 0;
    while i < a.len()
        invariant
            i <= a.len(),
            a.len() == b.len(),
            forall|k: int| 0 <= k < i ==> texts(a@)[k] == texts(b@)[k],
        decreases a.len() - i,
    {
        if a[i] != b[i] {
            assert(texts(a@)[i as int] != texts(b@)[i as int]);
            return false;
        }
        i = i + 1;
    }
    assert(texts(a@) =~= texts(b@));
    true
}

fn find_pairs(paths: &Vec<String>, connects: &Vec<(String, String)>) -> (r: Vec<(String, String)>)
    ensures
        r.deep_view() == all_pairs(texts(paths@), connects.deep_view()),
{
    let ghost here = texts(paths@);
    let ghost all = connects.deep_view();
    let mut out: Vec<(String, String)> = Vec::new();
    let mut i: usize = 0;
    assert(out.deep_view() =~= all_pairs(here, all.take(0)));
    while i < connects.len()
        invariant
            i <= connects.len(),
            here == texts(paths@),
            all == connects.deep_view(),
            out.deep_view() == all_pairs(here, all.take(i as int)),
        decreases connects.len() - i,
    {
        let ghost before = out.deep_view();
        let ghost connect = all[i as int];
        assert(all.take(i + 1).drop_last() =~= all.take(i as int));
        assert(all.take(i + 1).last() == connect);
        let a = &connects[i].0;
        let b = &connects[i].1;
        let inside_a = find_inside(paths, a.as_str());
        let inside_b = find_inside(paths, b.as_str());
        if inside_a.len() == 0 || !same_names(&inside_a, &inside_b) {
            out.push((a.clone(), b.clone()));
            assert(out.deep_view() =~= before + seq![connect]);
        } else {
            let ghost inside = texts(inside_a@);
            let mut m: usize = 0;
            assert(out.deep_view() =~= before + member_pairs(connect, inside).take(0));
            while m < inside_a.len()
                invariant
                    m <= inside_a.len(),
                    inside == texts(inside_a@),
                    connect == (a@, b@),
                    out.deep_view() == before + member_pairs(connect, inside).take(m as int),
                decreases inside_a.len() - m,
            {
                let ghost now = out.deep_view();
                out.push(
                    (
                        dot(a.as_str(), inside_a[m].as_str()),
                        dot(b.as_str(), inside_a[m].as_str()),
                    ),
                );
                assert(out.deep_view() =~= now.push(member_pairs(connect, inside)[m as int]));
                assert(out.deep_view() =~= before + member_pairs(connect, inside).take(m + 1));
                m = m + 1;
            }
            assert(member_pairs(connect, inside).take(m as int) =~= member_pairs(connect, inside));
        }
        i = i + 1;
    }
    assert(all.take(i as int) =~= all);
    out
}

/// What is wrong with the first pair that does not join two connectors.
pub open spec fn first_unknown(
    paths: Seq<Seq<char>>,
    pairs: Seq<(Seq<char>, Seq<char>)>,
) -> Option<Seq<char>>
    decreases pairs.len(),
{
    if pairs.len() == 0 {
        None
    } else if !paths.contains(pairs[0].0) || !paths.contains(pairs[0].1) {
        Some(
            "connect("@ + pairs[0].0 + ", "@ + pairs[0].1
                + "): both sides must be connector instances"@,
        )
    } else {
        first_unknown(paths, pairs.drop_first())
    }
}

/// Pairs of paths as pairs of positions.
pub open spec fn positions(
    paths: Seq<Seq<char>>,
    pairs: Seq<(Seq<char>, Seq<char>)>,
) -> Seq<(usize, usize)> {
    Seq::new(
        pairs.len(),
        |k: int| (paths.index_of(pairs[k].0) as usize, paths.index_of(pairs[k].1) as usize),
    )
}

fn position(paths: &Vec<String>, path: &str) -> (r: Option<usize>)
    requires
        texts(paths@).no_duplicates(),
    ensures
        match r {
            Some(at) => at < paths.len() && texts(paths@).contains(path@) && at == texts(
                paths@,
            ).index_of(path@),
            None => !texts(paths@).contains(path@),
        },
{
    let wanted: String = path.to_owned();
    let mut i: usize = 0;
    while i < paths.len()
        invariant
            i <= paths.len(),
            wanted@ == path@,
            texts(paths@).no_duplicates(),
            forall|k: int| 0 <= k < i ==> texts(paths@)[k] != path@,
        decreases paths.len() - i,
    {
        if paths[i] == wanted {
            proof {
                let all = texts(paths@);
                assert(all[i as int] == path@);
                let at = all.index_of(path@);
                assert(0 <= at < all.len() && all[at] == path@);
                assert(all[at] == all[i as int]);
            }
            return Some(i);
        }
        i = i + 1;
    }
    assert forall|k: int| 0 <= k < texts(paths@).len() implies texts(paths@)[k] != path@ by {}
    None
}

fn find_positions(paths: &Vec<String>, pairs: &Vec<(String, String)>) -> (r: Result<
    Vec<(usize, usize)>,
    String,
>)
    requires
        texts(paths@).no_duplicates(),
    ensures
        match first_unknown(texts(paths@), pairs.deep_view()) {
            Some(trouble) => r matches Err(why) && why@ == trouble,
            None => r matches Ok(edges) && edges@ == positions(texts(paths@), pairs.deep_view())
                && forall|k: int|
                0 <= k < edges@.len() ==> (#[trigger] edges@[k]).0 < paths.len() && edges@[k].1
                    < paths.len(),
        },
{
    let ghost here = texts(paths@);
    let ghost all = pairs.deep_view();
    let mut edges: Vec<(usize, usize)> = Vec::new();
    let mut i: usize = 0;
    assert(all.skip(0) =~= all);
    assert(edges@ =~= positions(here, all).take(0));
    while i < pairs.len()
        invariant
            i <= pairs.len(),
            here == texts(paths@),
            here.no_duplicates(),
            all == pairs.deep_view(),
            first_unknown(here, all) == first_unknown(here, all.skip(i as int)),
            edges@ == positions(here, all).take(i as int),
            forall|k: int|
                0 <= k < edges@.len() ==> (#[trigger] edges@[k]).0 < paths.len() && edges@[k].1
                    < paths.len(),
        decreases pairs.len() - i,
    {
        assert(all.skip(i as int)[0] == all[i as int]);
        assert(all.skip(i as int).drop_first() =~= all.skip(i + 1));
        match (
            position(paths, pairs[i].0.as_str()),
            position(paths, pairs[i].1.as_str()),
        ) {
            (Some(a), Some(b)) => {
                edges.push((a, b));
                assert(edges@ =~= positions(here, all).take(i + 1));
            },
            _ => {
                return Err(
                    join5(
                        "connect(",
                        pairs[i].0.as_str(),
                        ", ",
                        pairs[i].1.as_str(),
                        "): both sides must be connector instances",
                    ),
                );
            },
        }
        i = i + 1;
    }
    assert(positions(here, all).take(i as int) =~= positions(here, all));
    Ok(edges)
}

/// The paths of the set that begins at `first`, among the first `n`.
pub open spec fn set_from(
    paths: Seq<Seq<char>>,
    edges: Seq<(usize, usize)>,
    first: int,
    n: nat,
) -> Seq<Seq<char>>
    decreases n,
{
    if n == 0 || n > paths.len() {
        Seq::empty()
    } else {
        let before = set_from(paths, edges, first, (n - 1) as nat);
        if group_of(edges, n - 1) == first {
            before.push(paths[n - 1])
        } else {
            before
        }
    }
}

/// The connection sets, by the first path of each, those that begin among the
/// first `n` paths.
pub open spec fn sets_from(paths: Seq<Seq<char>>, edges: Seq<(usize, usize)>, n: nat) -> Seq<
    Seq<Seq<char>>,
>
    decreases n,
{
    if n == 0 || n > paths.len() {
        Seq::empty()
    } else {
        let before = sets_from(paths, edges, (n - 1) as nat);
        if group_of(edges, n - 1) == n - 1 {
            before.push(set_from(paths, edges, n - 1, paths.len()))
        } else {
            before
        }
    }
}

fn find_sets(paths: &Vec<String>, edges: &Vec<(usize, usize)>) -> (r: Vec<Vec<String>>)
    requires
        forall|k: int|
            0 <= k < edges@.len() ==> (#[trigger] edges@[k]).0 < paths.len() && edges@[k].1
                < paths.len(),
    ensures
        r.deep_view() == sets_from(texts(paths@), edges@, paths@.len()),
        forall|i: int| 0 <= i < r.len() ==> (#[trigger] r@[i])@.len() > 0,
        forall|i: int, k: int|
            0 <= i < r.len() && 0 <= k < r@[i]@.len() ==> texts(paths@).contains(
                (#[trigger] r@[i]@[k])@,
            ),
{
    let ghost here = texts(paths@);
    let label = grouped(paths.len(), edges);
    let mut out: Vec<Vec<String>> = Vec::new();
    let mut first: usize = 0;
    assert(out.deep_view() =~= Seq::empty());
    while first < paths.len()
        invariant
            first <= paths.len(),
            here == texts(paths@),
            label.len() == paths.len(),
            labels(edges@, label@),
            out.deep_view() == sets_from(here, edges@, first as nat),
            forall|i: int| 0 <= i < out.len() ==> (#[trigger] out@[i])@.len() > 0,
            forall|i: int, k: int|
                0 <= i < out.len() && 0 <= k < out@[i]@.len() ==> here.contains(
                    (#[trigger] out@[i]@[k])@,
                ),
        decreases paths.len() - first,
    {
        proof {
            lemma_label_is_first(edges@, label@, first as int);
        }
        if label[first] == first {
            let ghost before = out.deep_view();
            let mut members: Vec<String> = Vec::new();
            let mut i: usize = 0;
            assert(texts(members@) =~= Seq::empty());
            while i < paths.len()
                invariant
                    i <= paths.len(),
                    first < paths.len(),
                    here == texts(paths@),
                    label.len() == paths.len(),
                    labels(edges@, label@),
                    label@[first as int] == first,
                    texts(members@) == set_from(here, edges@, first as int, i as nat),
                    i > first ==> members.len() > 0,
                    forall|k: int| 0 <= k < members.len() ==> here.contains((#[trigger] members@[k])@),
                decreases paths.len() - i,
            {
                proof {
                    lemma_label_is_first(edges@, label@, i as int);
                }
                if label[i] == first {
                    let ghost now = texts(members@);
                    assert(here[i as int] == paths@[i as int]@);
                    assert(here.contains(paths@[i as int]@));
                    members.push(paths[i].clone());
                    assert(texts(members@) =~= now.push(here[i as int]));
                }
                i = i + 1;
            }
            let ghost whole = texts(members@);
            assert(members.deep_view() =~= whole);
            out.push(members);
            assert(out.deep_view() =~= before.push(whole));
        }
        first = first + 1;
    }
    out
}

/// A member of a connector, as far as joining it goes.
#[derive(Debug)]
pub struct Member {
    pub name: String,
    pub flow: bool,
    pub stream: bool,
    pub variability: Variability,
}

pub ghost struct MemberV {
    pub name: Seq<char>,
    pub flow: bool,
    pub stream: bool,
    pub variability: Variability,
}

impl DeepView for Member {
    type V = MemberV;

    open spec fn deep_view(&self) -> MemberV {
        MemberV {
            name: self.name@,
            flow: self.flow,
            stream: self.stream,
            variability: self.variability,
        }
    }
}

/// The record that a declaration without dimensions of its own is of.
pub open spec fn record_held(
    classes: Seq<&ClassDef>,
    class: ClassDef,
    component: Component,
) -> Option<ClassDef> {
    match meaning(classes, component.of_type@, class.name@, class.imports.deep_view()) {
        Some(of) => if of.kind == ClassKind::Record && component.dimensions@.len() == 0 {
            Some(of)
        } else {
            None
        },
        None => None,
    }
}

/// The fields of a record as members of the connector that holds it.
pub open spec fn fields_as(component: Component, fields: Seq<MemberV>) -> Seq<MemberV> {
    Seq::new(
        fields.len(),
        |i: int|
            MemberV {
                name: dotted(component.name@, fields[i].name),
                flow: component.flow,
                stream: component.stream,
                variability: component.variability,
            },
    )
}

/// What a connector holds: what its bases hold and then its own, a record
/// field by field.
pub open spec fn members_held(classes: Seq<&ClassDef>, class: ClassDef, depth: nat) -> Seq<MemberV>
    decreases left(depth), 2int, 0int,
{
    if depth > MAX_DEPTH {
        Seq::empty()
    } else {
        members_of_bases(classes, class, class.extends@.len(), depth) + members_declared(
            classes,
            class,
            class.components@.len(),
            depth,
        )
    }
}

/// What the first `n` bases hold.
pub open spec fn members_of_bases(
    classes: Seq<&ClassDef>,
    class: ClassDef,
    n: nat,
    depth: nat,
) -> Seq<MemberV>
    decreases left(depth), 1int, n,
{
    if depth > MAX_DEPTH || n == 0 || n > class.extends@.len() {
        Seq::empty()
    } else {
        let before = members_of_bases(classes, class, (n - 1) as nat, depth);
        match meaning(classes, class.extends@[n - 1].base@, class.name@, class.imports.deep_view()) {
            Some(base) => before + members_held(classes, base, depth + 1),
            None => before,
        }
    }
}

/// What the first `n` declarations hold.
pub open spec fn members_declared(
    classes: Seq<&ClassDef>,
    class: ClassDef,
    n: nat,
    depth: nat,
) -> Seq<MemberV>
    decreases left(depth), 1int, n,
{
    if depth > MAX_DEPTH || n == 0 || n > class.components@.len() {
        Seq::empty()
    } else {
        let before = members_declared(classes, class, (n - 1) as nat, depth);
        let component = class.components@[n - 1];
        match record_held(classes, class, component) {
            Some(record) => before + fields_as(component, members_held(classes, record, depth + 1)),
            None => before.push(
                MemberV {
                    name: component.name@,
                    flow: component.flow,
                    stream: component.stream,
                    variability: component.variability,
                },
            ),
        }
    }
}

fn gather_members(registry: &Registry, class: &ClassDef, out: &mut Vec<Member>, depth: usize)
    ensures
        final(out).deep_view() == old(out).deep_view() + members_held(
            registry@,
            *class,
            depth as nat,
        ),
    decreases left(depth as nat),
{
    let ghost was = out.deep_view();
    if depth > MAX_DEPTH {
        assert(was =~= was + members_held(registry@, *class, depth as nat));
        return;
    }
    let mut i: usize = 0;
    assert(was =~= was + members_of_bases(registry@, *class, 0, depth as nat));
    while i < class.extends.len()
        invariant
            depth <= MAX_DEPTH,
            i <= class.extends.len(),
            out.deep_view() == was + members_of_bases(registry@, *class, i as nat, depth as nat),
        decreases class.extends.len() - i,
    {
        if let Some(base) = lookup(
            registry,
            class.extends[i].base.as_str(),
            class.name.as_str(),
            &class.imports,
        ) {
            gather_members(registry, base, out, depth + 1);
        }
        assert(out.deep_view() =~= was + members_of_bases(
            registry@,
            *class,
            (i + 1) as nat,
            depth as nat,
        ));
        i = i + 1;
    }
    let ghost based = out.deep_view();
    let mut i: usize = 0;
    assert(based =~= based + members_declared(registry@, *class, 0, depth as nat));
    while i < class.components.len()
        invariant
            depth <= MAX_DEPTH,
            i <= class.components.len(),
            out.deep_view() == based + members_declared(registry@, *class, i as nat, depth as nat),
        decreases class.components.len() - i,
    {
        let component = &class.components[i];
        let ghost before = out.deep_view();
        let record = match lookup(
            registry,
            component.of_type.as_str(),
            class.name.as_str(),
            &class.imports,
        ) {
            Some(of) => if of.kind == ClassKind::Record && component.dimensions.len() == 0 {
                Some(of)
            } else {
                None
            },
            None => None,
        };
        match record {
            Some(record) => {
                let mut fields: Vec<Member> = Vec::new();
                gather_members(registry, record, &mut fields, depth + 1);
                let ghost held = members_held(registry@, *record, (depth + 1) as nat);
                assert(fields.deep_view() =~= held);
                let mut k: usize = 0;
                assert(before =~= before + fields_as(*component, held).take(0));
                while k < fields.len()
                    invariant
                        k <= fields.len(),
                        fields.deep_view() == held,
                        out.deep_view() == before + fields_as(*component, held).take(k as int),
                    decreases fields.len() - k,
                {
                    let ghost now = out.deep_view();
                    assert(held[k as int] == fields@[k as int].deep_view());
                    out.push(
                        Member {
                            name: dot(component.name.as_str(), fields[k].name.as_str()),
                            flow: component.flow,
                            stream: component.stream,
                            variability: component.variability,
                        },
                    );
                    assert(out.deep_view() =~= now.push(fields_as(*component, held)[k as int]));
                    assert(out.deep_view() =~= before + fields_as(*component, held).take(k + 1));
                    k = k + 1;
                }
                assert(fields_as(*component, held).take(k as int) =~= fields_as(*component, held));
            },
            None => {
                out.push(
                    Member {
                        name: component.name.clone(),
                        flow: component.flow,
                        stream: component.stream,
                        variability: component.variability,
                    },
                );
                assert(out.deep_view() =~= before.push(
                    MemberV {
                        name: component.name@,
                        flow: component.flow,
                        stream: component.stream,
                        variability: component.variability,
                    },
                ));
            },
        }
        assert(out.deep_view() =~= based + members_declared(
            registry@,
            *class,
            (i + 1) as nat,
            depth as nat,
        ));
        i = i + 1;
    }
    assert(out.deep_view() =~= was + members_held(registry@, *class, depth as nat));
}

/// What a connector is joined by: what its members are called, and which of
/// them are flows and streams, in whatever order.
pub open spec fn shape_of(members: Seq<MemberV>) -> Multiset<(Seq<char>, bool, bool)> {
    traits_of(members).to_multiset()
}

pub open spec fn traits_of(members: Seq<MemberV>) -> Seq<(Seq<char>, bool, bool)> {
    Seq::new(members.len(), |i: int| (members[i].name, members[i].flow, members[i].stream))
}

proof fn lemma_none_taken<T>(one: Seq<T>, two: Seq<T>)
    ensures
        two.to_multiset() == one.take(0).to_multiset().add(two.to_multiset()),
{
    broadcast use vstd::multiset::group_multiset_axioms;

    vstd::seq_lib::to_multiset_len(one.take(0));
    assert(one.take(0).to_multiset() =~= Multiset::empty());
    assert(two.to_multiset() =~= one.take(0).to_multiset().add(two.to_multiset()));
}

proof fn lemma_all_taken<T>(one: Seq<T>, left: Seq<T>)
    requires
        left.len() == 0,
    ensures
        one.to_multiset() == one.to_multiset().add(left.to_multiset()),
{
    broadcast use vstd::multiset::group_multiset_axioms;

    vstd::seq_lib::to_multiset_len(left);
    assert(left.to_multiset() =~= Multiset::empty());
    assert(one.to_multiset() =~= one.to_multiset().add(left.to_multiset()));
}

proof fn lemma_one_taken<T>(done: Seq<T>, left: Seq<T>, at: int)
    requires
        0 <= at < left.len(),
    ensures
        done.to_multiset().add(left.to_multiset()) == done.push(left[at]).to_multiset().add(
            left.remove(at).to_multiset(),
        ),
{
    broadcast use vstd::multiset::group_multiset_axioms;

    vstd::seq_lib::to_multiset_build(done, left[at]);
    vstd::seq_lib::to_multiset_remove(left, at);
    vstd::seq_lib::to_multiset_contains(left, left[at]);
    assert(done.to_multiset().add(left.to_multiset()) =~= done.push(left[at]).to_multiset().add(
        left.remove(at).to_multiset(),
    ));
}

proof fn lemma_not_taken<T>(one: Seq<T>, two: Seq<T>, left: Seq<T>, i: int)
    requires
        0 <= i < one.len(),
        two.to_multiset() == one.take(i).to_multiset().add(left.to_multiset()),
        !left.contains(one[i]),
    ensures
        one.to_multiset() != two.to_multiset(),
{
    broadcast use vstd::multiset::group_multiset_axioms;

    let x = one[i];
    vstd::seq_lib::to_multiset_contains(left, x);
    vstd::seq_lib::to_multiset_build(one.take(i), x);
    assert(one.take(i + 1) =~= one.take(i).push(x));
    assert(one =~= one.take(i + 1) + one.skip(i + 1));
    vstd::seq_lib::lemma_multiset_commutative(one.take(i + 1), one.skip(i + 1));
    assert(one.to_multiset().count(x) > two.to_multiset().count(x));
}

/// Whether two connectors hold the same members.
fn same_shape(a: &Vec<Member>, b: &Vec<Member>) -> (r: bool)
    ensures
        r == (shape_of(a.deep_view()) == shape_of(b.deep_view())),
{
    let ghost one = traits_of(a.deep_view());
    let ghost two = traits_of(b.deep_view());
    if a.len() != b.len() {
        proof {
            vstd::seq_lib::to_multiset_len(one);
            vstd::seq_lib::to_multiset_len(two);
        }
        return false;
    }
    let mut rest: Vec<usize> = Vec::new();
    let mut i: usize = 0;
    while i < b.len()
        invariant
            i <= b.len(),
            rest.len() == i,
            forall|k: int| 0 <= k < i ==> #[trigger] rest@[k] == k,
        decreases b.len() - i,
    {
        rest.push(i);
        i = i + 1;
    }
    let ghost mut left = two;
    assert(left =~= Seq::new(rest@.len(), |k: int| two[rest@[k] as int]));
    let mut i: usize = 0;
    proof {
        lemma_none_taken(one, two);
    }
    while i < a.len()
        invariant
            i <= a.len(),
            a.len() == b.len(),
            one == traits_of(a.deep_view()),
            two == traits_of(b.deep_view()),
            rest.len() == a.len() - i,
            left.len() == rest.len(),
            forall|k: int|
                0 <= k < rest.len() ==> (#[trigger] rest@[k]) < b.len() && left[k]
                    == two[rest@[k] as int],
            two.to_multiset() == one.take(i as int).to_multiset().add(left.to_multiset()),
        decreases a.len() - i,
    {
        let ghost x = one[i as int];
        assert(one.take(i + 1) =~= one.take(i as int).push(x));
        let mut k: usize = 0;
        let mut found: Option<usize> = None;
        while k < rest.len() && found.is_none()
            invariant
                i < a.len(),
                k <= rest.len(),
                one == traits_of(a.deep_view()),
                two == traits_of(b.deep_view()),
                x == one[i as int],
                left.len() == rest.len(),
                forall|k: int|
                    0 <= k < rest.len() ==> (#[trigger] rest@[k]) < b.len() && left[k]
                        == two[rest@[k] as int],
                match found {
                    Some(at) => at < rest.len() && left[at as int] == x,
                    None => forall|j: int| 0 <= j < k ==> #[trigger] left[j] != x,
                },
            decreases rest.len() - k, (if found.is_none() { 1int } else { 0 }),
        {
            let other = &b[rest[k]];
            assert(two[rest@[k as int] as int] == (other.name@, other.flow, other.stream));
            if a[i].name == other.name && a[i].flow == other.flow && a[i].stream == other.stream {
                found = Some(k);
            } else {
                assert(left[k as int] != x);
                k = k + 1;
            }
        }
        match found {
            Some(at) => {
                let ghost before = left;
                rest.remove(at);
                proof {
                    left = left.remove(at as int);
                    lemma_one_taken(one.take(i as int), before, at as int);
                    assert forall|k: int| 0 <= k < rest.len() implies (#[trigger] rest@[k])
                        < b.len() && left[k] == two[rest@[k] as int] by {}
                }
            },
            None => {
                proof {
                    assert(!left.contains(x));
                    lemma_not_taken(one, two, left, i as int);
                }
                return false;
            },
        }
        i = i + 1;
    }
    proof {
        assert(one.take(i as int) =~= one);
        assert(left =~= Seq::empty());
        lemma_all_taken(one, left);
    }
    true
}


/// How many of the members are flows.
pub open spec fn flows_in(members: Seq<MemberV>) -> nat
    decreases members.len(),
{
    if members.len() == 0 {
        0
    } else {
        flows_in(members.drop_last()) + (if members.last().flow {
            1nat
        } else {
            0
        })
    }
}

pub open spec fn has_stream(members: Seq<MemberV>) -> bool {
    exists|i: int| 0 <= i < members.len() && (#[trigger] members[i]).stream
}

/// The class of a connector.
pub open spec fn class_at(
    classes: Seq<&ClassDef>,
    connectors: Map<Seq<char>, Seq<char>>,
    path: Seq<char>,
) -> ClassDef {
    class_named(classes, connectors[path])->0
}

/// What the connector at a path holds.
pub open spec fn held_at(
    classes: Seq<&ClassDef>,
    connectors: Map<Seq<char>, Seq<char>>,
    path: Seq<char>,
) -> Seq<MemberV> {
    members_held(classes, class_at(classes, connectors, path), 0)
}

/// What is wrong with the first connector of a set, from the `i`-th on, that
/// holds other members than the first of all.
pub open spec fn mismatch(
    classes: Seq<&ClassDef>,
    connectors: Map<Seq<char>, Seq<char>>,
    set: Seq<Seq<char>>,
    i: nat,
) -> Option<Seq<char>>
    decreases set.len() - i,
{
    if i >= set.len() {
        None
    } else if shape_of(held_at(classes, connectors, set[i as int])) != shape_of(
        held_at(classes, connectors, set[0]),
    ) {
        Some(
            "connection set "@ + quoted_list(set) + " joins `"@ + connectors[set[0]] + "` to `"@
                + class_at(classes, connectors, set[i as int]).name@
                + "`, which have different members"@,
        )
    } else {
        mismatch(classes, connectors, set, i + 1)
    }
}

/// What is wrong with a connection set: connectors that do not match, or
/// stream variables without exactly one flow to ride on.
pub open spec fn set_trouble(
    classes: Seq<&ClassDef>,
    connectors: Map<Seq<char>, Seq<char>>,
    set: Seq<Seq<char>>,
) -> Option<Seq<char>> {
    match mismatch(classes, connectors, set, 0) {
        Some(why) => Some(why),
        None => {
            let held = held_at(classes, connectors, set[0]);
            if has_stream(held) && flows_in(held) != 1 {
                Some(
                    "connector `"@ + connectors[set[0]]
                        + "` carries stream variables, so it needs exactly one flow variable, found "@
                        + digits(flows_in(held)),
                )
            } else {
                None
            }
        },
    }
}

/// An equation that a connection makes belongs to no instance.
pub open spec fn made(lhs: ExprV, rhs: ExprV) -> EquationV {
    EquationV { lhs, rhs, origin: Seq::empty() }
}

/// The connector of a set that states the value, from the `i`-th on: the
/// first that is an output.
pub open spec fn output_from(
    classes: Seq<&ClassDef>,
    connectors: Map<Seq<char>, Seq<char>>,
    set: Seq<Seq<char>>,
    i: nat,
) -> Option<Seq<char>>
    decreases set.len() - i,
{
    if i >= set.len() {
        None
    } else if class_at(classes, connectors, set[i as int]).alias_causality == Causality::Output {
        Some(set[i as int])
    } else {
        output_from(classes, connectors, set, i + 1)
    }
}

/// The connector of a set that the others take their value from.
pub open spec fn source_of(
    classes: Seq<&ClassDef>,
    connectors: Map<Seq<char>, Seq<char>>,
    set: Seq<Seq<char>>,
) -> Seq<char> {
    match output_from(classes, connectors, set, 0) {
        Some(path) => path,
        None => set[0],
    }
}

/// One equation for each of the first `n` connectors but the source.
pub open spec fn taken_from(set: Seq<Seq<char>>, source: Seq<char>, n: nat) -> Seq<EquationV>
    decreases n,
{
    if n == 0 || n > set.len() {
        Seq::empty()
    } else {
        let before = taken_from(set, source, (n - 1) as nat);
        if set[n - 1] == source {
            before
        } else {
            before.push(made(ExprV::Ref(set[n - 1]), ExprV::Ref(source)))
        }
    }
}

/// The variables that a set of connectors call by one name.
pub open spec fn called(set: Seq<Seq<char>>, member: Seq<char>) -> Seq<ExprV> {
    Seq::new(set.len(), |i: int| ExprV::Ref(dotted(set[i], member)))
}

/// The equations one member of the connectors of a set comes to: a sum to
/// nothing for a flow, equalities against the first for a potential, and
/// none for a stream or for what is settled before the run.
pub open spec fn member_equations(set: Seq<Seq<char>>, member: MemberV) -> Seq<EquationV> {
    if member.variability == Variability::Parameter || member.variability == Variability::Constant
        || member.stream {
        Seq::empty()
    } else if member.flow {
        seq![made(summed(called(set, member.name)), ExprV::Number(zero()))]
    } else {
        Seq::new(
            (set.len() - 1) as nat,
            |i: int|
                made(
                    ExprV::Ref(dotted(set[i + 1], member.name)),
                    ExprV::Ref(dotted(set[0], member.name)),
                ),
        )
    }
}

/// The equations the first `n` members come to.
pub open spec fn members_equations(set: Seq<Seq<char>>, held: Seq<MemberV>, n: nat) -> Seq<
    EquationV,
>
    decreases n,
{
    if n == 0 || n > held.len() {
        Seq::empty()
    } else {
        members_equations(set, held, (n - 1) as nat) + member_equations(set, held[n - 1])
    }
}

/// The equations a connection set stands for. A connector that is one value
/// rather than a set of members joins on itself.
pub open spec fn set_equations(
    classes: Seq<&ClassDef>,
    connectors: Map<Seq<char>, Seq<char>>,
    set: Seq<Seq<char>>,
) -> Seq<EquationV> {
    let held = held_at(classes, connectors, set[0]);
    if held.len() == 0 && class_at(classes, connectors, set[0]).alias_of is Some {
        taken_from(set, source_of(classes, connectors, set), set.len())
    } else {
        members_equations(set, held, held.len())
    }
}

/// The equations of all the sets, or what is wrong with the first that has
/// something wrong with it.
pub open spec fn sets_equations(
    classes: Seq<&ClassDef>,
    connectors: Map<Seq<char>, Seq<char>>,
    sets: Seq<Seq<Seq<char>>>,
) -> Result<Seq<EquationV>, Seq<char>>
    decreases sets.len(),
{
    if sets.len() == 0 {
        Ok(Seq::empty())
    } else {
        match sets_equations(classes, connectors, sets.drop_last()) {
            Err(why) => Err(why),
            Ok(before) => match set_trouble(classes, connectors, sets.last()) {
                Some(why) => Err(why),
                None => Ok(before + set_equations(classes, connectors, sets.last())),
            },
        }
    }
}

proof fn lemma_sets_equations_stop(
    classes: Seq<&ClassDef>,
    connectors: Map<Seq<char>, Seq<char>>,
    sets: Seq<Seq<Seq<char>>>,
    n: int,
)
    requires
        0 <= n <= sets.len(),
        sets_equations(classes, connectors, sets.take(n)) is Err,
    ensures
        sets_equations(classes, connectors, sets) == sets_equations(
            classes,
            connectors,
            sets.take(n),
        ),
    decreases sets.len() - n,
{
    if n < sets.len() {
        assert(sets.take(n + 1).drop_last() =~= sets.take(n));
        lemma_sets_equations_stop(classes, connectors, sets, n + 1);
    } else {
        assert(sets.take(n) =~= sets);
    }
}

/// The node that each of the first `n` connectors of a set is on.
pub open spec fn noded(
    nodes: Map<Seq<char>, Seq<Seq<char>>>,
    set: Seq<Seq<char>>,
    n: nat,
) -> Map<Seq<char>, Seq<Seq<char>>>
    decreases n,
{
    if n == 0 || n > set.len() {
        nodes
    } else {
        noded(nodes, set, (n - 1) as nat).insert(set[n - 1], set)
    }
}

/// The node that every connector is on: its connection set.
pub open spec fn nodes_of(sets: Seq<Seq<Seq<char>>>) -> Map<Seq<char>, Seq<Seq<char>>>
    decreases sets.len(),
{
    if sets.len() == 0 {
        Map::empty()
    } else {
        noded(nodes_of(sets.drop_last()), sets.last(), sets.last().len())
    }
}

/// Whether one of a class's own declarations is a stream.
pub open spec fn declares_stream(class: ClassDef) -> bool {
    exists|i: int| 0 <= i < class.components@.len() && (#[trigger] class.components@[i]).stream
}

/// Whether any connector carries a stream.
pub open spec fn any_streams(
    classes: Seq<&ClassDef>,
    connectors: Map<Seq<char>, Seq<char>>,
    paths: Seq<Seq<char>>,
) -> bool {
    exists|i: int|
        0 <= i < paths.len() && declares_stream(
            class_at(classes, connectors, #[trigger] paths[i]),
        )
}

/// What joining the connections changes.
pub ghost struct JoinedV {
    pub equations: Seq<EquationV>,
    pub initial_equations: Seq<EquationV>,
    pub when_clauses: Seq<WhenClauseV>,
    pub asserts: Seq<(ExprV, Seq<char>)>,
    pub conditional: Seq<ConditionalV>,
}

pub open spec fn joined_part(acc: FlatV) -> JoinedV {
    JoinedV {
        equations: acc.equations,
        initial_equations: acc.initial_equations,
        when_clauses: acc.when_clauses,
        asserts: acc.asserts,
        conditional: acc.conditional,
    }
}

/// What was gathered, with that much of it made over.
pub open spec fn with_joined(acc: FlatV, made: JoinedV) -> FlatV {
    FlatV {
        equations: made.equations,
        initial_equations: made.initial_equations,
        when_clauses: made.when_clauses,
        asserts: made.asserts,
        conditional: made.conditional,
        ..acc
    }
}

/// What is gathered, with every stream resolved.
pub open spec fn all_unstreamed(j: JoinedV, context: StreamV) -> Result<JoinedV, Seq<char>> {
    let g = |e: ExprV| unstreamed(e, context);
    match tried_equations(g, j.equations) {
        Err(why) => Err(why),
        Ok(equations) => match tried_equations(g, j.initial_equations) {
            Err(why) => Err(why),
            Ok(initial_equations) => match tried_clauses(g, j.when_clauses) {
                Err(why) => Err(why),
                Ok(when_clauses) => match tried_asserts(g, j.asserts) {
                    Err(why) => Err(why),
                    Ok(asserts) => match tried_conditionals(g, j.conditional) {
                        Err(why) => Err(why),
                        Ok(conditional) => Ok(
                            JoinedV {
                                equations,
                                initial_equations,
                                when_clauses,
                                asserts,
                                conditional,
                            },
                        ),
                    },
                },
            },
        },
    }
}

/// The connection sets of what was gathered.
pub open spec fn sets_of(acc: FlatV) -> Seq<Seq<Seq<char>>> {
    let paths = keys_in_order(acc.connectors);
    let pairs = all_pairs(paths, acc.connects);
    sets_from(paths, positions(paths, pairs), paths.len())
}

/// What every `connect` comes to.
pub open spec fn joined_up(classes: Seq<&ClassDef>, acc: FlatV) -> Result<JoinedV, Seq<char>> {
    let connectors = entered(acc.connectors);
    let paths = keys_in_order(acc.connectors);
    let pairs = all_pairs(paths, acc.connects);
    let gathered = joined_part(acc);
    match first_unknown(paths, pairs) {
        Some(why) => Err(why),
        None => match sets_equations(classes, connectors, sets_of(acc)) {
            Err(why) => Err(why),
            Ok(more) => {
                let joined = JoinedV { equations: gathered.equations + more, ..gathered };
                if any_streams(classes, connectors, paths) {
                    all_unstreamed(
                        joined,
                        StreamV {
                            nodes: nodes_of(sets_of(acc)),
                            connectors,
                            outside: acc.outside,
                            classes,
                        },
                    )
                } else {
                    Ok(joined)
                }
            },
        },
    }
}

/// Whether every connector's class is known.
pub open spec fn all_known(
    classes: Seq<&ClassDef>,
    connectors: Map<Seq<char>, Seq<char>>,
) -> bool {
    forall|path: Seq<char>| #[trigger]
        connectors.contains_key(path) ==> class_named(classes, connectors[path]) is Some
}

fn find_class_at<'a>(registry: &Registry<'a>, connectors: &Table<String>, path: &str) -> (r: (
    &'a ClassDef,
    String,
))
    requires
        connectors.deep_view().contains_key(path@),
        all_known(registry@, connectors.deep_view()),
    ensures
        *r.0 == class_at(registry@, connectors.deep_view(), path@),
        r.1@ == connectors.deep_view()[path@],
{
    match connectors.get(path) {
        Some(class_name) => match find_class(registry, class_name.as_str()) {
            Some(class) => (class, class_name.clone()),
            None => {
                assert(false);
                (registry[0], String::new())
            },
        },
        None => {
            assert(false);
            (registry[0], String::new())
        },
    }
}

fn find_held(registry: &Registry, class: &ClassDef) -> (r: Vec<Member>)
    ensures
        r.deep_view() == members_held(registry@, *class, 0),
{
    let mut out: Vec<Member> = Vec::new();
    gather_members(registry, class, &mut out, 0);
    assert(out.deep_view() =~= members_held(registry@, *class, 0));
    out
}

/// The equations of one set, or what is wrong with it.
fn join_set(registry: &Registry, connectors: &Table<String>, set: &Vec<String>) -> (r: Result<
    Vec<EquationItem>,
    String,
>)
    requires
        set.len() > 0,
        all_known(registry@, connectors.deep_view()),
        forall|k: int|
            0 <= k < set.len() ==> connectors.deep_view().contains_key((#[trigger] set@[k])@),
    ensures
        match set_trouble(registry@, connectors.deep_view(), texts(set@)) {
            Some(trouble) => r matches Err(why) && why@ == trouble,
            None => r matches Ok(list) && list.deep_view() == set_equations(
                registry@,
                connectors.deep_view(),
                texts(set@),
            ),
        },
{
    let ghost paths = texts(set@);
    let ghost names = connectors.deep_view();
    assert(paths[0] == set@[0]@);
    let (class, class_name) = find_class_at(registry, connectors, set[0].as_str());
    let held = find_held(registry, class);
    let mut i: usize = 0;
    while i < set.len()
        invariant
            i <= set.len(),
            paths == texts(set@),
            names == connectors.deep_view(),
            all_known(registry@, names),
            forall|k: int| 0 <= k < set.len() ==> names.contains_key((#[trigger] set@[k])@),
            class_name@ == names[paths[0]],
            held.deep_view() == held_at(registry@, names, paths[0]),
            mismatch(registry@, names, paths, 0) == mismatch(registry@, names, paths, i as nat),
        decreases set.len() - i,
    {
        assert(paths[i as int] == set@[i as int]@);
        let (other, _) = find_class_at(registry, connectors, set[i].as_str());
        let theirs = find_held(registry, other);
        if !same_shape(&theirs, &held) {
            let list = quoted(set);
            return Err(
                join7(
                    "connection set ",
                    list.as_str(),
                    " joins `",
                    class_name.as_str(),
                    "` to `",
                    other.name.as_str(),
                    "`, which have different members",
                ),
            );
        }
        i = i + 1;
    }
    let mut streams: bool = false;
    let mut flows: u64 = 0;
    let mut i: usize = 0;
    let ghost all = held.deep_view();
    assert(all.take(0) =~= Seq::empty());
    while i < held.len()
        invariant
            i <= held.len(),
            all == held.deep_view(),
            streams <==> exists|k: int| 0 <= k < i && (#[trigger] all[k]).stream,
            flows <= i,
            flows == flows_in(all.take(i as int)),
        decreases held.len() - i,
    {
        assert(all.take(i + 1).drop_last() =~= all.take(i as int));
        assert(all[i as int] == held@[i as int].deep_view());
        if held[i].stream {
            streams = true;
            assert(all[i as int].stream);
        }
        if held[i].flow {
            flows = flows + 1;
        }
        i = i + 1;
    }
    assert(all.take(i as int) =~= all);
    if streams && flows != 1 {
        let count = decimal(flows);
        return Err(
            crate::text::join4(
                "connector `",
                class_name.as_str(),
                "` carries stream variables, so it needs exactly one flow variable, found ",
                count.as_str(),
            ),
        );
    }
    if held.len() == 0 && class.alias_of.is_some() {
        return Ok(join_values(registry, connectors, set));
    }
    let mut out: Vec<EquationItem> = Vec::new();
    let mut i: usize = 0;
    assert(out.deep_view() =~= members_equations(paths, all, 0));
    while i < held.len()
        invariant
            i <= held.len(),
            set.len() > 0,
            paths == texts(set@),
            all == held.deep_view(),
            out.deep_view() == members_equations(paths, all, i as nat),
        decreases held.len() - i,
    {
        assert(all[i as int] == held@[i as int].deep_view());
        push_member_equations(set, &held[i], &mut out);
        i = i + 1;
    }
    Ok(out)
}

fn join_values(registry: &Registry, connectors: &Table<String>, set: &Vec<String>) -> (r: Vec<
    EquationItem,
>)
    requires
        set.len() > 0,
        all_known(registry@, connectors.deep_view()),
        forall|k: int|
            0 <= k < set.len() ==> connectors.deep_view().contains_key((#[trigger] set@[k])@),
    ensures
        r.deep_view() == taken_from(
            texts(set@),
            source_of(registry@, connectors.deep_view(), texts(set@)),
            set@.len(),
        ),
{
    let ghost paths = texts(set@);
    let ghost names = connectors.deep_view();
    let mut source: usize = 0;
    let mut i: usize = 0;
    let mut found: bool = false;
    while i < set.len() && !found
        invariant
            i <= set.len(),
            set.len() > 0,
            paths == texts(set@),
            names == connectors.deep_view(),
            all_known(registry@, names),
            forall|k: int| 0 <= k < set.len() ==> names.contains_key((#[trigger] set@[k])@),
            source < set.len(),
            found ==> output_from(registry@, names, paths, 0) == Some(paths[source as int]),
            !found ==> source == 0 && output_from(registry@, names, paths, 0) == output_from(
                registry@,
                names,
                paths,
                i as nat,
            ),
        decreases set.len() - i, (if found { 0int } else { 1 }),
    {
        assert(paths[i as int] == set@[i as int]@);
        let (class, _) = find_class_at(registry, connectors, set[i].as_str());
        if class.alias_causality == Causality::Output {
            source = i;
            found = true;
        } else {
            i = i + 1;
        }
    }
    let ghost from = source_of(registry@, names, paths);
    assert(from == paths[source as int]);
    assert(from == set@[source as int]@);
    let mut out: Vec<EquationItem> = Vec::new();
    let mut i: usize = 0;
    assert(out.deep_view() =~= taken_from(paths, from, 0));
    while i < set.len()
        invariant
            i <= set.len(),
            source < set.len(),
            paths == texts(set@),
            from == set@[source as int]@,
            out.deep_view() == taken_from(paths, from, i as nat),
        decreases set.len() - i,
    {
        let ghost before = out.deep_view();
        assert(paths[i as int] == set@[i as int]@);
        if set[i] != set[source] {
            push_made(
                &mut out,
                make::name(set[i].clone()),
                make::name(set[source].clone()),
            );
        }
        i = i + 1;
    }
    out
}

fn push_made(out: &mut Vec<EquationItem>, lhs: Expr, rhs: Expr)
    ensures
        final(out).deep_view() == old(out).deep_view().push(
            made(lhs.deep_view(), rhs.deep_view()),
        ),
{
    let ghost before = out.deep_view();
    let one = EquationItem { lhs, rhs, origin: String::new() };
    assert(one.origin@ =~= Seq::empty());
    out.push(one);
    assert(out.deep_view() =~= before.push(made(lhs.deep_view(), rhs.deep_view())));
}

fn push_member_equations(set: &Vec<String>, member: &Member, out: &mut Vec<EquationItem>)
    requires
        set.len() > 0,
    ensures
        final(out).deep_view() == old(out).deep_view() + member_equations(
            texts(set@),
            member.deep_view(),
        ),
{
    let ghost was = out.deep_view();
    let ghost paths = texts(set@);
    let ghost name = member.name@;
    if matches!(member.variability, Variability::Parameter | Variability::Constant) || member.stream {
        assert(was =~= was + Seq::empty());
        return;
    }
    if member.flow {
        let mut terms: Vec<Expr> = Vec::new();
        let mut i: usize = 0;
        while i < set.len()
            invariant
                i <= set.len(),
                paths == texts(set@),
                name == member.name@,
                terms.len() == i,
                forall|k: int|
                    0 <= k < i ==> (#[trigger] terms@[k]).deep_view() == called(paths, name)[k],
            decreases set.len() - i,
        {
            terms.push(make::name(dot(set[i].as_str(), member.name.as_str())));
            i = i + 1;
        }
        assert(terms.deep_view() =~= called(paths, name));
        push_made(out, sum_of(terms), make::number(zero()));
        assert(out.deep_view() =~= was + member_equations(paths, member.deep_view()));
        return;
    }
    let ghost aim = member_equations(paths, member.deep_view());
    let mut i: usize = 1;
    assert(was =~= was + aim.take(0));
    while i < set.len()
        invariant
            1 <= i <= set.len(),
            paths == texts(set@),
            name == member.name@,
            aim.len() == set.len() - 1,
            forall|k: int|
                0 <= k < aim.len() ==> #[trigger] aim[k] == made(
                    ExprV::Ref(dotted(paths[k + 1], name)),
                    ExprV::Ref(dotted(paths[0], name)),
                ),
            out.deep_view() == was + aim.take(i - 1),
        decreases set.len() - i,
    {
        let ghost before = out.deep_view();
        assert(paths[0] == set@[0]@);
        assert(paths[i as int] == set@[i as int]@);
        push_made(
            out,
            make::name(dot(set[i].as_str(), member.name.as_str())),
            make::name(dot(set[0].as_str(), member.name.as_str())),
        );
        assert(out.deep_view() =~= before.push(aim[i - 1]));
        assert(out.deep_view() =~= was + aim.take(i as int));
        i = i + 1;
    }
    assert(aim.take(i - 1) =~= aim);
}

/// The equations of all the sets.
fn join_sets(registry: &Registry, connectors: &Table<String>, sets: &Vec<Vec<String>>) -> (r:
    Result<Vec<EquationItem>, String>)
    requires
        all_known(registry@, connectors.deep_view()),
        forall|i: int| 0 <= i < sets.len() ==> (#[trigger] sets@[i])@.len() > 0,
        forall|i: int, k: int|
            0 <= i < sets.len() && 0 <= k < sets@[i]@.len() ==> connectors.deep_view().contains_key(
                (#[trigger] sets@[i]@[k])@,
            ),
    ensures
        told(r) == sets_equations(registry@, connectors.deep_view(), sets.deep_view()),
{
    let ghost names = connectors.deep_view();
    let ghost all = sets.deep_view();
    let mut out: Vec<EquationItem> = Vec::new();
    let mut i: usize = 0;
    assert(all.take(0) =~= Seq::empty());
    assert(out.deep_view() =~= Seq::empty());
    while i < sets.len()
        invariant
            i <= sets.len(),
            names == connectors.deep_view(),
            all == sets.deep_view(),
            all_known(registry@, names),
            forall|i: int| 0 <= i < sets.len() ==> (#[trigger] sets@[i])@.len() > 0,
            forall|i: int, k: int|
                0 <= i < sets.len() && 0 <= k < sets@[i]@.len() ==> names.contains_key(
                    (#[trigger] sets@[i]@[k])@,
                ),
            sets_equations(registry@, names, all.take(i as int)) == Ok::<
                Seq<EquationV>,
                Seq<char>,
            >(out.deep_view()),
        decreases sets.len() - i,
    {
        let ghost before = out.deep_view();
        assert(all.take(i + 1).drop_last() =~= all.take(i as int));
        assert(all[i as int] =~= texts(sets@[i as int]@));
        match join_set(registry, connectors, &sets[i]) {
            Ok(mut more) => {
                let ghost added = more.deep_view();
                out.append(&mut more);
                assert(out.deep_view() =~= before + added);
            },
            Err(why) => {
                proof {
                    lemma_sets_equations_stop(registry@, names, all, i + 1);
                }
                return Err(why);
            },
        }
        i = i + 1;
    }
    assert(all.take(i as int) =~= all);
    Ok(out)
}

fn node_table(sets: &Vec<Vec<String>>) -> (r: Table<Vec<String>>)
    ensures
        r.deep_view() == nodes_of(sets.deep_view()),
{
    let ghost all = sets.deep_view();
    let mut out: Table<Vec<String>> = Table::new();
    let mut i: usize = 0;
    assert(all.take(0) =~= Seq::empty());
    while i < sets.len()
        invariant
            i <= sets.len(),
            all == sets.deep_view(),
            out.deep_view() == nodes_of(all.take(i as int)),
        decreases sets.len() - i,
    {
        let ghost before = out.deep_view();
        let ghost set = all[i as int];
        assert(all.take(i + 1).drop_last() =~= all.take(i as int));
        let mut k: usize = 0;
        while k < sets[i].len()
            invariant
                i < sets.len(),
                k <= sets@[i as int].len(),
                set == sets@[i as int].deep_view(),
                out.deep_view() == noded(before, set, k as nat),
            decreases sets@[i as int].len() - k,
        {
            out.put(sets[i][k].clone(), crate::class::copied(&sets[i]));
            k = k + 1;
        }
        i = i + 1;
    }
    assert(all.take(i as int) =~= all);
    out
}

fn carries_streams(registry: &Registry, connectors: &Table<String>, paths: &Vec<String>) -> (r:
    bool)
    requires
        all_known(registry@, connectors.deep_view()),
        forall|k: int|
            0 <= k < paths.len() ==> connectors.deep_view().contains_key((#[trigger] paths@[k])@),
    ensures
        r == any_streams(registry@, connectors.deep_view(), texts(paths@)),
{
    let ghost names = connectors.deep_view();
    let ghost list = texts(paths@);
    let mut i: usize = 0;
    while i < paths.len()
        invariant
            i <= paths.len(),
            names == connectors.deep_view(),
            list == texts(paths@),
            all_known(registry@, names),
            forall|k: int| 0 <= k < paths.len() ==> names.contains_key((#[trigger] paths@[k])@),
            forall|k: int|
                0 <= k < i ==> !declares_stream(class_at(registry@, names, #[trigger] list[k])),
        decreases paths.len() - i,
    {
        assert(list[i as int] == paths@[i as int]@);
        let (class, _) = find_class_at(registry, connectors, paths[i].as_str());
        let mut k: usize = 0;
        while k < class.components.len()
            invariant
                i < paths.len(),
                k <= class.components.len(),
                list.len() == paths.len(),
                *class == class_at(registry@, names, list[i as int]),
                list == texts(paths@),
                names == connectors.deep_view(),
                forall|j: int| 0 <= j < k ==> !(#[trigger] class.components@[j]).stream,
            decreases class.components.len() - k,
        {
            if class.components[k].stream {
                assert(class.components@[k as int].stream);
                assert(declares_stream(class_at(registry@, names, list[i as int])));
                return true;
            }
            k = k + 1;
        }
        i = i + 1;
    }
    false
}

/// Every connector is on the node of its set.
proof fn lemma_noded(
    nodes: Map<Seq<char>, Seq<Seq<char>>>,
    set: Seq<Seq<char>>,
    n: nat,
)
    requires
        n <= set.len(),
    ensures
        forall|x: Seq<char>| nodes.contains_key(x) ==> #[trigger] noded(nodes, set, n).contains_key(x),
        forall|k: int| 0 <= k < n ==> noded(nodes, set, n).contains_key(#[trigger] set[k]),
    decreases n,
{
    if n > 0 {
        lemma_noded(nodes, set, (n - 1) as nat);
        let before = noded(nodes, set, (n - 1) as nat);
        assert forall|x: Seq<char>| nodes.contains_key(x) implies #[trigger] noded(
            nodes,
            set,
            n,
        ).contains_key(x) by {
            assert(before.contains_key(x));
        }
    }
}

proof fn lemma_nodes_of(sets: Seq<Seq<Seq<char>>>)
    ensures
        forall|i: int, k: int|
            0 <= i < sets.len() && 0 <= k < sets[i].len() ==> nodes_of(sets).contains_key(
                #[trigger] sets[i][k],
            ),
    decreases sets.len(),
{
    if sets.len() > 0 {
        let front = sets.drop_last();
        lemma_nodes_of(front);
        lemma_noded(nodes_of(front), sets.last(), sets.last().len());
        assert forall|i: int, k: int|
            0 <= i < sets.len() && 0 <= k < sets[i].len() implies nodes_of(sets).contains_key(
            #[trigger] sets[i][k],
        ) by {
            if i < front.len() {
                assert(front[i][k] == sets[i][k]);
                assert(nodes_of(front).contains_key(front[i][k]));
            } else {
                assert(sets.last()[k] == sets[i][k]);
            }
        }
    }
}

proof fn lemma_set_from(
    paths: Seq<Seq<char>>,
    edges: Seq<(usize, usize)>,
    first: int,
    n: nat,
    i: int,
)
    requires
        n <= paths.len(),
        0 <= i < n,
        group_of(edges, i) == first,
    ensures
        set_from(paths, edges, first, n).contains(paths[i]),
    decreases n,
{
    let here = set_from(paths, edges, first, n);
    let before = set_from(paths, edges, first, (n - 1) as nat);
    if i == n - 1 {
        assert(here[before.len() as int] == paths[i]);
    } else {
        lemma_set_from(paths, edges, first, (n - 1) as nat, i);
        let k = choose|k: int| 0 <= k < before.len() && before[k] == paths[i];
        assert(here[k] == paths[i]);
    }
}

proof fn lemma_sets_from(
    paths: Seq<Seq<char>>,
    edges: Seq<(usize, usize)>,
    n: nat,
    first: int,
)
    requires
        n <= paths.len(),
        0 <= first < n,
        group_of(edges, first) == first,
    ensures
        exists|s: int|
            0 <= s < sets_from(paths, edges, n).len() && #[trigger] sets_from(paths, edges, n)[s]
                == set_from(paths, edges, first, paths.len()),
    decreases n,
{
    let here = sets_from(paths, edges, n);
    let before = sets_from(paths, edges, (n - 1) as nat);
    if first == n - 1 {
        assert(here[before.len() as int] == set_from(paths, edges, first, paths.len()));
    } else {
        lemma_sets_from(paths, edges, (n - 1) as nat, first);
        let s = choose|s: int|
            0 <= s < before.len() && #[trigger] before[s] == set_from(
                paths,
                edges,
                first,
                paths.len(),
            );
        assert(here[s] == set_from(paths, edges, first, paths.len()));
    }
}

/// Every connector is in a connection set, together with the connectors it is
/// linked to, and, where no path stands twice, with no others.
pub proof fn law_sets(paths: Seq<Seq<char>>, edges: Seq<(usize, usize)>, i: int)
    requires
        0 <= i < paths.len(),
    ensures
        exists|s: int|
            0 <= s < sets_from(paths, edges, paths.len()).len() && (#[trigger] sets_from(
                paths,
                edges,
                paths.len(),
            )[s]).contains(paths[i]) && forall|j: int|
                0 <= j < paths.len() && crate::groups::linked(edges, i, j) ==> sets_from(
                    paths,
                    edges,
                    paths.len(),
                )[s].contains(#[trigger] paths[j]),
        nodes_of(sets_from(paths, edges, paths.len())).contains_key(paths[i]),
        paths.no_duplicates() ==> forall|s: int, j: int|
            0 <= s < sets_from(paths, edges, paths.len()).len() && 0 <= j < paths.len()
                && #[trigger] sets_from(paths, edges, paths.len())[s].contains(paths[i])
                && #[trigger] sets_from(paths, edges, paths.len())[s].contains(paths[j])
                ==> crate::groups::linked(edges, i, j),
{
    let first = group_of(edges, i);
    crate::groups::law_groups(edges, i, i);
    lemma_sets_from(paths, edges, paths.len(), first);
    let sets = sets_from(paths, edges, paths.len());
    let s = choose|s: int|
        0 <= s < sets.len() && #[trigger] sets[s] == set_from(paths, edges, first, paths.len());
    lemma_set_from(paths, edges, first, paths.len(), i);
    assert forall|j: int| 0 <= j < paths.len() && crate::groups::linked(edges, i, j) implies sets[s].contains(
        #[trigger] paths[j],
    ) by {
        crate::groups::law_groups(edges, i, j);
        lemma_set_from(paths, edges, first, paths.len(), j);
    }
    lemma_nodes_of(sets);
    let k = choose|k: int| 0 <= k < sets[s].len() && sets[s][k] == paths[i];
    assert(nodes_of(sets).contains_key(sets[s][k]));
    if paths.no_duplicates() {
        assert forall|s: int, j: int|
            0 <= s < sets.len() && 0 <= j < paths.len() && #[trigger] sets[s].contains(paths[i])
                && #[trigger] sets[s].contains(paths[j]) implies crate::groups::linked(
            edges,
            i,
            j,
        ) by {
            lemma_set_begins(paths, edges, paths.len(), s);
            let begins = choose|begins: int| sets[s] == #[trigger] set_from(
                paths,
                edges,
                begins,
                paths.len(),
            );
            lemma_only_its_own(paths, edges, begins, paths.len(), i);
            lemma_only_its_own(paths, edges, begins, paths.len(), j);
            crate::groups::law_groups(edges, i, j);
        }
    }
}

proof fn lemma_set_begins(paths: Seq<Seq<char>>, edges: Seq<(usize, usize)>, n: nat, s: int)
    requires
        0 <= s < sets_from(paths, edges, n).len(),
    ensures
        exists|begins: int|
            sets_from(paths, edges, n)[s] == #[trigger] set_from(
                paths,
                edges,
                begins,
                paths.len(),
            ),
    decreases n,
{
    let before = sets_from(paths, edges, (n - 1) as nat);
    if s < before.len() {
        lemma_set_begins(paths, edges, (n - 1) as nat, s);
        let begins = choose|begins: int|
            before[s] == #[trigger] set_from(paths, edges, begins, paths.len());
        assert(sets_from(paths, edges, n)[s] == set_from(paths, edges, begins, paths.len()));
    } else {
        assert(sets_from(paths, edges, n)[s] == set_from(paths, edges, n - 1, paths.len()));
    }
}

proof fn lemma_only_its_own(
    paths: Seq<Seq<char>>,
    edges: Seq<(usize, usize)>,
    begins: int,
    n: nat,
    i: int,
)
    requires
        paths.no_duplicates(),
        0 <= i < paths.len(),
        n <= paths.len(),
        set_from(paths, edges, begins, n).contains(paths[i]),
    ensures
        i < n,
        group_of(edges, i) == begins,
    decreases n,
{
    let here = set_from(paths, edges, begins, n);
    let at = choose|at: int| 0 <= at < here.len() && here[at] == paths[i];
    if n > 0 {
        let before = set_from(paths, edges, begins, (n - 1) as nat);
        if at < before.len() {
            assert(before[at] == paths[i]);
            lemma_only_its_own(paths, edges, begins, (n - 1) as nat, i);
        } else {
            assert(here[at] == paths[n - 1]);
        }
    }
}

proof fn lemma_member_kept(set: Seq<Seq<char>>, held: Seq<MemberV>, k: int, n: nat, e: EquationV)
    requires
        0 <= k < n <= held.len(),
        member_equations(set, held[k]).contains(e),
    ensures
        members_equations(set, held, n).contains(e),
    decreases n,
{
    let before = members_equations(set, held, (n - 1) as nat);
    let own = member_equations(set, held[n - 1]);
    if k == n - 1 {
        let at = choose|at: int| 0 <= at < own.len() && own[at] == e;
        assert((before + own)[before.len() + at] == e);
    } else {
        lemma_member_kept(set, held, k, (n - 1) as nat, e);
        let at = choose|at: int| 0 <= at < before.len() && before[at] == e;
        assert((before + own)[at] == e);
    }
}

/// A connection set equates the potentials of its connectors and sums their
/// flows to nothing: a potential of every connector is that of the first, the
/// flows of all of them together are nothing, and so the flow of a connector
/// that nothing is connected to is nothing by itself.
pub proof fn law_potentials_are_equal_and_flows_sum_to_nothing(
    set: Seq<Seq<char>>,
    held: Seq<MemberV>,
    k: int,
)
    requires
        0 <= k < held.len(),
        !held[k].stream,
        held[k].variability == Variability::Continuous || held[k].variability
            == Variability::Discrete,
    ensures
        !held[k].flow ==> forall|i: int|
            1 <= i < set.len() ==> members_equations(set, held, held.len()).contains(
                made(
                    ExprV::Ref(dotted(#[trigger] set[i], held[k].name)),
                    ExprV::Ref(dotted(set[0], held[k].name)),
                ),
            ),
        held[k].flow ==> members_equations(set, held, held.len()).contains(
            made(summed(called(set, held[k].name)), ExprV::Number(zero())),
        ),
        held[k].flow && set.len() == 1 ==> members_equations(set, held, held.len()).contains(
            made(ExprV::Ref(dotted(set[0], held[k].name)), ExprV::Number(zero())),
        ),
{
    let own = member_equations(set, held[k]);
    if held[k].flow {
        let e = made(summed(called(set, held[k].name)), ExprV::Number(zero()));
        assert(own[0] == e);
        lemma_member_kept(set, held, k, held.len(), e);
    } else {
        assert forall|i: int| 1 <= i < set.len() implies members_equations(
            set,
            held,
            held.len(),
        ).contains(
            made(
                ExprV::Ref(dotted(#[trigger] set[i], held[k].name)),
                ExprV::Ref(dotted(set[0], held[k].name)),
            ),
        ) by {
            let e = made(
                ExprV::Ref(dotted(set[i], held[k].name)),
                ExprV::Ref(dotted(set[0], held[k].name)),
            );
            assert(own[i - 1] == e);
            lemma_member_kept(set, held, k, held.len(), e);
        }
    }
}

/// What every `connect` of the model comes to: the sets they draw, the
/// equations those sets stand for, and the streams answered from them.
///
/// Connectors in one set must match in shape, not in name: a signal output
/// and a signal input are different classes with the same members. Where a
/// failure is reported what was gathered is not to be used any further.
#[verifier::rlimit(60)]
pub fn join_the_connections(registry: &Registry, acc: &mut Flat) -> (r: Result<(), String>)
    requires
        all_known(registry@, old(acc).connectors.deep_view()),
    ensures
        match joined_up(registry@, old(acc).deep_view()) {
            Ok(joined) => r is Ok && final(acc).deep_view() == with_joined(
                old(acc).deep_view(),
                joined,
            ),
            Err(trouble) => r matches Err(why) && why@ == trouble,
        },
        final(acc).components == old(acc).components,
        final(acc).sizes == old(acc).sizes,
        final(acc).origin == old(acc).origin,
        final(acc).outside == old(acc).outside,
        final(acc).transports == old(acc).transports,
        final(acc).transitions == old(acc).transitions,
        final(acc).initial_states == old(acc).initial_states,
        final(acc).connection_graph == old(acc).connection_graph,
        final(acc).connectors == old(acc).connectors,
        final(acc).connect_rules == old(acc).connect_rules,
        final(acc).connects == old(acc).connects,
        final(acc).const_values == old(acc).const_values,
        final(acc).disabled == old(acc).disabled,
        final(acc).roots == old(acc).roots,
        final(acc).counts == old(acc).counts,
        final(acc).answered == old(acc).answered,
        final(acc).graph_asked == old(acc).graph_asked,
        final(acc).handles == old(acc).handles,
        final(acc).unsupplied == old(acc).unsupplied,
        final(acc).records == old(acc).records,
        final(acc).rest == old(acc).rest,
{
    let ghost was = *acc;
    let ghost names = acc.connectors.deep_view();
    let ghost keys = names_of(acc.connectors.entries.deep_view());
    let paths = paths_in_order(&acc.connectors);
    let ghost list = texts(paths@);
    proof {
        law_ordered(keys);
        assert forall|k: int| 0 <= k < paths.len() implies names.contains_key(
            (#[trigger] paths@[k])@,
        ) by {
            assert(list[k] == paths@[k]@);
            assert(list.contains(list[k]));
            let e = choose|e: int| 0 <= e < keys.len() && keys[e] == list[k];
            crate::table::lemma_is_entered(acc.connectors.entries.deep_view(), e);
        }
    }
    let pairs = find_pairs(&paths, &acc.connects);
    let edges = match find_positions(&paths, &pairs) {
        Ok(edges) => edges,
        Err(why) => {
            return Err(why);
        },
    };
    let sets = find_sets(&paths, &edges);
    proof {
        assert forall|i: int, k: int|
            0 <= i < sets.len() && 0 <= k < sets@[i]@.len() implies names.contains_key(
            (#[trigger] sets@[i]@[k])@,
        ) by {
            assert(list.contains(sets@[i]@[k]@));
            let e = choose|e: int| 0 <= e < list.len() && list[e] == sets@[i]@[k]@;
            assert(names.contains_key(paths@[e]@));
        }
    }
    let mut more = match join_sets(registry, &acc.connectors, &sets) {
        Ok(more) => more,
        Err(why) => {
            return Err(why);
        },
    };
    let ghost before = acc.equations.deep_view();
    let ghost added = more.deep_view();
    acc.equations.append(&mut more);
    assert(acc.equations.deep_view() =~= before + added);
    if carries_streams(registry, &acc.connectors, &paths) {
        return resolve_all(registry, acc, &sets, &paths);
    }
    Ok(())
}

fn resolve_all(registry: &Registry, acc: &mut Flat, sets: &Vec<Vec<String>>, paths: &Vec<String>) -> (r:
    Result<(), String>)
    requires
        all_known(registry@, old(acc).connectors.deep_view()),
        texts(paths@) == keys_in_order(old(acc).connectors.entries.deep_view()),
        exists|edges: Seq<(usize, usize)>|
            sets.deep_view() == #[trigger] sets_from(texts(paths@), edges, paths@.len()),
    ensures
        match all_unstreamed(
            joined_part(old(acc).deep_view()),
            StreamV {
                nodes: nodes_of(sets.deep_view()),
                connectors: old(acc).connectors.deep_view(),
                outside: texts(old(acc).outside@),
                classes: registry@,
            },
        ) {
            Ok(joined) => r is Ok && joined_part(final(acc).deep_view()) == joined,
            Err(trouble) => r matches Err(why) && why@ == trouble,
        },
        final(acc).components == old(acc).components,
        final(acc).sizes == old(acc).sizes,
        final(acc).origin == old(acc).origin,
        final(acc).outside == old(acc).outside,
        final(acc).transports == old(acc).transports,
        final(acc).transitions == old(acc).transitions,
        final(acc).initial_states == old(acc).initial_states,
        final(acc).connection_graph == old(acc).connection_graph,
        final(acc).connectors == old(acc).connectors,
        final(acc).connect_rules == old(acc).connect_rules,
        final(acc).connects == old(acc).connects,
        final(acc).const_values == old(acc).const_values,
        final(acc).disabled == old(acc).disabled,
        final(acc).roots == old(acc).roots,
        final(acc).counts == old(acc).counts,
        final(acc).answered == old(acc).answered,
        final(acc).graph_asked == old(acc).graph_asked,
        final(acc).handles == old(acc).handles,
        final(acc).unsupplied == old(acc).unsupplied,
        final(acc).records == old(acc).records,
        final(acc).rest == old(acc).rest,
{
    let nodes = node_table(sets);
    let context = StreamContext {
        nodes,
        connectors: &acc.connectors,
        outside: &acc.outside,
        registry,
    };
    let ghost held = context.held();
    let ghost g = |e: ExprV| unstreamed(e, held);
    proof {
        let edges = choose|edges: Seq<(usize, usize)>|
            sets.deep_view() == #[trigger] sets_from(texts(paths@), edges, paths@.len());
        let list = texts(paths@);
        let keys = names_of(old(acc).connectors.entries.deep_view());
        law_ordered(keys);
        assert forall|path: Seq<char>| #[trigger]
            held.connectors.contains_key(path) implies held.nodes.contains_key(path) by {
            let e = crate::table::lemma_entry_of(
                old(acc).connectors.entries.deep_view(),
                path,
            );
            assert(keys[e] == path);
            assert(list.contains(path));
            let i = choose|i: int| 0 <= i < list.len() && list[i] == path;
            law_sets(list, edges, i);
        }
        assert(is_whole(held));
    }
    let resolve = |e: &Expr| -> (r: Result<Expr, String>)
        requires
            is_whole(context.held()),
        ensures
            told(r) == unstreamed(e.deep_view(), context.held()),
        { resolve_streams(e, &context) };
    assert(computes_or_fails(resolve, g));
    if let Err(why) = try_equations(&mut acc.equations, &resolve, Ghost(g)) {
        return Err(why);
    }
    if let Err(why) = try_equations(&mut acc.initial_equations, &resolve, Ghost(g)) {
        return Err(why);
    }
    if let Err(why) = try_clauses(&mut acc.when_clauses, &resolve, Ghost(g)) {
        return Err(why);
    }
    if let Err(why) = try_asserts(&mut acc.asserts, &resolve, Ghost(g)) {
        return Err(why);
    }
    if let Err(why) = try_conditionals(&mut acc.conditional, &resolve, Ghost(g)) {
        return Err(why);
    }
    Ok(())
}

/// Whether a list has a connection in it, whichever way round it is written.
pub open spec fn is_written_in(list: Seq<(Seq<char>, Seq<char>)>, one: (Seq<char>, Seq<char>)) -> bool {
    list.contains(one) || list.contains((one.1, one.0))
}

/// Whether every connection of one list is in the other.
pub open spec fn all_written_in(
    list: Seq<(Seq<char>, Seq<char>)>,
    other: Seq<(Seq<char>, Seq<char>)>,
) -> bool {
    forall|i: int| 0 <= i < list.len() ==> is_written_in(other, #[trigger] list[i])
}

proof fn lemma_pairs_of_one(
    paths: Seq<Seq<char>>,
    connects: Seq<(Seq<char>, Seq<char>)>,
    at: int,
    k: int,
)
    requires
        0 <= at < connects.len(),
        0 <= k < pairs_of(paths, connects[at]).len(),
    ensures
        all_pairs(paths, connects).contains(pairs_of(paths, connects[at])[k]),
    decreases connects.len(),
{
    let before = all_pairs(paths, connects.drop_last());
    let last = pairs_of(paths, connects.last());
    let whole = before + last;
    if at == connects.len() - 1 {
        assert(whole[before.len() + k] == last[k]);
    } else {
        assert(connects.drop_last()[at] == connects[at]);
        lemma_pairs_of_one(paths, connects.drop_last(), at, k);
        let j = before.index_of(pairs_of(paths, connects[at])[k]);
        assert(whole[j] == before[j]);
    }
}

proof fn lemma_pair_comes_from(
    paths: Seq<Seq<char>>,
    connects: Seq<(Seq<char>, Seq<char>)>,
    k: int,
) -> (r: (int, int))
    requires
        0 <= k < all_pairs(paths, connects).len(),
    ensures
        0 <= r.0 < connects.len(),
        0 <= r.1 < pairs_of(paths, connects[r.0]).len(),
        all_pairs(paths, connects)[k] == pairs_of(paths, connects[r.0])[r.1],
    decreases connects.len(),
{
    let before = all_pairs(paths, connects.drop_last());
    if k < before.len() {
        let r = lemma_pair_comes_from(paths, connects.drop_last(), k);
        assert(connects.drop_last()[r.0] == connects[r.0]);
        r
    } else {
        (connects.len() - 1, k - before.len())
    }
}

proof fn lemma_same_pairs(
    paths: Seq<Seq<char>>,
    one: Seq<(Seq<char>, Seq<char>)>,
    other: Seq<(Seq<char>, Seq<char>)>,
)
    requires
        all_written_in(one, other),
    ensures
        all_written_in(all_pairs(paths, one), all_pairs(paths, other)),
{
    let pairs = all_pairs(paths, one);
    let more = all_pairs(paths, other);
    assert forall|k: int| 0 <= k < pairs.len() implies is_written_in(more, #[trigger] pairs[k]) by {
        let (at, j) = lemma_pair_comes_from(paths, one, k);
        let c = one[at];
        assert(is_written_in(other, c));
        if other.contains(c) {
            let i = other.index_of(c);
            lemma_pairs_of_one(paths, other, i, j);
        } else {
            let back = (c.1, c.0);
            let i = other.index_of(back);
            assert(other[i] == back);
            assert(pairs_of(paths, back).len() == pairs_of(paths, c).len());
            assert(pairs_of(paths, back)[j] == (pairs_of(paths, c)[j].1, pairs_of(paths, c)[j].0));
            lemma_pairs_of_one(paths, other, i, j);
        }
    }
}

proof fn lemma_known_pairs(paths: Seq<Seq<char>>, pairs: Seq<(Seq<char>, Seq<char>)>)
    ensures
        first_unknown(paths, pairs) is None <==> forall|k: int|
            0 <= k < pairs.len() ==> paths.contains((#[trigger] pairs[k]).0) && paths.contains(
                pairs[k].1,
            ),
    decreases pairs.len(),
{
    if pairs.len() > 0 {
        let rest = pairs.drop_first();
        lemma_known_pairs(paths, rest);
        if forall|k: int|
            0 <= k < rest.len() ==> paths.contains((#[trigger] rest[k]).0) && paths.contains(
                rest[k].1,
            ) {
            assert forall|k: int| 0 < k < pairs.len() implies paths.contains(
                (#[trigger] pairs[k]).0,
            ) && paths.contains(pairs[k].1) by {
                assert(pairs[k] == rest[k - 1]);
            }
        } else {
            let k = choose|k: int|
                0 <= k < rest.len() && !(paths.contains((#[trigger] rest[k]).0) && paths.contains(
                    rest[k].1,
                ));
            assert(pairs[k + 1] == rest[k]);
        }
    }
}

proof fn lemma_same_joins(
    paths: Seq<Seq<char>>,
    one: Seq<(Seq<char>, Seq<char>)>,
    other: Seq<(Seq<char>, Seq<char>)>,
    a: int,
    b: int,
)
    requires
        all_written_in(one, other),
        joins(positions(paths, one), a, b),
    ensures
        joins(positions(paths, other), a, b),
{
    let edges = positions(paths, one);
    let more = positions(paths, other);
    let k = choose|k: int|
        0 <= k < edges.len() && (#[trigger] edges[k] == (a as usize, b as usize) || edges[k] == (
            b as usize,
            a as usize,
        ));
    assert(is_written_in(other, one[k]));
    if other.contains(one[k]) {
        let j = other.index_of(one[k]);
        assert(more[j] == edges[k]);
    } else {
        let j = other.index_of((one[k].1, one[k].0));
        assert(more[j] == (edges[k].1, edges[k].0));
    }
}

proof fn lemma_same_sets(
    paths: Seq<Seq<char>>,
    one: Seq<(usize, usize)>,
    other: Seq<(usize, usize)>,
    n: nat,
)
    requires
        forall|i: int| 0 <= i ==> group_of(one, i) == #[trigger] group_of(other, i),
    ensures
        sets_from(paths, one, n) == sets_from(paths, other, n),
    decreases n,
{
    if n > 0 && n <= paths.len() {
        lemma_same_sets(paths, one, other, (n - 1) as nat);
        lemma_same_set(paths, one, other, n - 1, paths.len());
        assert(group_of(one, n - 1) == group_of(other, n - 1));
    }
}

proof fn lemma_same_set(
    paths: Seq<Seq<char>>,
    one: Seq<(usize, usize)>,
    other: Seq<(usize, usize)>,
    first: int,
    n: nat,
)
    requires
        forall|i: int| 0 <= i ==> group_of(one, i) == #[trigger] group_of(other, i),
    ensures
        set_from(paths, one, first, n) == set_from(paths, other, first, n),
    decreases n,
{
    if n > 0 && n <= paths.len() {
        lemma_same_set(paths, one, other, first, (n - 1) as nat);
        assert(group_of(one, n - 1) == group_of(other, n - 1));
    }
}

/// What the connections of a model come to does not depend on the order they
/// are written in, nor on which side of each is written first.
pub proof fn law_order_and_direction_do_not_matter(
    classes: Seq<&ClassDef>,
    acc: FlatV,
    connects: Seq<(Seq<char>, Seq<char>)>,
)
    requires
        all_written_in(acc.connects, connects),
        all_written_in(connects, acc.connects),
        first_unknown(keys_in_order(acc.connectors), all_pairs(
            keys_in_order(acc.connectors),
            acc.connects,
        )) is None,
    ensures
        joined_up(classes, FlatV { connects, ..acc }) == joined_up(classes, acc),
{
    let paths = keys_in_order(acc.connectors);
    let one = all_pairs(paths, acc.connects);
    let other = all_pairs(paths, connects);
    lemma_same_pairs(paths, acc.connects, connects);
    lemma_same_pairs(paths, connects, acc.connects);
    lemma_known_pairs(paths, one);
    lemma_known_pairs(paths, other);
    assert(first_unknown(paths, other) is None) by {
        assert forall|k: int| 0 <= k < other.len() implies paths.contains((#[trigger] other[k]).0)
            && paths.contains(other[k].1) by {
            assert(is_written_in(one, other[k]));
            if one.contains(other[k]) {
                let j = one.index_of(other[k]);
                assert(one[j] == other[k]);
            } else {
                let j = one.index_of((other[k].1, other[k].0));
                assert(one[j] == (other[k].1, other[k].0));
            }
        }
    }
    let a = positions(paths, one);
    let b = positions(paths, other);
    assert forall|x: int, y: int| joins(a, x, y) implies #[trigger] joins(b, x, y) by {
        lemma_same_joins(paths, one, other, x, y);
    }
    assert forall|x: int, y: int| joins(b, x, y) implies #[trigger] joins(a, x, y) by {
        lemma_same_joins(paths, other, one, x, y);
    }
    assert forall|i: int| 0 <= i implies group_of(a, i) == #[trigger] group_of(b, i) by {
        law_same_edges_same_groups(a, b, i);
    }
    lemma_same_sets(paths, a, b, paths.len());
    let turned = FlatV { connects, ..acc };
    assert(sets_of(turned) == sets_of(acc));
    assert(joined_part(turned) == joined_part(acc));
}

}
