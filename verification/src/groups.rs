//! Groups of things joined to one another, directly or through others.
use vstd::prelude::*;

verus! {

/// Whether two things are joined directly, either way round.
pub open spec fn joins(edges: Seq<(usize, usize)>, a: int, b: int) -> bool {
    exists|k: int|
        0 <= k < edges.len() && (#[trigger] edges[k] == (a as usize, b as usize) || edges[k] == (
            b as usize,
            a as usize,
        )) && 0 <= a <= usize::MAX && 0 <= b <= usize::MAX
}

/// Whether one step of a walk is along an edge.
pub open spec fn steps(edges: Seq<(usize, usize)>, walk: Seq<int>, k: int) -> bool {
    joins(edges, walk[k], walk[k + 1])
}

/// A walk along the edges.
pub open spec fn is_walk(edges: Seq<(usize, usize)>, walk: Seq<int>) -> bool {
    &&& walk.len() > 0
    &&& forall|k: int| 0 <= k < walk.len() - 1 ==> #[trigger] steps(edges, walk, k)
}

/// Whether two things are joined, directly or through others.
pub open spec fn linked(edges: Seq<(usize, usize)>, a: int, b: int) -> bool {
    exists|walk: Seq<int>| #[trigger] is_walk(edges, walk) && walk[0] == a && walk.last() == b
}

/// Everything is linked to itself; links go both ways; a link to a link is a
/// link.
pub proof fn law_linked(edges: Seq<(usize, usize)>, a: int, b: int, c: int)
    ensures
        linked(edges, a, a),
        linked(edges, a, b) ==> linked(edges, b, a),
        linked(edges, a, b) && linked(edges, b, c) ==> linked(edges, a, c),
{
    let alone = seq![a];
    assert(is_walk(edges, alone));
    if linked(edges, a, b) {
        let walk = choose|walk: Seq<int>| #[trigger]
            is_walk(edges, walk) && walk[0] == a && walk.last() == b;
        let back = walk.reverse();
        assert forall|k: int| 0 <= k < back.len() - 1 implies #[trigger] steps(edges, back, k) by {
            let at = walk.len() - 2 - k;
            assert(steps(edges, walk, at));
            assert(back[k] == walk[at + 1]);
            assert(back[k + 1] == walk[at]);
            assert(joins(edges, walk[at], walk[at + 1]));
            let e = choose|e: int|
                0 <= e < edges.len() && (#[trigger] edges[e] == (
                    walk[at] as usize,
                    walk[at + 1] as usize,
                ) || edges[e] == (walk[at + 1] as usize, walk[at] as usize));
            assert(joins(edges, back[k], back[k + 1]));
        }
        assert(is_walk(edges, back));
        if linked(edges, b, c) {
            let more = choose|more: Seq<int>| #[trigger]
                is_walk(edges, more) && more[0] == b && more.last() == c;
            let whole = walk + more.drop_first();
            assert forall|k: int| 0 <= k < whole.len() - 1 implies #[trigger] steps(
                edges,
                whole,
                k,
            ) by {
                if k < walk.len() - 1 {
                    assert(steps(edges, walk, k));
                    assert(whole[k] == walk[k]);
                    assert(whole[k + 1] == walk[k + 1]);
                } else {
                    let at = k - (walk.len() - 1);
                    assert(steps(edges, more, at));
                    assert(whole[k] == more[at]);
                    assert(whole[k + 1] == more[at + 1]);
                }
            }
            assert(is_walk(edges, whole));
            assert(whole[0] == a);
            assert(whole.last() == c);
        }
    }
}

proof fn lemma_more_edges(edges: Seq<(usize, usize)>, more: Seq<(usize, usize)>, a: int, b: int)
    requires
        linked(edges, a, b),
        edges.len() <= more.len(),
        more.take(edges.len() as int) == edges,
    ensures
        linked(more, a, b),
{
    let walk = choose|walk: Seq<int>| #[trigger]
        is_walk(edges, walk) && walk[0] == a && walk.last() == b;
    assert forall|k: int| 0 <= k < walk.len() - 1 implies #[trigger] steps(more, walk, k) by {
        assert(steps(edges, walk, k));
        let e = choose|e: int|
            0 <= e < edges.len() && (#[trigger] edges[e] == (
                walk[k] as usize,
                walk[k + 1] as usize,
            ) || edges[e] == (walk[k + 1] as usize, walk[k] as usize));
        assert(more[e] == more.take(edges.len() as int)[e]);
    }
    assert(is_walk(more, walk));
}

/// What every edge leaves alike, every walk leaves alike.
proof fn lemma_walk_keeps(edges: Seq<(usize, usize)>, walk: Seq<int>, label: Seq<usize>)
    requires
        is_walk(edges, walk),
        forall|k: int|
            0 <= k < edges.len() ==> (#[trigger] edges[k]).0 < label.len() && edges[k].1
                < label.len() && label[edges[k].0 as int] == label[edges[k].1 as int],
        0 <= walk[0] < label.len(),
    ensures
        0 <= walk.last() < label.len(),
        label[walk[0]] == label[walk.last()],
    decreases walk.len(),
{
    if walk.len() > 1 {
        let front = walk.drop_last();
        assert forall|k: int| 0 <= k < front.len() - 1 implies #[trigger] steps(edges, front, k) by {
            assert(steps(edges, walk, k));
            assert(front[k] == walk[k]);
            assert(front[k + 1] == walk[k + 1]);
        }
        lemma_walk_keeps(edges, front, label);
        let at = walk.len() - 2;
        assert(steps(edges, walk, at));
        let e = choose|e: int|
            0 <= e < edges.len() && (#[trigger] edges[e] == (
                walk[at] as usize,
                walk[at + 1] as usize,
            ) || edges[e] == (walk[at + 1] as usize, walk[at] as usize));
        assert(edges[e].0 < label.len());
    }
}

/// Whether labels tell the groups apart, each group labelled by its first
/// member.
pub open spec fn labels(edges: Seq<(usize, usize)>, label: Seq<usize>) -> bool {
    &&& forall|i: int, j: int|
        0 <= i < label.len() && 0 <= j < label.len() ==> (#[trigger] label[i] == #[trigger] label[j]
            <==> linked(edges, i, j))
    &&& forall|i: int|
        0 <= i < label.len() ==> (#[trigger] label[i]) <= i && label[label[i] as int] == label[i]
}

/// Label every one of `n` things with the first one it is linked to.
pub fn grouped(n: usize, edges: &Vec<(usize, usize)>) -> (label: Vec<usize>)
    requires
        forall|k: int|
            0 <= k < edges@.len() ==> (#[trigger] edges@[k]).0 < n && edges@[k].1 < n,
    ensures
        label.len() == n,
        labels(edges@, label@),
{
    let mut label: Vec<usize> = Vec::new();
    let mut i: usize = 0;
    while i < n
        invariant
            i <= n,
            label.len() == i,
            forall|k: int| 0 <= k < i ==> #[trigger] label@[k] == k,
        decreases n - i,
    {
        label.push(i);
        i = i + 1;
    }
    let ghost none = edges@.take(0);
    proof {
        assert forall|a: int, b: int| 0 <= a < label.len() && 0 <= b < label.len() implies (
        #[trigger] label@[a] == #[trigger] label@[b] <==> linked(none, a, b)) by {
            law_linked(none, a, a, a);
            if linked(none, a, b) {
                let walk = choose|walk: Seq<int>| #[trigger]
                    is_walk(none, walk) && walk[0] == a && walk.last() == b;
                lemma_walk_keeps(none, walk, label@);
            }
        }
    }
    let mut k: usize = 0;
    while k < edges.len()
        invariant
            k <= edges.len(),
            label.len() == n,
            labels(edges@.take(k as int), label@),
            forall|e: int|
                0 <= e < edges@.len() ==> (#[trigger] edges@[e]).0 < n && edges@[e].1 < n,
        decreases edges.len() - k,
    {
        let a: usize = edges[k].0;
        let b: usize = edges[k].1;
        let la: usize = label[a];
        let lb: usize = label[b];
        let (low, high): (usize, usize) = if la < lb {
            (la, lb)
        } else {
            (lb, la)
        };
        let ghost before = label@;
        let mut i: usize = 0;
        while i < n
            invariant
                i <= n,
                low <= high < n,
                label.len() == n,
                before.len() == n,
                forall|j: int|
                    0 <= j < n ==> #[trigger] label@[j] == (if j < i && before[j] == high {
                        low
                    } else {
                        before[j]
                    }),
            decreases n - i,
        {
            if label[i] == high {
                label.set(i, low);
            }
            i = i + 1;
        }
        proof {
            let had = edges@.take(k as int);
            let has = edges@.take(k + 1);
            assert(has.take(had.len() as int) =~= had);
            assert(has[k as int] == (a, b));
            assert forall|e: int| 0 <= e < has.len() implies (#[trigger] has[e]).0 < label@.len()
                && has[e].1 < label@.len() && label@[has[e].0 as int]
                == label@[has[e].1 as int] by {
                assert(has[e] == edges@[e]);
                if e < k {
                    let x = has[e].0 as int;
                    let y = has[e].1 as int;
                    assert(had[e] == has[e]);
                    assert(joins(had, x, y));
                    let step = seq![x, y];
                    assert(steps(had, step, 0));
                    assert(is_walk(had, step));
                    assert(linked(had, x, y));
                    assert(before[x] == before[y]);
                }
            }
            assert(joins(has, a as int, b as int));
            let step = seq![a as int, b as int];
            assert(steps(has, step, 0));
            assert(is_walk(has, step));
            assert(linked(has, a as int, b as int));
            assert forall|x: int, y: int| 0 <= x < label@.len() && 0 <= y < label@.len() implies (
            #[trigger] label@[x] == #[trigger] label@[y] <==> linked(has, x, y)) by {
                if linked(has, x, y) {
                    let walk = choose|walk: Seq<int>| #[trigger]
                        is_walk(has, walk) && walk[0] == x && walk.last() == y;
                    lemma_walk_keeps(has, walk, label@);
                }
                if label@[x] == label@[y] {
                    lemma_meets(had, has, before, label@, a as int, b as int, low, high, x, y);
                }
            }
            assert forall|x: int| 0 <= x < label@.len() implies (#[trigger] label@[x]) <= x
                && label@[label@[x] as int] == label@[x] by {
                assert(before[x] <= x);
                assert(before[before[x] as int] == before[x]);
                assert(before[before[a as int] as int] == before[a as int]);
                assert(before[before[b as int] as int] == before[b as int]);
            }
        }
        k = k + 1;
    }
    assert(edges@.take(k as int) =~= edges@);
    label
}

proof fn lemma_meets(
    had: Seq<(usize, usize)>,
    has: Seq<(usize, usize)>,
    before: Seq<usize>,
    label: Seq<usize>,
    a: int,
    b: int,
    low: usize,
    high: usize,
    x: int,
    y: int,
)
    requires
        has.len() == had.len() + 1,
        has.take(had.len() as int) == had,
        before.len() == label.len(),
        0 <= a < before.len(),
        0 <= b < before.len(),
        0 <= x < before.len(),
        0 <= y < before.len(),
        labels(had, before),
        linked(has, a, b),
        (before[a] == low && before[b] == high) || (before[a] == high && before[b] == low),
        forall|j: int|
            0 <= j < label.len() ==> #[trigger] label[j] == (if before[j] == high {
                low
            } else {
                before[j]
            }),
        label[x] == label[y],
    ensures
        linked(has, x, y),
{
    if before[x] == before[y] {
        assert(linked(had, x, y));
        lemma_more_edges(had, has, x, y);
    } else {
        // One of the two had the label that went, the other the one that stayed.
        let gone = if before[a] == high {
            a
        } else {
            b
        };
        let kept = if before[a] == high {
            b
        } else {
            a
        };
        law_linked(has, a, b, a);
        let from = if before[x] == high {
            gone
        } else {
            kept
        };
        let to = if before[x] == high {
            kept
        } else {
            gone
        };
        assert(before[x] == before[from]);
        assert(before[to] == before[y]);
        assert(linked(had, x, from));
        assert(linked(had, to, y));
        lemma_more_edges(had, has, x, from);
        lemma_more_edges(had, has, to, y);
        law_linked(has, x, from, to);
        law_linked(has, x, to, y);
    }
}


/// The first thing that one is linked to.
pub open spec fn group_of(edges: Seq<(usize, usize)>, i: int) -> int {
    choose|j: int| is_first(edges, i, j)
}

pub open spec fn is_first(edges: Seq<(usize, usize)>, i: int, j: int) -> bool {
    0 <= j <= i && linked(edges, j, i) && forall|k: int| 0 <= k < j ==> !#[trigger] linked(edges, k, i)
}

/// A label is the first thing its holder is linked to.
pub proof fn lemma_label_is_first(edges: Seq<(usize, usize)>, label: Seq<usize>, i: int)
    requires
        labels(edges, label),
        0 <= i < label.len(),
    ensures
        label[i] == group_of(edges, i),
{
    let first = label[i] as int;
    assert(label[first] == label[i]);
    assert forall|k: int| 0 <= k < first implies !#[trigger] linked(edges, k, i) by {
        assert(label[k] <= k);
    }
    assert(is_first(edges, i, first));
    let other = group_of(edges, i);
    assert(is_first(edges, i, other));
    if other < first {
        assert(!linked(edges, other, i));
    }
    if first < other {
        assert(!linked(edges, first, i));
    }
}


/// There is a first among the things below `n` that one is linked to, where
/// there is any.
proof fn lemma_some_first(edges: Seq<(usize, usize)>, i: int, n: int)
    requires
        0 <= n <= i + 1,
        exists|j: int| 0 <= j < n && #[trigger] linked(edges, j, i),
    ensures
        exists|j: int| #[trigger] is_first(edges, i, j),
    decreases n,
{
    let j = choose|j: int| 0 <= j < n && #[trigger] linked(edges, j, i);
    if exists|k: int| 0 <= k < j && #[trigger] linked(edges, k, i) {
        lemma_some_first(edges, i, j);
    } else {
        assert(is_first(edges, i, j));
    }
}

/// Two things are in the same group exactly where they are linked, and a
/// group is named after its first member.
pub proof fn law_groups(edges: Seq<(usize, usize)>, i: int, j: int)
    requires
        0 <= i,
        0 <= j,
    ensures
        is_first(edges, i, group_of(edges, i)),
        group_of(edges, i) == group_of(edges, j) <==> linked(edges, i, j),
        group_of(edges, group_of(edges, i)) == group_of(edges, i),
{
    law_linked(edges, i, i, i);
    law_linked(edges, j, j, j);
    lemma_some_first(edges, i, i + 1);
    lemma_some_first(edges, j, j + 1);
    let gi = group_of(edges, i);
    let gj = group_of(edges, j);
    lemma_same_first(edges, i, j);
    if gi == gj {
        law_linked(edges, gi, i, i);
        law_linked(edges, i, gi, j);
    }
    law_linked(edges, gi, gi, gi);
    lemma_some_first(edges, gi, gi + 1);
    law_linked(edges, gi, i, gi);
    lemma_same_first(edges, gi, i);
}

proof fn lemma_same_first(edges: Seq<(usize, usize)>, i: int, j: int)
    requires
        0 <= i,
        0 <= j,
        is_first(edges, i, group_of(edges, i)),
        is_first(edges, j, group_of(edges, j)),
    ensures
        linked(edges, i, j) ==> group_of(edges, i) == group_of(edges, j),
{
    if linked(edges, i, j) {
        let gi = group_of(edges, i);
        let gj = group_of(edges, j);
        law_linked(edges, gi, i, j);
        law_linked(edges, i, j, i);
        law_linked(edges, gj, j, i);
        if gi < gj {
            assert(!linked(edges, gi, j));
        }
        if gj < gi {
            assert(!linked(edges, gj, i));
        }
    }
}

/// What is joined directly by either of two lists of edges that join the same
/// things is linked alike by both.
pub proof fn lemma_same_links(one: Seq<(usize, usize)>, other: Seq<(usize, usize)>, a: int, b: int)
    requires
        forall|x: int, y: int| joins(one, x, y) ==> #[trigger] joins(other, x, y),
        linked(one, a, b),
    ensures
        linked(other, a, b),
{
    let walk = choose|walk: Seq<int>| #[trigger]
        is_walk(one, walk) && walk[0] == a && walk.last() == b;
    assert forall|k: int| 0 <= k < walk.len() - 1 implies #[trigger] steps(other, walk, k) by {
        assert(steps(one, walk, k));
        assert(joins(one, walk[k], walk[k + 1]));
        assert(joins(other, walk[k], walk[k + 1]));
    }
    assert(is_walk(other, walk));
}

/// Edges that join the same things put everything in the same group.
pub proof fn law_same_edges_same_groups(
    one: Seq<(usize, usize)>,
    other: Seq<(usize, usize)>,
    i: int,
)
    requires
        forall|x: int, y: int| joins(one, x, y) ==> #[trigger] joins(other, x, y),
        forall|x: int, y: int| joins(other, x, y) ==> #[trigger] joins(one, x, y),
        0 <= i,
    ensures
        group_of(one, i) == group_of(other, i),
{
    law_linked(one, i, i, i);
    law_linked(other, i, i, i);
    lemma_some_first(one, i, i + 1);
    lemma_some_first(other, i, i + 1);
    let a = group_of(one, i);
    let b = group_of(other, i);
    assert(is_first(one, i, a));
    assert(is_first(other, i, b));
    if a < b {
        lemma_same_links(one, other, a, i);
    }
    if b < a {
        lemma_same_links(other, one, b, i);
    }
}

}
