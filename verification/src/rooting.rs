//! Which node of a connection graph everything else in its part is measured
//! against.
use crate::class::GraphClauseV;
use crate::graph::{
    begins_part, best_in, better, declared_in, is_declared, priority_of, root_of, Graph,
};
use crate::groups::group_of;
use crate::text::{law_text_order, precedes};
use vstd::prelude::*;

verus! {

/// Whether a node of a graph is in the part that begins at another.
pub open spec fn is_in_part(graph: Graph, part: int, i: int) -> bool {
    0 <= i < graph.nodes.len() && group_of(graph.edges, i) == part
}

/// Whether a clause says that a node is a root.
pub open spec fn is_said_root(clauses: Seq<GraphClauseV>, node: Seq<char>) -> bool {
    exists|c: int| 0 <= c < clauses.len() && #[trigger] clauses[c] == GraphClauseV::Root(node)
}

/// Whether a clause says that a node may be a root at a priority, and no clause
/// gives it another.
pub open spec fn may_be_root(clauses: Seq<GraphClauseV>, node: Seq<char>, priority: i64) -> bool {
    &&& exists|c: int|
        0 <= c < clauses.len() && #[trigger] clauses[c] == GraphClauseV::PotentialRoot(
            node,
            priority,
        )
    &&& forall|c: int|
        0 <= c < clauses.len() ==> (#[trigger] clauses[c] matches GraphClauseV::PotentialRoot(
            named,
            other,
        ) ==> named == node ==> other == priority)
}

/// Whether no node is offered as a root at two priorities.
pub open spec fn is_of_one_mind(clauses: Seq<GraphClauseV>) -> bool {
    forall|c: int, d: int|
        0 <= c < clauses.len() && 0 <= d < clauses.len() ==> (#[trigger] clauses[c] matches GraphClauseV::PotentialRoot(
            a,
            p,
        ) ==> #[trigger] clauses[d] matches GraphClauseV::PotentialRoot(b, q) ==> a == b ==> p == q)
}

proof fn lemma_priority(clauses: Seq<GraphClauseV>, node: Seq<char>)
    ensures
        match priority_of(clauses, node) {
            Some(priority) => exists|c: int|
                0 <= c < clauses.len() && #[trigger] clauses[c] == GraphClauseV::PotentialRoot(
                    node,
                    priority,
                ),
            None => forall|c: int|
                0 <= c < clauses.len() ==> (#[trigger] clauses[c] matches GraphClauseV::PotentialRoot(
                    named,
                    _,
                ) ==> named != node),
        },
    decreases clauses.len(),
{
    if clauses.len() > 0 {
        let rest = clauses.drop_first();
        lemma_priority(rest, node);
        match priority_of(rest, node) {
            Some(priority) => {
                let c = choose|c: int|
                    0 <= c < rest.len() && #[trigger] rest[c] == GraphClauseV::PotentialRoot(
                        node,
                        priority,
                    );
                assert(clauses[c + 1] == rest[c]);
                assert(clauses[0] == clauses[0]);
            },
            None => {
                assert forall|c: int| 0 <= c < clauses.len() && c > 0 implies #[trigger] clauses[c]
                    == rest[c - 1] by {}
            },
        }
    }
}

proof fn lemma_offered(clauses: Seq<GraphClauseV>, node: Seq<char>, priority: i64)
    requires
        is_of_one_mind(clauses),
    ensures
        priority_of(clauses, node) == Some(priority) <==> may_be_root(clauses, node, priority),
{
    lemma_priority(clauses, node);
    if may_be_root(clauses, node, priority) {
        let c = choose|c: int|
            0 <= c < clauses.len() && #[trigger] clauses[c] == GraphClauseV::PotentialRoot(
                node,
                priority,
            );
        match priority_of(clauses, node) {
            Some(found) => {
                let d = choose|d: int|
                    0 <= d < clauses.len() && #[trigger] clauses[d] == GraphClauseV::PotentialRoot(
                        node,
                        found,
                    );
                assert(clauses[c] == GraphClauseV::PotentialRoot(node, priority));
                assert(clauses[d] == GraphClauseV::PotentialRoot(node, found));
            },
            None => {
                assert(clauses[c] == GraphClauseV::PotentialRoot(node, priority));
            },
        }
    }
    if priority_of(clauses, node) == Some(priority) {
        let d = choose|d: int|
            0 <= d < clauses.len() && #[trigger] clauses[d] == GraphClauseV::PotentialRoot(
                node,
                priority,
            );
        assert forall|c: int| 0 <= c < clauses.len() implies (#[trigger] clauses[c] matches GraphClauseV::PotentialRoot(
            named,
            other,
        ) ==> named == node ==> other == priority) by {
            assert(clauses[d] == GraphClauseV::PotentialRoot(node, priority));
        }
    }
}

/// Whether a name is that of a node among the first of a graph that is said to be
/// the root of a part.
pub open spec fn is_said_root_of(
    clauses: Seq<GraphClauseV>,
    graph: Graph,
    part: int,
    n: nat,
    node: Seq<char>,
) -> bool {
    is_said_root(clauses, node) && exists|i: int|
        i < n && #[trigger] is_in_part(graph, part, i) && graph.nodes[i] == node
}

proof fn lemma_declared(clauses: Seq<GraphClauseV>, graph: Graph, part: int, n: nat)
    requires
        n <= graph.nodes.len(),
    ensures
        ({
            let list = declared_in(clauses, graph, part, n);
            &&& forall|k: int|
                0 <= k < list.len() ==> is_said_root_of(clauses, graph, part, n, #[trigger] list[k])
            &&& forall|i: int|
                i < n && #[trigger] is_in_part(graph, part, i) && is_said_root(
                    clauses,
                    graph.nodes[i],
                ) ==> list.contains(graph.nodes[i])
        }),
    decreases n,
{
    if n > 0 {
        let less = (n - 1) as nat;
        lemma_declared(clauses, graph, part, less);
        let before = declared_in(clauses, graph, part, less);
        let list = declared_in(clauses, graph, part, n);
        let node = graph.nodes[n - 1];
        assert(is_declared(clauses, node) <==> is_said_root(clauses, node)) by {
            if is_declared(clauses, node) {
                let c = choose|c: int|
                    0 <= c < clauses.len() && (#[trigger] clauses[c] matches GraphClauseV::Root(
                        named,
                    ) && named == node);
                assert(clauses[c] == GraphClauseV::Root(node));
            }
            if is_said_root(clauses, node) {
                let c = choose|c: int|
                    0 <= c < clauses.len() && #[trigger] clauses[c] == GraphClauseV::Root(node);
                assert(clauses[c] matches GraphClauseV::Root(named) && named == node);
            }
        }
        let adds = is_in_part(graph, part, n - 1) && is_said_root(clauses, node);
        assert(list == if adds {
            before.push(node)
        } else {
            before
        });
        assert forall|k: int| 0 <= k < list.len() implies is_said_root_of(
            clauses,
            graph,
            part,
            n,
            #[trigger] list[k],
        ) by {
            if k < before.len() {
                assert(list[k] == before[k]);
                assert(is_said_root_of(clauses, graph, part, less, before[k]));
            } else {
                assert(is_in_part(graph, part, n - 1));
            }
        }
        assert forall|i: int|
            i < n && #[trigger] is_in_part(graph, part, i) && is_said_root(
                clauses,
                graph.nodes[i],
            ) implies list.contains(graph.nodes[i]) by {
            if i < less {
                assert(before.contains(graph.nodes[i]));
                let k = choose|k: int| 0 <= k < before.len() && before[k] == graph.nodes[i];
                assert(list[k] == graph.nodes[i]);
            } else {
                assert(list[before.len() as int] == node);
            }
        }
    }
}

/// Whether a node may be a root of a part at a priority, and no other that may be
/// has a lower one, nor the same one and an earlier name.
pub open spec fn is_best(
    clauses: Seq<GraphClauseV>,
    graph: Graph,
    part: int,
    n: nat,
    i: int,
    priority: i64,
) -> bool {
    &&& is_in_part(graph, part, i)
    &&& may_be_root(clauses, graph.nodes[i], priority)
    &&& forall|j: int, other: i64|
        j < n && #[trigger] is_in_part(graph, part, j) && #[trigger] may_be_root(
            clauses,
            graph.nodes[j],
            other,
        ) ==> priority < other || (priority == other && !precedes(graph.nodes[j], graph.nodes[i]))
}

/// Whether a candidate is the best of a part, and there is none only where nothing
/// may be a root of it.
pub open spec fn is_found(
    clauses: Seq<GraphClauseV>,
    graph: Graph,
    part: int,
    n: nat,
    best: Option<(i64, Seq<char>)>,
) -> bool {
    if best is Some {
        exists|i: int|
            #[trigger] is_best(clauses, graph, part, n, i, (best->0).0) && graph.nodes[i] == (
            best->0).1
    } else {
        forall|j: int, other: i64|
            j < n && #[trigger] is_in_part(graph, part, j) ==> !#[trigger] may_be_root(
                clauses,
                graph.nodes[j],
                other,
            )
    }
}

proof fn lemma_best(clauses: Seq<GraphClauseV>, graph: Graph, part: int, n: nat)
    requires
        is_of_one_mind(clauses),
        n <= graph.nodes.len(),
    ensures
        is_found(clauses, graph, part, n, best_in(clauses, graph, part, n)),
    decreases n,
{
    if n > 0 {
        let less = (n - 1) as nat;
        lemma_best(clauses, graph, part, less);
        let at: int = less as int;
        let node = graph.nodes[at];
        let before = best_in(clauses, graph, part, less);
        let here = is_in_part(graph, part, n - 1);
        assert forall|other: i64| #[trigger] may_be_root(clauses, node, other) <==> priority_of(
            clauses,
            node,
        ) == Some(other) by {
            lemma_offered(clauses, node, other);
        }
        match before {
            Some((low, named)) => {
                let i = choose|i: int|
                    #[trigger] is_best(clauses, graph, part, less, i, low) && graph.nodes[i] == named;
                match priority_of(clauses, node) {
                    Some(priority) if here && better((priority, node), (low, named)) => {
                        assert forall|j: int, other: i64|
                            j < n && #[trigger] is_in_part(graph, part, j) && #[trigger] may_be_root(
                                clauses,
                                graph.nodes[j],
                                other,
                            ) implies priority < other || (priority == other && !precedes(
                            graph.nodes[j],
                            node,
                        )) by {
                            law_text_order(graph.nodes[j], node, named);
                            law_text_order(node, named, graph.nodes[j]);
                            law_text_order(node, node, node);
                        }
                        assert(is_best(clauses, graph, part, n, at, priority) && graph.nodes[at] == node);
                        assert(best_in(clauses, graph, part, n) == Some((priority, node)));
                        let found = Some((priority, node));
                        assert(is_best(clauses, graph, part, n, at, (found->0).0));
                        assert(is_found(clauses, graph, part, n, found));
                    },
                    _ => {
                        assert forall|j: int, other: i64|
                            j < n && #[trigger] is_in_part(graph, part, j) && #[trigger] may_be_root(
                                clauses,
                                graph.nodes[j],
                                other,
                            ) implies low < other || (low == other && !precedes(
                            graph.nodes[j],
                            named,
                        )) by {
                            if j == n - 1 {
                                assert(priority_of(clauses, node) == Some(other));
                                assert(!better((other, node), (low, named)));
                            }
                        }
                        assert(is_best(clauses, graph, part, n, i, low));
                        assert(best_in(clauses, graph, part, n) == Some((low, named)));
                        assert(is_found(clauses, graph, part, n, Some((low, named))));
                    },
                }
            },
            None => {
                match priority_of(clauses, node) {
                    Some(priority) if here => {
                        law_text_order(node, node, node);
                        assert forall|j: int, other: i64|
                            j < n && #[trigger] is_in_part(graph, part, j) && #[trigger] may_be_root(
                                clauses,
                                graph.nodes[j],
                                other,
                            ) implies priority < other || (priority == other && !precedes(
                            graph.nodes[j],
                            node,
                        )) by {
                            if j < less {
                                assert(!may_be_root(clauses, graph.nodes[j], other));
                            }
                        }
                        assert(is_best(clauses, graph, part, n, at, priority) && graph.nodes[at] == node);
                        assert(best_in(clauses, graph, part, n) == Some((priority, node)));
                        let found = Some((priority, node));
                        assert(is_best(clauses, graph, part, n, at, (found->0).0));
                        assert(is_found(clauses, graph, part, n, found));
                    },
                    _ => {
                        assert(best_in(clauses, graph, part, n) is None);
                        assert forall|j: int, other: i64|
                            j < n && #[trigger] is_in_part(graph, part, j) implies !#[trigger] may_be_root(
                            clauses,
                            graph.nodes[j],
                            other,
                        ) by {
                            if j < less {
                                assert(!may_be_root(clauses, graph.nodes[j], other));
                            }
                        }
                    },
                }
            },
        }
    }
}

/// The root of a part is the one node of it that is said to be a root, where one
/// is; where none is, it is the one offered at the lowest priority, and of several
/// the one whose name comes first.
pub proof fn law_a_root_is_the_declared_or_the_best_offered(
    clauses: Seq<GraphClauseV>,
    graph: Graph,
    part: int,
)
    requires
        is_of_one_mind(clauses),
        begins_part(graph, part),
    ensures
        root_of(clauses, graph, part) matches Ok(root) ==> {
            ||| (exists|i: int|
                #[trigger] is_in_part(graph, part, i) && graph.nodes[i] == root && is_said_root(
                    clauses,
                    root,
                )) && forall|j: int| #[trigger]
                is_in_part(graph, part, j) && is_said_root(clauses, graph.nodes[j])
                    ==> graph.nodes[j] == root
            ||| (forall|j: int| #[trigger]
                is_in_part(graph, part, j) ==> !is_said_root(clauses, graph.nodes[j])) && exists|
                i: int,
                priority: i64,
            |
                #[trigger] is_best(clauses, graph, part, graph.nodes.len(), i, priority)
                    && graph.nodes[i] == root
        },
{
    let n = graph.nodes.len();
    lemma_declared(clauses, graph, part, n);
    lemma_best(clauses, graph, part, n);
    let list = declared_in(clauses, graph, part, n);
    if list.len() == 1 {
        let root = list[0];
        assert(is_said_root_of(clauses, graph, part, n, list[0]));
        assert forall|j: int| #[trigger]
            is_in_part(graph, part, j) && is_said_root(clauses, graph.nodes[j]) implies graph.nodes[j]
            == root by {
            assert(list.contains(graph.nodes[j]));
        }
    } else if list.len() == 0 {
        assert forall|j: int| #[trigger] is_in_part(graph, part, j) implies !is_said_root(
            clauses,
            graph.nodes[j],
        ) by {
            if is_said_root(clauses, graph.nodes[j]) {
                assert(list.contains(graph.nodes[j]));
            }
        }
    }
}

}
