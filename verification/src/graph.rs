//! The overconstrained connection graph, and where it is broken open.
//!
//! Every part of the graph needs exactly one root: with none there is nothing
//! for the rest of it to be measured against, and with two the equations that
//! hold a loop closed would be stated twice.
use crate::class::{GraphClause, GraphClauseV};
use crate::expr::told;
use crate::groups::{
    group_of, grouped, labels, law_groups, lemma_label_is_first, linked,
};
use crate::table::Table;
use crate::text::{
    comes_before, cut_last, dot, dotted, holds, join3, law_text_order, precedes, quoted,
    quoted_list, same, split_last, texts,
};
use vstd::prelude::*;

verus! {

/// A list with a name in it, added at the end where it was not.
pub open spec fn with_name(names: Seq<Seq<char>>, name: Seq<char>) -> Seq<Seq<char>> {
    if names.contains(name) {
        names
    } else {
        names.push(name)
    }
}

/// The nodes that the clauses name, in the order they do.
pub open spec fn clause_nodes(clauses: Seq<GraphClauseV>) -> Seq<Seq<char>>
    decreases clauses.len(),
{
    if clauses.len() == 0 {
        Seq::empty()
    } else {
        let before = clause_nodes(clauses.drop_last());
        match clauses.last() {
            GraphClauseV::Root(node) => with_name(before, node),
            GraphClauseV::PotentialRoot(node, _) => with_name(before, node),
            GraphClauseV::Branch(a, b) => with_name(with_name(before, a), b),
        }
    }
}

/// The members that a list of nodes are, each once: `frame_a.R` is an `R`.
pub open spec fn members_named(nodes: Seq<Seq<char>>) -> Seq<Seq<char>>
    decreases nodes.len(),
{
    if nodes.len() == 0 {
        Seq::empty()
    } else {
        let before = members_named(nodes.drop_last());
        match cut_last(nodes.last(), '.') {
            Some((_, member)) => with_name(before, member),
            None => before,
        }
    }
}

/// The nodes after one connection has been asked about one member: where one
/// side is in the graph, the other joins it.
pub open spec fn joined_by(
    nodes: Seq<Seq<char>>,
    connect: (Seq<char>, Seq<char>),
    member: Seq<char>,
) -> Seq<Seq<char>> {
    let left = dotted(connect.0, member);
    let right = dotted(connect.1, member);
    if nodes.contains(left) && !nodes.contains(right) {
        nodes.push(right)
    } else if !nodes.contains(left) && nodes.contains(right) {
        nodes.push(left)
    } else {
        nodes
    }
}

/// The same for every member.
pub open spec fn joined_by_all(
    nodes: Seq<Seq<char>>,
    connect: (Seq<char>, Seq<char>),
    members: Seq<Seq<char>>,
) -> Seq<Seq<char>>
    decreases members.len(),
{
    if members.len() == 0 {
        nodes
    } else {
        joined_by(joined_by_all(nodes, connect, members.drop_last()), connect, members.last())
    }
}

/// The same for every connection, one after another.
pub open spec fn one_round(
    nodes: Seq<Seq<char>>,
    connects: Seq<(Seq<char>, Seq<char>)>,
    members: Seq<Seq<char>>,
) -> Seq<Seq<char>>
    decreases connects.len(),
{
    if connects.len() == 0 {
        nodes
    } else {
        joined_by_all(
            one_round(nodes, connects.drop_last(), members),
            connects.last(),
            members,
        )
    }
}

/// Every node a connection could bring in.
pub open spec fn in_reach(
    connects: Seq<(Seq<char>, Seq<char>)>,
    members: Seq<Seq<char>>,
) -> Set<Seq<char>>
    decreases connects.len(),
{
    if connects.len() == 0 {
        Set::empty()
    } else {
        in_reach(connects.drop_last(), members).union(
            members.map_values(|m: Seq<char>| dotted(connects.last().0, m)).to_set(),
        ).union(members.map_values(|m: Seq<char>| dotted(connects.last().1, m)).to_set())
    }
}

/// Whether every member of both sides of a connection is in a set.
spec fn reaches(
    reach: Set<Seq<char>>,
    connect: (Seq<char>, Seq<char>),
    members: Seq<Seq<char>>,
) -> bool {
    forall|m: int|
        0 <= m < members.len() ==> reach.contains(dotted(connect.0, #[trigger] members[m]))
            && reach.contains(dotted(connect.1, members[m]))
}

proof fn lemma_in_reach(
    connects: Seq<(Seq<char>, Seq<char>)>,
    members: Seq<Seq<char>>,
)
    ensures
        in_reach(connects, members).finite(),
        forall|k: int|
            0 <= k < connects.len() ==> #[trigger] reaches(
                in_reach(connects, members),
                connects[k],
                members,
            ),
    decreases connects.len(),
{
    if connects.len() > 0 {
        let front = connects.drop_last();
        lemma_in_reach(front, members);
        let left = members.map_values(|m: Seq<char>| dotted(connects.last().0, m));
        let right = members.map_values(|m: Seq<char>| dotted(connects.last().1, m));
        let reach = in_reach(connects, members);
        assert forall|k: int| 0 <= k < connects.len() implies #[trigger] reaches(
            reach,
            connects[k],
            members,
        ) by {
            if k < connects.len() - 1 {
                assert(reaches(in_reach(front, members), front[k], members));
                assert forall|m: int| 0 <= m < members.len() implies reach.contains(
                    dotted(connects[k].0, #[trigger] members[m]),
                ) && reach.contains(dotted(connects[k].1, members[m])) by {
                    assert(in_reach(front, members).contains(dotted(front[k].0, members[m])));
                }
            } else {
                assert forall|m: int| 0 <= m < members.len() implies reach.contains(
                    dotted(connects[k].0, #[trigger] members[m]),
                ) && reach.contains(dotted(connects[k].1, members[m])) by {
                    assert(left[m] == dotted(connects[k].0, members[m]));
                    assert(right[m] == dotted(connects[k].1, members[m]));
                    assert(left.to_set().contains(left[m]));
                    assert(right.to_set().contains(right[m]));
                }
            }
        }
    }
}

/// What a round adds: nothing goes, nothing comes twice, and what comes was
/// in reach.
pub open spec fn grows_within(
    before: Seq<Seq<char>>,
    after: Seq<Seq<char>>,
    reach: Set<Seq<char>>,
) -> bool {
    &&& before.len() <= after.len()
    &&& after.take(before.len() as int) == before
    &&& before.no_duplicates() ==> after.no_duplicates()
    &&& forall|i: int| before.len() <= i < after.len() ==> reach.contains(#[trigger] after[i])
}

proof fn lemma_grows_on(
    a: Seq<Seq<char>>,
    b: Seq<Seq<char>>,
    c: Seq<Seq<char>>,
    reach: Set<Seq<char>>,
)
    requires
        grows_within(a, b, reach),
        grows_within(b, c, reach),
    ensures
        grows_within(a, c, reach),
{
    assert(c.take(a.len() as int) =~= a) by {
        assert forall|i: int| 0 <= i < a.len() implies c[i] == a[i] by {
            assert(c.take(b.len() as int)[i] == b[i]);
            assert(b.take(a.len() as int)[i] == a[i]);
        }
    }
    assert forall|i: int| a.len() <= i < c.len() implies reach.contains(#[trigger] c[i]) by {
        if i < b.len() {
            assert(c.take(b.len() as int)[i] == b[i]);
        }
    }
}

proof fn lemma_push_grows(before: Seq<Seq<char>>, name: Seq<char>, reach: Set<Seq<char>>)
    requires
        !before.contains(name),
        reach.contains(name),
    ensures
        grows_within(before, before.push(name), reach),
{
    assert(before.push(name).take(before.len() as int) =~= before);
    if before.no_duplicates() {
        let after = before.push(name);
        assert forall|i: int, j: int| 0 <= i < after.len() && 0 <= j < after.len() && i
            != j implies after[i] != after[j] by {
            if i == before.len() {
                assert(before[j] == after[j]);
            } else if j == before.len() {
                assert(before[i] == after[i]);
            } else {
                assert(before[i] != before[j]);
            }
        }
    }
}

proof fn lemma_joined_by_all(
    nodes: Seq<Seq<char>>,
    connect: (Seq<char>, Seq<char>),
    members: Seq<Seq<char>>,
    reach: Set<Seq<char>>,
)
    requires
        reaches(reach, connect, members),
    ensures
        grows_within(nodes, joined_by_all(nodes, connect, members), reach),
    decreases members.len(),
{
    if members.len() == 0 {
        assert(nodes.take(nodes.len() as int) =~= nodes);
    } else {
        let front = members.drop_last();
        assert(reaches(reach, connect, front)) by {
            assert forall|m: int| 0 <= m < front.len() implies reach.contains(
                dotted(connect.0, #[trigger] front[m]),
            ) && reach.contains(dotted(connect.1, front[m])) by {
                assert(front[m] == members[m]);
            }
        }
        lemma_joined_by_all(nodes, connect, front, reach);
        let before = joined_by_all(nodes, connect, front);
        let member = members[members.len() - 1];
        assert(reach.contains(dotted(connect.0, member)));
        let after = joined_by(before, connect, member);
        if after.len() > before.len() {
            lemma_push_grows(before, after.last(), reach);
        } else {
            assert(before.take(before.len() as int) =~= before);
        }
        lemma_grows_on(nodes, before, after, reach);
    }
}

proof fn lemma_one_round(
    nodes: Seq<Seq<char>>,
    connects: Seq<(Seq<char>, Seq<char>)>,
    members: Seq<Seq<char>>,
    reach: Set<Seq<char>>,
)
    requires
        forall|k: int|
            0 <= k < connects.len() ==> #[trigger] reaches(reach, connects[k], members),
    ensures
        grows_within(nodes, one_round(nodes, connects, members), reach),
    decreases connects.len(),
{
    if connects.len() == 0 {
        assert(nodes.take(nodes.len() as int) =~= nodes);
    } else {
        let front = connects.drop_last();
        assert forall|k: int| 0 <= k < front.len() implies #[trigger] reaches(
            reach,
            front[k],
            members,
        ) by {
            assert(reaches(reach, connects[k], members));
        }
        lemma_one_round(nodes, front, members, reach);
        let before = one_round(nodes, front, members);
        let last = connects[connects.len() - 1];
        assert(reaches(reach, connects[connects.len() - 1], members));
        lemma_joined_by_all(before, last, members, reach);
        lemma_grows_on(nodes, before, joined_by_all(before, last, members), reach);
    }
}

/// How many nodes in reach are not in the graph yet.
pub open spec fn still_out(
    nodes: Seq<Seq<char>>,
    connects: Seq<(Seq<char>, Seq<char>)>,
    members: Seq<Seq<char>>,
) -> nat {
    in_reach(connects, members).difference(nodes.to_set()).len()
}

pub proof fn lemma_fewer_out(
    nodes: Seq<Seq<char>>,
    connects: Seq<(Seq<char>, Seq<char>)>,
    members: Seq<Seq<char>>,
)
    ensures
        grows_within(nodes, one_round(nodes, connects, members), in_reach(connects, members)),
        nodes.no_duplicates() && one_round(nodes, connects, members).len() != nodes.len()
            ==> still_out(one_round(nodes, connects, members), connects, members) < still_out(
            nodes,
            connects,
            members,
        ),
{
    let reach = in_reach(connects, members);
    lemma_in_reach(connects, members);
    lemma_one_round(nodes, connects, members, reach);
    let after = one_round(nodes, connects, members);
    if nodes.no_duplicates() && after.len() != nodes.len() {
        let fresh = after[nodes.len() as int];
        assert(after.to_set().contains(fresh));
        assert(!nodes.contains(fresh)) by {
            if nodes.contains(fresh) {
                let i = choose|i: int| 0 <= i < nodes.len() && nodes[i] == fresh;
                assert(after.take(nodes.len() as int)[i] == nodes[i]);
                assert(after[i] == after[nodes.len() as int]);
            }
        }
        let was = reach.difference(nodes.to_set());
        let is = reach.difference(after.to_set());
        assert(is.subset_of(was.remove(fresh))) by {
            assert forall|x: Seq<char>| is.contains(x) implies was.remove(fresh).contains(x) by {
                if nodes.contains(x) {
                    let i = choose|i: int| 0 <= i < nodes.len() && nodes[i] == x;
                    assert(after.take(nodes.len() as int)[i] == nodes[i]);
                    assert(after.contains(x));
                }
            }
        }
        assert(was.finite());
        assert(was.contains(fresh));
        vstd::set_lib::lemma_len_subset(is, was.remove(fresh));
    }
}

/// The nodes once nothing more joins.
pub open spec fn all_joined(
    nodes: Seq<Seq<char>>,
    connects: Seq<(Seq<char>, Seq<char>)>,
    members: Seq<Seq<char>>,
) -> Seq<Seq<char>>
    decreases still_out(nodes, connects, members),
{
    let next = one_round(nodes, connects, members);
    if next.len() == nodes.len() || !nodes.no_duplicates() {
        nodes
    } else {
        proof {
            lemma_fewer_out(nodes, connects, members);
        }
        all_joined(next, connects, members)
    }
}

/// The branches that are written out.
pub open spec fn branches_written(clauses: Seq<GraphClauseV>) -> Seq<(Seq<char>, Seq<char>)>
    decreases clauses.len(),
{
    if clauses.len() == 0 {
        Seq::empty()
    } else {
        let before = branches_written(clauses.drop_last());
        match clauses.last() {
            GraphClauseV::Branch(a, b) => before.push((a, b)),
            _ => before,
        }
    }
}

/// The branches that one connection is between the members of its sides.
pub open spec fn branches_between(
    nodes: Seq<Seq<char>>,
    connect: (Seq<char>, Seq<char>),
    members: Seq<Seq<char>>,
) -> Seq<(Seq<char>, Seq<char>)>
    decreases members.len(),
{
    if members.len() == 0 {
        Seq::empty()
    } else {
        let before = branches_between(nodes, connect, members.drop_last());
        let left = dotted(connect.0, members.last());
        let right = dotted(connect.1, members.last());
        if nodes.contains(left) && nodes.contains(right) {
            before.push((left, right))
        } else {
            before
        }
    }
}

/// The branches that the connections are: between two nodes, or between the
/// members of two connectors.
pub open spec fn branches_connected(
    nodes: Seq<Seq<char>>,
    connects: Seq<(Seq<char>, Seq<char>)>,
    members: Seq<Seq<char>>,
) -> Seq<(Seq<char>, Seq<char>)>
    decreases connects.len(),
{
    if connects.len() == 0 {
        Seq::empty()
    } else {
        let before = branches_connected(nodes, connects.drop_last(), members);
        let connect = connects.last();
        if nodes.contains(connect.0) && nodes.contains(connect.1) {
            before.push(connect)
        } else {
            before + branches_between(nodes, connect, members)
        }
    }
}

/// Pairs of names as pairs of positions.
pub open spec fn placed(nodes: Seq<Seq<char>>, named: Seq<(Seq<char>, Seq<char>)>) -> Seq<
    (usize, usize),
> {
    Seq::new(
        named.len(),
        |k: int| (nodes.index_of(named[k].0) as usize, nodes.index_of(named[k].1) as usize),
    )
}

/// The graph as it is drawn: its nodes, and its branches by their positions.
pub ghost struct Graph {
    pub nodes: Seq<Seq<char>>,
    pub edges: Seq<(usize, usize)>,
}

pub open spec fn drawn_nodes(
    clauses: Seq<GraphClauseV>,
    connects: Seq<(Seq<char>, Seq<char>)>,
) -> Seq<Seq<char>> {
    let named = clause_nodes(clauses);
    all_joined(named, connects, members_named(named))
}

pub open spec fn drawn_branches(
    clauses: Seq<GraphClauseV>,
    connects: Seq<(Seq<char>, Seq<char>)>,
) -> Seq<(Seq<char>, Seq<char>)> {
    branches_written(clauses) + branches_connected(
        drawn_nodes(clauses, connects),
        connects,
        members_named(clause_nodes(clauses)),
    )
}

pub open spec fn drawn(clauses: Seq<GraphClauseV>, connects: Seq<(Seq<char>, Seq<char>)>) -> Graph {
    let nodes = drawn_nodes(clauses, connects);
    Graph { nodes, edges: placed(nodes, drawn_branches(clauses, connects)) }
}

/// Whether a node is declared to be a root.
pub open spec fn is_declared(clauses: Seq<GraphClauseV>, node: Seq<char>) -> bool {
    exists|i: int|
        0 <= i < clauses.len() && (#[trigger] clauses[i] matches GraphClauseV::Root(named)
            && named == node)
}

/// The priority at which a node may serve as a root, where it may.
pub open spec fn priority_of(clauses: Seq<GraphClauseV>, node: Seq<char>) -> Option<i64>
    decreases clauses.len(),
{
    if clauses.len() == 0 {
        None
    } else {
        match clauses[0] {
            GraphClauseV::PotentialRoot(named, priority) => if named == node {
                Some(priority)
            } else {
                priority_of(clauses.drop_first(), node)
            },
            _ => priority_of(clauses.drop_first(), node),
        }
    }
}

/// The declared roots among the first `n` nodes of the part that begins at
/// `part`.
pub open spec fn declared_in(clauses: Seq<GraphClauseV>, graph: Graph, part: int, n: nat) -> Seq<
    Seq<char>,
>
    decreases n,
{
    if n == 0 || n > graph.nodes.len() {
        Seq::empty()
    } else {
        let before = declared_in(clauses, graph, part, (n - 1) as nat);
        if group_of(graph.edges, n - 1) == part && is_declared(clauses, graph.nodes[n - 1]) {
            before.push(graph.nodes[n - 1])
        } else {
            before
        }
    }
}

/// Whether one candidate is better than another: a lower priority, and
/// between equals the name that comes first.
pub open spec fn better(a: (i64, Seq<char>), b: (i64, Seq<char>)) -> bool {
    a.0 < b.0 || (a.0 == b.0 && precedes(a.1, b.1))
}

/// The best candidate among the first `n` nodes of the part that begins at
/// `part`.
pub open spec fn best_in(clauses: Seq<GraphClauseV>, graph: Graph, part: int, n: nat) -> Option<
    (i64, Seq<char>),
>
    decreases n,
{
    if n == 0 || n > graph.nodes.len() {
        None
    } else {
        let before = best_in(clauses, graph, part, (n - 1) as nat);
        let node = graph.nodes[n - 1];
        match priority_of(clauses, node) {
            Some(priority) => if group_of(graph.edges, n - 1) == part && (before is None || better(
                (priority, node),
                before->0,
            )) {
                Some((priority, node))
            } else {
                before
            },
            None => before,
        }
    }
}

/// The root of the part that begins at `part`, or why it has none.
pub open spec fn root_of(clauses: Seq<GraphClauseV>, graph: Graph, part: int) -> Result<
    Seq<char>,
    Seq<char>,
> {
    let declared = declared_in(clauses, graph, part, graph.nodes.len());
    if declared.len() > 1 {
        Err(
            "the connection graph holding "@ + quoted_list(declared)
                + " has more than one root"@,
        )
    } else if declared.len() == 1 {
        Ok(declared[0])
    } else {
        match best_in(clauses, graph, part, graph.nodes.len()) {
            Some((_, node)) => Ok(node),
            None => Err(
                "the connection graph holding `"@ + graph.nodes[part]
                    + "` has no root, so nothing says what the rest of it is measured against"@,
            ),
        }
    }
}

/// Whether a part begins at a node.
pub open spec fn begins_part(graph: Graph, part: int) -> bool {
    0 <= part < graph.nodes.len() && group_of(graph.edges, part) == part
}

/// Whether a part begins at a node and has no root.
pub open spec fn fails(clauses: Seq<GraphClauseV>, graph: Graph, part: int) -> bool {
    begins_part(graph, part) && root_of(clauses, graph, part) is Err
}

/// Whether a part fails and is the first to, by the name of its first node.
pub open spec fn fails_first(clauses: Seq<GraphClauseV>, graph: Graph, part: int) -> bool {
    &&& fails(clauses, graph, part)
    &&& forall|other: int| #[trigger]
        fails(clauses, graph, other) ==> !precedes(graph.nodes[other], graph.nodes[part])
}

/// Whether a node is the root of some part.
pub open spec fn is_root(clauses: Seq<GraphClauseV>, graph: Graph, node: Seq<char>) -> bool {
    exists|part: int| #[trigger]
        begins_part(graph, part) && root_of(clauses, graph, part) == Ok::<Seq<char>, Seq<char>>(
            node,
        )
}

/// What breaking the graph open comes to: for every node whether it is a
/// root, or the failure of the first part that fails.
pub open spec fn roots_of(
    clauses: Seq<GraphClauseV>,
    connects: Seq<(Seq<char>, Seq<char>)>,
) -> Result<Map<Seq<char>, bool>, Seq<char>> {
    let graph = drawn(clauses, connects);
    if clauses.len() == 0 {
        Ok(Map::empty())
    } else if exists|part: int| fails(clauses, graph, part) {
        Err(
            root_of(
                clauses,
                graph,
                choose|part: int| fails_first(clauses, graph, part),
            )->Err_0,
        )
    } else {
        Ok(
            Map::new(
                |node: Seq<char>| graph.nodes.contains(node),
                |node: Seq<char>| is_root(clauses, graph, node),
            ),
        )
    }
}

proof fn lemma_with_name(names: Seq<Seq<char>>, name: Seq<char>)
    ensures
        with_name(names, name).contains(name),
        forall|x: Seq<char>| names.contains(x) ==> #[trigger] with_name(names, name).contains(x),
        names.no_duplicates() ==> with_name(names, name).no_duplicates(),
{
    if !names.contains(name) {
        let after = names.push(name);
        assert(after[names.len() as int] == name);
        assert forall|x: Seq<char>| names.contains(x) implies #[trigger] after.contains(x) by {
            let i = choose|i: int| 0 <= i < names.len() && names[i] == x;
            assert(after[i] == x);
        }
        lemma_push_grows(names, name, set![name]);
    }
}

/// The ends of a branch are nodes, and no node is there twice.
proof fn lemma_clause_nodes(clauses: Seq<GraphClauseV>)
    ensures
        clause_nodes(clauses).no_duplicates(),
        forall|k: int|
            0 <= k < branches_written(clauses).len() ==> clause_nodes(clauses).contains(
                (#[trigger] branches_written(clauses)[k]).0,
            ) && clause_nodes(clauses).contains(branches_written(clauses)[k].1),
    decreases clauses.len(),
{
    if clauses.len() > 0 {
        let front = clauses.drop_last();
        lemma_clause_nodes(front);
        let before = clause_nodes(front);
        match clauses.last() {
            GraphClauseV::Root(node) => {
                lemma_with_name(before, node);
            },
            GraphClauseV::PotentialRoot(node, _) => {
                lemma_with_name(before, node);
            },
            GraphClauseV::Branch(a, b) => {
                lemma_with_name(before, a);
                lemma_with_name(with_name(before, a), b);
            },
        }
        assert forall|k: int| 0 <= k < branches_written(clauses).len() implies clause_nodes(
            clauses,
        ).contains((#[trigger] branches_written(clauses)[k]).0) && clause_nodes(clauses).contains(
            branches_written(clauses)[k].1,
        ) by {
            if k < branches_written(front).len() {
                assert(branches_written(clauses)[k] == branches_written(front)[k]);
                assert(before.contains(branches_written(front)[k].0));
                assert(before.contains(branches_written(front)[k].1));
            }
        }
    }
}

proof fn lemma_all_joined(
    nodes: Seq<Seq<char>>,
    connects: Seq<(Seq<char>, Seq<char>)>,
    members: Seq<Seq<char>>,
)
    requires
        nodes.no_duplicates(),
    ensures
        all_joined(nodes, connects, members).no_duplicates(),
        forall|x: Seq<char>| nodes.contains(x) ==> #[trigger] all_joined(nodes, connects, members).contains(x),
    decreases still_out(nodes, connects, members),
{
    let next = one_round(nodes, connects, members);
    lemma_fewer_out(nodes, connects, members);
    if next.len() != nodes.len() {
        lemma_all_joined(next, connects, members);
        assert forall|x: Seq<char>| nodes.contains(x) implies #[trigger] all_joined(
            nodes,
            connects,
            members,
        ).contains(x) by {
            let i = choose|i: int| 0 <= i < nodes.len() && nodes[i] == x;
            assert(next.take(nodes.len() as int)[i] == nodes[i]);
            assert(next.contains(x));
        }
    }
}

/// Two names at different places are different, so the place of one is where
/// it stands.
proof fn lemma_place(nodes: Seq<Seq<char>>, i: int)
    requires
        nodes.no_duplicates(),
        0 <= i < nodes.len(),
    ensures
        nodes.index_of(nodes[i]) == i,
{
    let at = nodes.index_of(nodes[i]);
    assert(0 <= at < nodes.len() && nodes[at] == nodes[i]);
}

fn remember(nodes: &mut Vec<String>, name: &str)
    ensures
        texts(final(nodes)@) == with_name(texts(old(nodes)@), name@),
{
    let ghost before = texts(nodes@);
    if !holds(nodes, name) {
        nodes.push(name.to_owned());
        assert(texts(nodes@) =~= before.push(name@));
    }
}

fn nodes_named(clauses: &Vec<GraphClause>) -> (r: Vec<String>)
    ensures
        texts(r@) == clause_nodes(clauses.deep_view()),
{
    let mut out: Vec<String> = Vec::new();
    let mut i: usize = 0;
    assert(texts(out@) =~= clause_nodes(clauses.deep_view().take(0)));
    while i < clauses.len()
        invariant
            i <= clauses.len(),
            texts(out@) == clause_nodes(clauses.deep_view().take(i as int)),
        decreases clauses.len() - i,
    {
        assert(clauses.deep_view().take(i + 1).drop_last() =~= clauses.deep_view().take(i as int));
        assert(clauses.deep_view()[i as int] == clauses@[i as int].deep_view());
        match &clauses[i] {
            GraphClause::Root(node) => remember(&mut out, node.as_str()),
            GraphClause::PotentialRoot(node, _) => remember(&mut out, node.as_str()),
            GraphClause::Branch(a, b) => {
                remember(&mut out, a.as_str());
                remember(&mut out, b.as_str());
            },
        }
        i = i + 1;
    }
    assert(clauses.deep_view().take(i as int) =~= clauses.deep_view());
    out
}

fn members_of(nodes: &Vec<String>) -> (r: Vec<String>)
    ensures
        texts(r@) == members_named(texts(nodes@)),
{
    let ghost all = texts(nodes@);
    let mut out: Vec<String> = Vec::new();
    let mut i: usize = 0;
    assert(texts(out@) =~= members_named(all.take(0)));
    while i < nodes.len()
        invariant
            i <= nodes.len(),
            all == texts(nodes@),
            texts(out@) == members_named(all.take(i as int)),
        decreases nodes.len() - i,
    {
        assert(all.take(i + 1).drop_last() =~= all.take(i as int));
        if let Some((_, member)) = split_last(nodes[i].as_str(), '.') {
            remember(&mut out, member.as_str());
        }
        i = i + 1;
    }
    assert(all.take(i as int) =~= all);
    out
}

fn go_round(nodes: &mut Vec<String>, connects: &Vec<(String, String)>, members: &Vec<String>)
    ensures
        texts(final(nodes)@) == one_round(
            texts(old(nodes)@),
            connects.deep_view(),
            texts(members@),
        ),
{
    let ghost was = texts(nodes@);
    let ghost all = connects.deep_view();
    let ghost named = texts(members@);
    let mut i: usize = 0;
    assert(all.take(0) =~= Seq::empty());
    while i < connects.len()
        invariant
            i <= connects.len(),
            all == connects.deep_view(),
            named == texts(members@),
            texts(nodes@) == one_round(was, all.take(i as int), named),
        decreases connects.len() - i,
    {
        let ghost before = texts(nodes@);
        let ghost connect = all[i as int];
        assert(all.take(i + 1).drop_last() =~= all.take(i as int));
        assert(all.take(i + 1).last() == connect);
        let mut m: usize = 0;
        assert(named.take(0) =~= Seq::empty());
        while m < members.len()
            invariant
                i < connects.len(),
                m <= members.len(),
                named == texts(members@),
                connect == (connects@[i as int].0@, connects@[i as int].1@),
                texts(nodes@) == joined_by_all(before, connect, named.take(m as int)),
            decreases members.len() - m,
        {
            let ghost now = texts(nodes@);
            assert(named.take(m + 1).drop_last() =~= named.take(m as int));
            let left = dot(connects[i].0.as_str(), members[m].as_str());
            let right = dot(connects[i].1.as_str(), members[m].as_str());
            let has_left = holds(nodes, left.as_str());
            let has_right = holds(nodes, right.as_str());
            if has_left && !has_right {
                let ghost name = right@;
                nodes.push(right);
                assert(texts(nodes@) =~= now.push(name));
            } else if !has_left && has_right {
                let ghost name = left@;
                nodes.push(left);
                assert(texts(nodes@) =~= now.push(name));
            }
            m = m + 1;
        }
        assert(named.take(m as int) =~= named);
        i = i + 1;
    }
    assert(all.take(i as int) =~= all);
}

fn join_all_nodes(
    nodes: &mut Vec<String>,
    connects: &Vec<(String, String)>,
    members: &Vec<String>,
)
    requires
        texts(old(nodes)@).no_duplicates(),
    ensures
        texts(final(nodes)@) == all_joined(
            texts(old(nodes)@),
            connects.deep_view(),
            texts(members@),
        ),
{
    let ghost start = texts(nodes@);
    let ghost all = connects.deep_view();
    let ghost named = texts(members@);
    loop
        invariant
            all == connects.deep_view(),
            named == texts(members@),
            texts(nodes@).no_duplicates(),
            all_joined(start, all, named) == all_joined(texts(nodes@), all, named),
        ensures
            texts(nodes@) == all_joined(start, all, named),
        decreases still_out(texts(nodes@), all, named),
    {
        let before: usize = nodes.len();
        proof {
            lemma_fewer_out(texts(nodes@), all, named);
        }
        let ghost was = texts(nodes@);
        go_round(nodes, connects, members);
        if nodes.len() == before {
            assert(texts(nodes@) =~= was) by {
                assert(texts(nodes@).take(was.len() as int) =~= texts(nodes@));
            }
            break;
        }
    }
}

fn place_of(nodes: &Vec<String>, name: &str) -> (r: usize)
    requires
        texts(nodes@).no_duplicates(),
        texts(nodes@).contains(name@),
    ensures
        r < nodes.len(),
        r == texts(nodes@).index_of(name@),
{
    let wanted: String = name.to_owned();
    let mut i: usize = 0;
    while i < nodes.len()
        invariant
            i <= nodes.len(),
            wanted@ == name@,
            texts(nodes@).no_duplicates(),
            texts(nodes@).contains(name@),
            forall|k: int| 0 <= k < i ==> texts(nodes@)[k] != name@,
        decreases nodes.len() - i,
    {
        if nodes[i] == wanted {
            proof {
                lemma_place(texts(nodes@), i as int);
            }
            return i;
        }
        i = i + 1;
    }
    proof {
        let k = choose|k: int| 0 <= k < texts(nodes@).len() && texts(nodes@)[k] == name@;
        assert(texts(nodes@)[k] != name@);
    }
    0
}

/// One more branch, by the positions of its ends.
fn push_branch(nodes: &Vec<String>, edges: &mut Vec<(usize, usize)>, a: &str, b: &str, named: Ghost<
    Seq<(Seq<char>, Seq<char>)>,
>)
    requires
        texts(nodes@).no_duplicates(),
        texts(nodes@).contains(a@),
        texts(nodes@).contains(b@),
        old(edges)@ == placed(texts(nodes@), named@),
        forall|k: int|
            0 <= k < old(edges)@.len() ==> (#[trigger] old(edges)@[k]).0 < nodes.len() && old(
                edges,
            )@[k].1 < nodes.len(),
    ensures
        final(edges)@ == placed(texts(nodes@), named@.push((a@, b@))),
        forall|k: int|
            0 <= k < final(edges)@.len() ==> (#[trigger] final(edges)@[k]).0 < nodes.len()
                && final(edges)@[k].1 < nodes.len(),
{
    edges.push((place_of(nodes, a), place_of(nodes, b)));
    assert(edges@ =~= placed(texts(nodes@), named@.push((a@, b@))));
}

fn branches_of(
    clauses: &Vec<GraphClause>,
    connects: &Vec<(String, String)>,
    nodes: &Vec<String>,
    members: &Vec<String>,
) -> (r: Vec<(usize, usize)>)
    requires
        texts(nodes@).no_duplicates(),
        forall|k: int|
            0 <= k < branches_written(clauses.deep_view()).len() ==> texts(nodes@).contains(
                (#[trigger] branches_written(clauses.deep_view())[k]).0,
            ) && texts(nodes@).contains(branches_written(clauses.deep_view())[k].1),
    ensures
        r@ == placed(
            texts(nodes@),
            branches_written(clauses.deep_view()) + branches_connected(
                texts(nodes@),
                connects.deep_view(),
                texts(members@),
            ),
        ),
        forall|k: int|
            0 <= k < r@.len() ==> (#[trigger] r@[k]).0 < nodes.len() && r@[k].1 < nodes.len(),
{
    let ghost here = texts(nodes@);
    let ghost all = connects.deep_view();
    let ghost held = texts(members@);
    let ghost written = branches_written(clauses.deep_view());
    let mut edges: Vec<(usize, usize)> = Vec::new();
    let ghost mut named: Seq<(Seq<char>, Seq<char>)> = Seq::empty();
    let mut i: usize = 0;
    assert(edges@ =~= placed(here, named));
    assert(named =~= branches_written(clauses.deep_view().take(0)));
    while i < clauses.len()
        invariant
            i <= clauses.len(),
            here == texts(nodes@),
            here.no_duplicates(),
            written == branches_written(clauses.deep_view()),
            forall|k: int|
                0 <= k < written.len() ==> here.contains((#[trigger] written[k]).0)
                    && here.contains(written[k].1),
            named == branches_written(clauses.deep_view().take(i as int)),
            edges@ == placed(here, named),
            forall|k: int|
                0 <= k < edges@.len() ==> (#[trigger] edges@[k]).0 < nodes.len() && edges@[k].1
                    < nodes.len(),
        decreases clauses.len() - i,
    {
        assert(clauses.deep_view().take(i + 1).drop_last() =~= clauses.deep_view().take(i as int));
        assert(clauses.deep_view()[i as int] == clauses@[i as int].deep_view());
        if let GraphClause::Branch(a, b) = &clauses[i] {
            proof {
                lemma_written_first(clauses.deep_view(), i + 1);
                assert(branches_written(clauses.deep_view().take(i + 1)).last() == (a@, b@));
                assert(written[named.len() as int] == (a@, b@));
            }
            push_branch(nodes, &mut edges, a.as_str(), b.as_str(), Ghost(named));
            proof {
                named = named.push((a@, b@));
            }
        }
        i = i + 1;
    }
    assert(clauses.deep_view().take(i as int) =~= clauses.deep_view());
    let mut i: usize = 0;
    assert(named =~= written + branches_connected(here, all.take(0), held));
    while i < connects.len()
        invariant
            i <= connects.len(),
            here == texts(nodes@),
            here.no_duplicates(),
            all == connects.deep_view(),
            held == texts(members@),
            named == written + branches_connected(here, all.take(i as int), held),
            edges@ == placed(here, named),
            forall|k: int|
                0 <= k < edges@.len() ==> (#[trigger] edges@[k]).0 < nodes.len() && edges@[k].1
                    < nodes.len(),
        decreases connects.len() - i,
    {
        let ghost connect = all[i as int];
        let ghost before = named;
        assert(all.take(i + 1).drop_last() =~= all.take(i as int));
        assert(all.take(i + 1).last() == connect);
        let a = &connects[i].0;
        let b = &connects[i].1;
        if holds(nodes, a.as_str()) && holds(nodes, b.as_str()) {
            push_branch(nodes, &mut edges, a.as_str(), b.as_str(), Ghost(named));
            proof {
                named = named.push((a@, b@));
                assert(named =~= written + branches_connected(here, all.take(i + 1), held));
            }
        } else {
            let mut m: usize = 0;
            assert(named =~= before + branches_between(here, connect, held.take(0)));
            while m < members.len()
                invariant
                    m <= members.len(),
                    here == texts(nodes@),
                    here.no_duplicates(),
                    held == texts(members@),
                    connect == (a@, b@),
                    named == before + branches_between(here, connect, held.take(m as int)),
                    edges@ == placed(here, named),
                    forall|k: int|
                        0 <= k < edges@.len() ==> (#[trigger] edges@[k]).0 < nodes.len()
                            && edges@[k].1 < nodes.len(),
                decreases members.len() - m,
            {
                assert(held.take(m + 1).drop_last() =~= held.take(m as int));
                let left = dot(a.as_str(), members[m].as_str());
                let right = dot(b.as_str(), members[m].as_str());
                if holds(nodes, left.as_str()) && holds(nodes, right.as_str()) {
                    push_branch(nodes, &mut edges, left.as_str(), right.as_str(), Ghost(named));
                    proof {
                        named = named.push((left@, right@));
                    }
                }
                assert(named =~= before + branches_between(here, connect, held.take(m + 1)));
                m = m + 1;
            }
            assert(held.take(m as int) =~= held);
            assert(named =~= written + branches_connected(here, all.take(i + 1), held));
        }
        i = i + 1;
    }
    assert(all.take(i as int) =~= all);
    edges
}

proof fn lemma_written_first(clauses: Seq<GraphClauseV>, n: int)
    requires
        0 <= n <= clauses.len(),
    ensures
        branches_written(clauses.take(n)).len() <= branches_written(clauses).len(),
        forall|k: int|
            0 <= k < branches_written(clauses.take(n)).len() ==> #[trigger] branches_written(
                clauses,
            )[k] == branches_written(clauses.take(n))[k],
    decreases clauses.len() - n,
{
    if n == clauses.len() {
        assert(clauses.take(n) =~= clauses);
    } else {
        lemma_written_first(clauses, n + 1);
        assert(clauses.take(n + 1).drop_last() =~= clauses.take(n));
        assert forall|k: int| 0 <= k < branches_written(clauses.take(n)).len() implies
            #[trigger] branches_written(clauses)[k] == branches_written(clauses.take(n))[k] by {
            assert(branches_written(clauses.take(n + 1))[k] == branches_written(
                clauses.take(n),
            )[k]);
        }
    }
}

fn declares(clauses: &Vec<GraphClause>, node: &str) -> (r: bool)
    ensures
        r == is_declared(clauses.deep_view(), node@),
{
    let mut i: usize = 0;
    while i < clauses.len()
        invariant
            i <= clauses.len(),
            forall|k: int|
                0 <= k < i ==> !(#[trigger] clauses.deep_view()[k] matches GraphClauseV::Root(named)
                    && named == node@),
        decreases clauses.len() - i,
    {
        assert(clauses.deep_view()[i as int] == clauses@[i as int].deep_view());
        if let GraphClause::Root(named) = &clauses[i] {
            if same(named.as_str(), node) {
                assert(clauses.deep_view()[i as int] matches GraphClauseV::Root(named) && named == node@);
                return true;
            }
        }
        i = i + 1;
    }
    false
}

fn find_priority(clauses: &Vec<GraphClause>, node: &str) -> (r: Option<i64>)
    ensures
        r == priority_of(clauses.deep_view(), node@),
{
    let mut i: usize = 0;
    assert(clauses.deep_view().skip(0) =~= clauses.deep_view());
    while i < clauses.len()
        invariant
            i <= clauses.len(),
            priority_of(clauses.deep_view(), node@) == priority_of(clauses.deep_view().skip(i as int), node@),
        decreases clauses.len() - i,
    {
        assert(clauses.deep_view().skip(i as int)[0] == clauses.deep_view()[i as int]);
        assert(clauses.deep_view().skip(i as int).drop_first() =~= clauses.deep_view().skip(i + 1));
        assert(clauses.deep_view()[i as int] == clauses@[i as int].deep_view());
        if let GraphClause::PotentialRoot(named, priority) = &clauses[i] {
            if same(named.as_str(), node) {
                return Some(*priority);
            }
        }
        i = i + 1;
    }
    None
}

fn root_of_part(
    clauses: &Vec<GraphClause>,
    nodes: &Vec<String>,
    label: &Vec<usize>,
    part: usize,
    graph: Ghost<Graph>,
) -> (r: Result<String, String>)
    requires
        graph@.nodes == texts(nodes@),
        label.len() == nodes.len(),
        labels(graph@.edges, label@),
        part < nodes.len(),
    ensures
        told(r) == root_of(clauses.deep_view(), graph@, part as int),
{
    let mut declared: Vec<String> = Vec::new();
    let mut best: Option<(i64, usize)> = None;
    let mut i: usize = 0;
    assert(texts(declared@) =~= Seq::empty());
    while i < nodes.len()
        invariant
            i <= nodes.len(),
            graph@.nodes == texts(nodes@),
            label.len() == nodes.len(),
            labels(graph@.edges, label@),
            texts(declared@) == declared_in(clauses.deep_view(), graph@, part as int, i as nat),
            match best {
                Some((priority, at)) => at < i && best_in(
                    clauses.deep_view(),
                    graph@,
                    part as int,
                    i as nat,
                ) == Some((priority, nodes@[at as int]@)),
                None => best_in(clauses.deep_view(), graph@, part as int, i as nat) is None,
            },
        decreases nodes.len() - i,
    {
        proof {
            lemma_label_is_first(graph@.edges, label@, i as int);
        }
        let ghost node = graph@.nodes[i as int];
        assert(node == nodes@[i as int]@);
        if label[i] == part {
            if declares(clauses, nodes[i].as_str()) {
                let ghost before = texts(declared@);
                declared.push(nodes[i].clone());
                assert(texts(declared@) =~= before.push(node));
            }
            if let Some(priority) = find_priority(clauses, nodes[i].as_str()) {
                let takes = match best {
                    None => true,
                    Some((held, at)) => priority < held || (priority == held && comes_before(
                        nodes[i].as_str(),
                        nodes[at].as_str(),
                    )),
                };
                if takes {
                    best = Some((priority, i));
                }
            }
        }
        i = i + 1;
    }
    if declared.len() > 1 {
        let list = quoted(&declared);
        return Err(
            join3("the connection graph holding ", list.as_str(), " has more than one root"),
        );
    }
    if declared.len() == 1 {
        assert(texts(declared@)[0] == declared@[0]@);
        return Ok(declared[0].clone());
    }
    match best {
        Some((_, at)) => Ok(nodes[at].clone()),
        None => Err(
            join3(
                "the connection graph holding `",
                nodes[part].as_str(),
                "` has no root, so nothing says what the rest of it is measured against",
            ),
        ),
    }
}

/// Break an overconstrained connection graph open, and say which nodes ended
/// up as roots.
///
/// A declared root is taken as given; a potential one serves where a part has
/// none, lowest priority first and by name after that, so the same model
/// always breaks the same way.
pub fn choose_roots(clauses: &Vec<GraphClause>, connects: &Vec<(String, String)>) -> (r: Result<
    Table<bool>,
    String,
>)
    ensures
        told(r) == roots_of(clauses.deep_view(), connects.deep_view()),
{
    if clauses.len() == 0 {
        return Ok(Table::new());
    }
    let ghost all = connects.deep_view();
    let ghost graph = drawn(clauses.deep_view(), all);
    let mut nodes = nodes_named(clauses);
    let members = members_of(&nodes);
    proof {
        lemma_clause_nodes(clauses.deep_view());
        lemma_all_joined(texts(nodes@), all, texts(members@));
    }
    join_all_nodes(&mut nodes, connects, &members);
    let edges = branches_of(clauses, connects, &nodes, &members);
    assert(graph.nodes == texts(nodes@));
    assert(graph.edges == edges@);
    let label = grouped(nodes.len(), &edges);
    let mut rooted: Vec<bool> = Vec::new();
    let mut i: usize = 0;
    while i < nodes.len()
        invariant
            i <= nodes.len(),
            rooted.len() == i,
            forall|k: int| 0 <= k < i ==> !#[trigger] rooted@[k],
        decreases nodes.len() - i,
    {
        rooted.push(false);
        i = i + 1;
    }
    let mut failed: Option<(usize, String)> = None;
    let mut part: usize = 0;
    while part < nodes.len()
        invariant
            part <= nodes.len(),
            graph.nodes == texts(nodes@),
            graph.edges == edges@,
            graph.nodes.no_duplicates(),
            label.len() == nodes.len(),
            labels(graph.edges, label@),
            rooted.len() == nodes.len(),
            forall|k: int|
                0 <= k < nodes.len() ==> (#[trigger] rooted@[k] <==> exists|p: int|
                    p < part && #[trigger] begins_part(graph, p) && root_of(clauses.deep_view(), graph, p)
                        == Ok::<Seq<char>, Seq<char>>(nodes@[k]@)),
            match failed {
                Some((at, why)) => at < part && fails(clauses.deep_view(), graph, at as int) && why@
                    == root_of(clauses.deep_view(), graph, at as int)->Err_0 && forall|p: int|
                    p < part && #[trigger] fails(clauses.deep_view(), graph, p) ==> !precedes(
                        graph.nodes[p],
                        graph.nodes[at as int],
                    ),
                None => forall|p: int| p < part ==> !#[trigger] fails(clauses.deep_view(), graph, p),
            },
        decreases nodes.len() - part,
    {
        proof {
            lemma_label_is_first(graph.edges, label@, part as int);
        }
        if label[part] == part {
            assert(begins_part(graph, part as int));
            match root_of_part(clauses, &nodes, &label, part, Ghost(graph)) {
                Ok(root) => {
                    proof {
                        lemma_root_is_node(clauses.deep_view(), graph, part as int);
                    }
                    let at: usize = place_of(&nodes, root.as_str());
                    proof {
                        let was = rooted@;
                        assert forall|k: int| 0 <= k < nodes.len() implies (
                        #[trigger] was.update(at as int, true)[k] <==> exists|p: int|
                            p < part + 1 && #[trigger] begins_part(graph, p) && root_of(
                                clauses.deep_view(),
                                graph,
                                p,
                            ) == Ok::<Seq<char>, Seq<char>>(nodes@[k]@)) by {
                            assert(texts(nodes@)[k] == nodes@[k]@);
                            assert(texts(nodes@)[at as int] == root@);
                            if k == at {
                                assert(begins_part(graph, part as int));
                            } else {
                                assert(texts(nodes@)[k] != texts(nodes@)[at as int]);
                                if was[k] {
                                    let p = choose|p: int|
                                        p < part && #[trigger] begins_part(graph, p) && root_of(
                                            clauses.deep_view(),
                                            graph,
                                            p,
                                        ) == Ok::<Seq<char>, Seq<char>>(nodes@[k]@);
                                    assert(begins_part(graph, p));
                                }
                            }
                        }
                    }
                    rooted.set(at, true);
                },
                Err(why) => {
                    assert(fails(clauses.deep_view(), graph, part as int));
                    let takes = match &failed {
                        None => true,
                        Some((held, _)) => comes_before(
                            nodes[part].as_str(),
                            nodes[*held].as_str(),
                        ),
                    };
                    proof {
                        assert(texts(nodes@)[part as int] == nodes@[part as int]@);
                        assert forall|p: int| #[trigger]
                            fails(clauses.deep_view(), graph, p) implies 0 <= p < nodes.len() by {}
                        match failed {
                            Some((held, _)) => {
                                assert(texts(nodes@)[held as int] == nodes@[held as int]@);
                                assert forall|p: int|
                                    p < part + 1 && #[trigger] fails(clauses.deep_view(), graph, p) implies (
                                takes ==> !precedes(graph.nodes[p], graph.nodes[part as int])) && (
                                !takes ==> !precedes(graph.nodes[p], graph.nodes[held as int])) by {
                                    law_text_order(
                                        graph.nodes[p],
                                        graph.nodes[part as int],
                                        graph.nodes[held as int],
                                    );
                                }
                            },
                            None => {
                                law_text_order(
                                    graph.nodes[part as int],
                                    graph.nodes[part as int],
                                    graph.nodes[part as int],
                                );
                            },
                        }
                    }
                    if takes {
                        failed = Some((part, why));
                    }
                },
            }
        } else {
            assert(!begins_part(graph, part as int));
        }
        part = part + 1;
    }
    if let Some((at, why)) = failed {
        proof {
            assert(fails_first(clauses.deep_view(), graph, at as int));
            let first = choose|part: int| fails_first(clauses.deep_view(), graph, part);
            law_text_order(graph.nodes[first], graph.nodes[at as int], graph.nodes[first]);
            assert(graph.nodes[first] == graph.nodes[at as int]);
            assert(first == at);
        }
        return Err(why);
    }
    let mut out: Table<bool> = Table::new();
    let mut i: usize = 0;
    let ghost aim = Map::new(
        |node: Seq<char>| graph.nodes.contains(node),
        |node: Seq<char>| is_root(clauses.deep_view(), graph, node),
    );
    while i < nodes.len()
        invariant
            i <= nodes.len(),
            graph.nodes == texts(nodes@),
            graph.nodes.no_duplicates(),
            rooted.len() == nodes.len(),
            forall|k: int|
                0 <= k < nodes.len() ==> (#[trigger] rooted@[k] <==> is_root(
                    clauses.deep_view(),
                    graph,
                    nodes@[k]@,
                )),
            forall|node: Seq<char>|
                out.deep_view().contains_key(node) <==> exists|k: int|
                    0 <= k < i && #[trigger] graph.nodes[k] == node,
            forall|node: Seq<char>| #[trigger]
                out.deep_view().contains_key(node) ==> out.deep_view()[node] == is_root(
                    clauses.deep_view(),
                    graph,
                    node,
                ),
        decreases nodes.len() - i,
    {
        let ghost was = out.deep_view();
        let ghost name = nodes@[i as int]@;
        assert(graph.nodes[i as int] == name);
        out.put(nodes[i].clone(), rooted[i]);
        assert(out.deep_view() == was.insert(name, rooted@[i as int]));
        i = i + 1;
    }
    assert(out.deep_view() =~= aim);
    Ok(out)
}

/// A part's root is a node of that part.
proof fn lemma_root_in_part(clauses: Seq<GraphClauseV>, graph: Graph, part: int, n: nat)
    requires
        n <= graph.nodes.len(),
    ensures
        forall|k: int|
            0 <= k < declared_in(clauses, graph, part, n).len() ==> exists|i: int|
                0 <= i < n && group_of(graph.edges, i) == part && #[trigger] graph.nodes[i]
                    == #[trigger] declared_in(clauses, graph, part, n)[k],
        best_in(clauses, graph, part, n) matches Some((_, node)) ==> exists|i: int|
            0 <= i < n && group_of(graph.edges, i) == part && #[trigger] graph.nodes[i] == node,
    decreases n,
{
    if n > 0 {
        lemma_root_in_part(clauses, graph, part, (n - 1) as nat);
        let before = declared_in(clauses, graph, part, (n - 1) as nat);
        assert forall|k: int| 0 <= k < declared_in(clauses, graph, part, n).len() implies exists|
            i: int,
        |
            0 <= i < n && group_of(graph.edges, i) == part && #[trigger] graph.nodes[i]
                == #[trigger] declared_in(clauses, graph, part, n)[k] by {
            if k < before.len() {
                let i = choose|i: int|
                    0 <= i < n - 1 && group_of(graph.edges, i) == part && #[trigger] graph.nodes[i]
                        == before[k];
                assert(graph.nodes[i] == declared_in(clauses, graph, part, n)[k]);
            } else {
                assert(graph.nodes[n - 1] == declared_in(clauses, graph, part, n)[k]);
            }
        }
        if best_in(clauses, graph, part, n) != best_in(clauses, graph, part, (n - 1) as nat) {
            assert(graph.nodes[n - 1] == (best_in(clauses, graph, part, n)->0).1);
        }
    }
}

proof fn lemma_root_is_node(clauses: Seq<GraphClauseV>, graph: Graph, part: int)
    ensures
        root_of(clauses, graph, part) matches Ok(node) ==> graph.nodes.contains(node) && exists|
            i: int,
        |
            0 <= i < graph.nodes.len() && group_of(graph.edges, i) == part
                && #[trigger] graph.nodes[i] == node,
{
    lemma_root_in_part(clauses, graph, part, graph.nodes.len());
    let declared = declared_in(clauses, graph, part, graph.nodes.len());
    if declared.len() == 1 {
        let i = choose|i: int|
            0 <= i < graph.nodes.len() && group_of(graph.edges, i) == part
                && #[trigger] graph.nodes[i] == declared[0];
        assert(graph.nodes[i] == declared[0]);
    }
}


/// Where the graph could be broken open, every node is linked to a root, and
/// no two different roots are linked to one another.
pub proof fn law_one_root_to_a_part(
    clauses: Seq<GraphClauseV>,
    connects: Seq<(Seq<char>, Seq<char>)>,
    i: int,
)
    requires
        clauses.len() > 0,
        roots_of(clauses, connects) is Ok,
        0 <= i < drawn(clauses, connects).nodes.len(),
    ensures
        ({
            let graph = drawn(clauses, connects);
            let roots = roots_of(clauses, connects)->Ok_0;
            &&& exists|j: int|
                0 <= j < graph.nodes.len() && linked(graph.edges, i, j)
                    && roots[#[trigger] graph.nodes[j]]
            &&& forall|j: int, k: int|
                0 <= j < graph.nodes.len() && 0 <= k < graph.nodes.len() && linked(
                    graph.edges,
                    j,
                    k,
                ) && roots[#[trigger] graph.nodes[j]] && roots[#[trigger] graph.nodes[k]] ==> j
                    == k
        }),
{
    let graph = drawn(clauses, connects);
    let roots = roots_of(clauses, connects)->Ok_0;
    lemma_clause_nodes(clauses);
    lemma_all_joined(clause_nodes(clauses), connects, members_named(clause_nodes(clauses)));
    assert(graph.nodes.no_duplicates());
    let part = group_of(graph.edges, i);
    law_groups(graph.edges, i, i);
    assert(begins_part(graph, part));
    assert(!fails(clauses, graph, part));
    lemma_root_is_node(clauses, graph, part);
    let node = root_of(clauses, graph, part)->Ok_0;
    let j = choose|j: int|
        0 <= j < graph.nodes.len() && group_of(graph.edges, j) == part && #[trigger] graph.nodes[j]
            == node;
    law_groups(graph.edges, i, j);
    assert(is_root(clauses, graph, node));
    assert(graph.nodes.contains(node));
    assert(roots[graph.nodes[j]]);
    assert forall|j: int, k: int|
        0 <= j < graph.nodes.len() && 0 <= k < graph.nodes.len() && linked(graph.edges, j, k)
            && roots[#[trigger] graph.nodes[j]] && roots[#[trigger] graph.nodes[k]] implies j
        == k by {
        assert(graph.nodes.contains(graph.nodes[j]));
        assert(graph.nodes.contains(graph.nodes[k]));
        let p = lemma_root_part(clauses, graph, j);
        let q = lemma_root_part(clauses, graph, k);
        law_groups(graph.edges, j, k);
    }
}

/// A root is the root of the part it is in.
proof fn lemma_root_part(clauses: Seq<GraphClauseV>, graph: Graph, j: int) -> (part: int)
    requires
        graph.nodes.no_duplicates(),
        0 <= j < graph.nodes.len(),
        is_root(clauses, graph, graph.nodes[j]),
    ensures
        part == group_of(graph.edges, j),
        root_of(clauses, graph, part) == Ok::<Seq<char>, Seq<char>>(graph.nodes[j]),
{
    let part = choose|part: int| #[trigger]
        begins_part(graph, part) && root_of(clauses, graph, part) == Ok::<Seq<char>, Seq<char>>(
            graph.nodes[j],
        );
    lemma_root_is_node(clauses, graph, part);
    let i = choose|i: int|
        0 <= i < graph.nodes.len() && group_of(graph.edges, i) == part && #[trigger] graph.nodes[i]
            == graph.nodes[j];
    assert(i == j);
    part
}

}
