//! The number of edges between nodes, and that a breadth-first traversal
//! never goes back to a nearer node.

use vstd::prelude::*;
use crate::reach::{exploring, lemma_start_exploring, lemma_step_exploring};
use crate::traversal::{
    breadth_first_edges, breadth_first_step, lemma_unvisited_insert, start_state, unvisited_below,
    VisitState,
};
use crate::walk::{lemma_walk_drop_last, lemma_walk_push};
use crate::{EdgeIndex, GraphModel, NodeIndex};

verus! {

impl<V, E> GraphModel<V, E> {
    /// Whether `edges` is the least number of edges of a walk from `from` to
    /// `to`.
    pub open spec fn is_least_hops(self, from: NodeIndex, to: NodeIndex, edges: nat) -> bool {
        &&& self.reaches_within(from, to, edges)
        &&& forall|fewer: nat| #[trigger] self.reaches_within(from, to, fewer) ==> edges <= fewer
    }

    /// The least number of edges of a walk from `from` to `to`, where `from`
    /// reaches `to`.
    pub open spec fn hops(self, from: NodeIndex, to: NodeIndex) -> nat {
        choose|edges: nat| self.is_least_hops(from, to, edges)
    }
}

/// Where a walk of at most `edges` edges leads from `from` to `to`, some number
/// of edges is the least.
proof fn lemma_least_exists<V, E>(graph: GraphModel<V, E>, from: NodeIndex, to: NodeIndex, edges: nat)
    requires
        graph.reaches_within(from, to, edges),
    ensures
        exists|least: nat| graph.is_least_hops(from, to, least),
    decreases edges,
{
    if graph.is_least_hops(from, to, edges) {
    } else {
        let fewer = choose|fewer: nat| #[trigger]
            graph.reaches_within(from, to, fewer) && !(edges <= fewer);
        lemma_least_exists(graph, from, to, fewer);
    }
}

/// Where `from` reaches `to`, a walk of `hops` edges leads there and none of
/// fewer edges.
pub proof fn lemma_hops_is_least<V, E>(graph: GraphModel<V, E>, from: NodeIndex, to: NodeIndex)
    requires
        graph.reaches(from, to),
    ensures
        graph.is_least_hops(from, to, graph.hops(from, to)),
{
    let walk = choose|walk: Seq<NodeIndex>| graph.is_walk_between(walk, from, to);
    assert(graph.reaches_within(from, to, (walk.len() - 1) as nat));
    lemma_least_exists(graph, from, to, (walk.len() - 1) as nat);
}

/// The target of an edge is at most one edge farther than its source.
pub proof fn lemma_hops_over_edge<V, E>(
    graph: GraphModel<V, E>,
    from: NodeIndex,
    via: NodeIndex,
    to: NodeIndex,
)
    requires
        graph.reaches(from, via),
        graph.has_edge(via, to),
    ensures
        graph.reaches(from, to),
        graph.hops(from, to) <= graph.hops(from, via) + 1,
{
    lemma_hops_is_least(graph, from, via);
    let walk = choose|walk: Seq<NodeIndex>|
        graph.is_walk_between(walk, from, via) && walk.len() <= graph.hops(from, via) + 1;
    lemma_walk_push(graph, walk, from, via, to);
    assert(graph.reaches_within(from, to, graph.hops(from, via) + 1));
    lemma_hops_is_least(graph, from, to);
}

/// A node that is at least one edge away has a node before it that is one edge
/// nearer.
pub proof fn lemma_hops_has_step<V, E>(graph: GraphModel<V, E>, from: NodeIndex, to: NodeIndex) -> (via:
    NodeIndex)
    requires
        graph.reaches(from, to),
        graph.hops(from, to) >= 1,
    ensures
        graph.reaches(from, via),
        graph.has_edge(via, to),
        graph.hops(from, via) + 1 == graph.hops(from, to),
{
    lemma_hops_is_least(graph, from, to);
    let far = graph.hops(from, to);
    let walk = choose|walk: Seq<NodeIndex>|
        graph.is_walk_between(walk, from, to) && walk.len() <= far + 1;
    if walk.len() == 1 {
        assert(graph.reaches_within(from, to, 0));
    }
    let via = walk[walk.len() - 2];
    lemma_walk_drop_last(graph, walk, from, to);
    assert(graph.reaches_within(from, via, (far - 1) as nat));
    lemma_hops_is_least(graph, from, via);
    lemma_hops_over_edge(graph, from, via, to);
    via
}

/// Whether the sources of `edges` are in order of their number of edges from
/// `root`, the nearest first.
pub open spec fn nearest_first<V, E>(graph: GraphModel<V, E>, root: NodeIndex, edges: Seq<EdgeIndex>) -> bool {
    forall|i: int, j: int|
        0 <= i <= j < edges.len() ==> graph.hops(root, (#[trigger] edges[i]).0) <= graph.hops(
            root,
            (#[trigger] edges[j]).0,
        )
}

/// Whether the frontier of `state` is in levels: its sources are in order of
/// their number of edges from `root`, and none is more than one edge farther
/// than the first.
pub open spec fn levelled<V, E>(graph: GraphModel<V, E>, root: NodeIndex, state: VisitState) -> bool {
    &&& nearest_first(graph, root, state.frontier)
    &&& forall|i: int|
        0 <= i < state.frontier.len() ==> graph.hops(root, (#[trigger] state.frontier[i]).0)
            <= graph.hops(root, state.frontier[0].0) + 1
}

/// While edges wait in a levelled frontier, every node that is no farther from
/// the root than the source of the first of them is visited.
proof fn lemma_near_nodes_visited<V, E>(
    graph: GraphModel<V, E>,
    root: NodeIndex,
    state: VisitState,
    seen: Seq<EdgeIndex>,
    at: NodeIndex,
)
    requires
        exploring(graph, root, state, seen),
        levelled(graph, root, state),
        state.frontier.len() > 0,
        graph.reaches(root, at),
        graph.hops(root, at) <= graph.hops(root, state.frontier[0].0),
    ensures
        state.visited.contains(at),
    decreases graph.hops(root, at),
{
    if graph.hops(root, at) >= 1 {
        let via = lemma_hops_has_step(graph, root, at);
        lemma_near_nodes_visited(graph, root, state, seen, via);
        assert(graph.has_edge(via, at));
        if state.frontier.contains((via, at)) {
            let i = choose|i: int| 0 <= i < state.frontier.len() && state.frontier[i] == (via, at);
            assert(graph.hops(root, state.frontier[0].0) <= graph.hops(root, state.frontier[i].0));
        } else {
            let i = choose|i: int| 0 <= i < seen.len() && seen[i] == (via, at);
            assert(state.visited.contains(seen[i].1));
        }
    } else {
        lemma_hops_is_least(graph, root, at);
        let walk = choose|walk: Seq<NodeIndex>|
            graph.is_walk_between(walk, root, at) && walk.len() <= 0 + 1;
    }
}

/// A breadth-first step keeps the frontier in levels, and the source of the
/// edge it takes is no farther from the root than the source of the next.
proof fn lemma_step_levelled<V, E>(
    graph: GraphModel<V, E>,
    root: NodeIndex,
    state: VisitState,
    seen: Seq<EdgeIndex>,
)
    requires
        exploring(graph, root, state, seen),
        levelled(graph, root, state),
        state.frontier.len() > 0,
    ensures
        levelled(graph, root, breadth_first_step(graph, state)),
        breadth_first_step(graph, state).frontier.len() > 0 ==> graph.hops(
            root,
            state.frontier[0].0,
        ) <= graph.hops(root, breadth_first_step(graph, state).frontier[0].0),
        !state.visited.contains(state.next_target()) ==> graph.hops(root, state.next_target())
            == graph.hops(root, state.frontier[0].0) + 1,
{
    let head = state.frontier[0];
    let next = breadth_first_step(graph, state);
    let rest = state.frontier.drop_first();
    let near = graph.hops(root, head.0);
    assert forall|i: int| 0 <= i < rest.len() implies near <= graph.hops(root, (#[trigger] rest[i]).0)
        && graph.hops(root, rest[i].0) <= near + 1 by {
        assert(rest[i] == state.frontier[i + 1]);
        assert(graph.hops(root, state.frontier[0].0) <= graph.hops(root, state.frontier[i + 1].0));
    }
    assert forall|i: int, j: int| 0 <= i <= j < rest.len() implies graph.hops(
        root,
        (#[trigger] rest[i]).0,
    ) <= graph.hops(root, (#[trigger] rest[j]).0) by {
        assert(rest[i] == state.frontier[i + 1]);
        assert(rest[j] == state.frontier[j + 1]);
    }
    if state.visited.contains(head.1) {
        assert(next.frontier == rest);
    } else {
        let target = head.1;
        assert(state.visited.contains(head.0) && graph.has_edge(head.0, head.1));
        lemma_hops_over_edge(graph, root, head.0, target);
        if graph.hops(root, target) <= near {
            lemma_near_nodes_visited(graph, root, state, seen, target);
        }
        assert(graph.hops(root, target) == near + 1);
        let outgoing = graph.out_edges(target);
        assert(next.frontier == rest + outgoing);
        assert forall|i: int| 0 <= i < next.frontier.len() implies near <= graph.hops(
            root,
            (#[trigger] next.frontier[i]).0,
        ) && graph.hops(root, next.frontier[i].0) <= near + 1 by {
            if i < rest.len() {
                assert(next.frontier[i] == rest[i]);
            } else {
                assert(next.frontier[i] == outgoing[i - rest.len()]);
            }
        }
        assert forall|i: int, j: int| 0 <= i <= j < next.frontier.len() implies graph.hops(
            root,
            (#[trigger] next.frontier[i]).0,
        ) <= graph.hops(root, (#[trigger] next.frontier[j]).0) by {
            if j < rest.len() {
                assert(next.frontier[i] == rest[i]);
                assert(next.frontier[j] == rest[j]);
            } else {
                assert(next.frontier[j] == outgoing[j - rest.len()]);
                if i >= rest.len() {
                    assert(next.frontier[i] == outgoing[i - rest.len()]);
                }
            }
        }
    }
}

/// From a state with a levelled frontier, a breadth-first traversal yields
/// its edges in order of the number of edges between the root and their
/// sources, the nearest first.
pub proof fn lemma_breadth_first_ordered<V, E>(
    graph: GraphModel<V, E>,
    root: NodeIndex,
    state: VisitState,
    seen: Seq<EdgeIndex>,
)
    requires
        exploring(graph, root, state, seen),
        levelled(graph, root, state),
    ensures
        nearest_first(graph, root, breadth_first_edges(graph, state)),
    decreases unvisited_below(state.visited, graph.adjacency.len()), state.frontier.len(),
{
    let out = breadth_first_edges(graph, state);
    if state.frontier.len() > 0 {
        let head = state.frontier[0];
        let next = breadth_first_step(graph, state);
        let later = breadth_first_edges(graph, next);
        lemma_unvisited_insert(state.visited, graph.adjacency.len(), state.next_target());
        lemma_step_exploring(graph, root, state, seen);
        lemma_step_levelled(graph, root, state, seen);
        lemma_breadth_first_ordered(graph, root, next, seen.push(head));
        assert(out == seq![head] + later);
        assert forall|i: int, j: int| 0 <= i <= j < out.len() implies graph.hops(
            root,
            (#[trigger] out[i]).0,
        ) <= graph.hops(root, (#[trigger] out[j]).0) by {
            if i >= 1 {
                assert(out[i] == later[i - 1]);
                assert(out[j] == later[j - 1]);
            } else if j >= 1 {
                assert(out[j] == later[j - 1]);
                assert(later[0] == next.frontier[0]);
                assert(graph.hops(root, later[0].0) <= graph.hops(root, later[j - 1].0));
            }
        }
    }
}

/// The nodes that a breadth-first traversal visits from `state` on, in the
/// order in which it visits them: the targets of the edges that it takes while
/// their target is unvisited.
pub open spec fn breadth_first_nodes<V, E>(graph: GraphModel<V, E>, state: VisitState) -> Seq<
    NodeIndex,
>
    decreases unvisited_below(state.visited, graph.adjacency.len()), state.frontier.len(),
{
    if state.frontier.len() == 0 {
        Seq::empty()
    } else {
        proof {
            lemma_unvisited_insert(state.visited, graph.adjacency.len(), state.next_target());
        }
        let later = breadth_first_nodes(graph, breadth_first_step(graph, state));
        if state.visited.contains(state.next_target()) {
            later
        } else {
            seq![state.next_target()] + later
        }
    }
}

/// Whether `nodes` are in order of their number of edges from `root`, the
/// nearest first.
pub open spec fn nearest_node_first<V, E>(
    graph: GraphModel<V, E>,
    root: NodeIndex,
    nodes: Seq<NodeIndex>,
) -> bool {
    forall|i: int, j: int|
        0 <= i <= j < nodes.len() ==> graph.hops(root, #[trigger] nodes[i]) <= graph.hops(
            root,
            #[trigger] nodes[j],
        )
}

/// From a state with a levelled frontier, a breadth-first traversal visits
/// nodes in order of their number of edges from the root, each of them farther
/// than the source of the edge that waits first.
pub proof fn lemma_breadth_first_nodes_ordered<V, E>(
    graph: GraphModel<V, E>,
    root: NodeIndex,
    state: VisitState,
    seen: Seq<EdgeIndex>,
)
    requires
        exploring(graph, root, state, seen),
        levelled(graph, root, state),
    ensures
        nearest_node_first(graph, root, breadth_first_nodes(graph, state)),
        forall|i: int|
            0 <= i < breadth_first_nodes(graph, state).len() ==> graph.hops(
                root,
                #[trigger] breadth_first_nodes(graph, state)[i],
            ) > graph.hops(root, state.frontier[0].0),
    decreases unvisited_below(state.visited, graph.adjacency.len()), state.frontier.len(),
{
    let nodes = breadth_first_nodes(graph, state);
    if state.frontier.len() > 0 {
        let head = state.frontier[0];
        let next = breadth_first_step(graph, state);
        let later = breadth_first_nodes(graph, next);
        lemma_unvisited_insert(state.visited, graph.adjacency.len(), state.next_target());
        lemma_step_exploring(graph, root, state, seen);
        lemma_step_levelled(graph, root, state, seen);
        lemma_breadth_first_nodes_ordered(graph, root, next, seen.push(head));
        assert forall|i: int| 0 <= i < later.len() implies graph.hops(root, #[trigger] later[i])
            > graph.hops(root, head.0) by {
            assert(next.frontier.len() > 0);
        }
        if !state.visited.contains(head.1) {
            assert(nodes == seq![head.1] + later);
            assert forall|i: int, j: int| 0 <= i <= j < nodes.len() implies graph.hops(
                root,
                #[trigger] nodes[i],
            ) <= graph.hops(root, #[trigger] nodes[j]) by {
                if i >= 1 {
                    assert(nodes[i] == later[i - 1]);
                    assert(nodes[j] == later[j - 1]);
                } else if j >= 1 {
                    assert(nodes[j] == later[j - 1]);
                }
            }
        }
    }
}

/// A breadth-first traversal from `root` visits nodes in order of their number
/// of edges from `root`: it never visits a node after one that is farther.
pub proof fn lemma_breadth_first_visits_nearest_first<V, E>(
    graph: GraphModel<V, E>,
    root: NodeIndex,
)
    requires
        graph.has_index(root),
    ensures
        nearest_node_first(graph, root, breadth_first_nodes(graph, start_state(graph, root))),
{
    let state = start_state(graph, root);
    lemma_start_exploring(graph, root);
    assert forall|i: int| 0 <= i < state.frontier.len() implies (#[trigger] state.frontier[i]).0
        == root by {}
    lemma_breadth_first_nodes_ordered(graph, root, state, Seq::empty());
}

/// A breadth-first traversal from `root` yields its edges in order of the
/// number of edges between `root` and their sources: once it has left a node,
/// it leaves no node that is nearer to the root.
pub proof fn lemma_breadth_first_never_nearer<V, E>(graph: GraphModel<V, E>, root: NodeIndex)
    requires
        graph.has_index(root),
    ensures
        nearest_first(graph, root, breadth_first_edges(graph, start_state(graph, root))),
{
    let state = start_state(graph, root);
    lemma_start_exploring(graph, root);
    assert forall|i: int| 0 <= i < state.frontier.len() implies (#[trigger] state.frontier[i]).0
        == root by {}
    lemma_breadth_first_ordered(graph, root, state, Seq::empty());
}

} // verus!
