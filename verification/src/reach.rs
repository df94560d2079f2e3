//! What a breadth-first traversal reaches: the edges that leave the nodes to
//! which a walk leads from the root.

use vstd::prelude::*;
use crate::traversal::{
    breadth_first_edges, breadth_first_step, lemma_unvisited_insert, start_state, unvisited_below,
    VisitState,
};
use crate::walk::{lemma_walk_drop_last, lemma_walk_of_one, lemma_walk_push};
use crate::{EdgeIndex, GraphModel, NodeIndex};

verus! {

/// Whether a traversal from `root` that has yielded `seen` can be in `state`:
/// the visited nodes are reachable from the root, the frontier holds edges
/// that leave visited nodes, the yielded edges join visited nodes, and each
/// edge that leaves a visited node waits in the frontier or was yielded.
pub open spec fn exploring<V, E>(
    graph: GraphModel<V, E>,
    root: NodeIndex,
    state: VisitState,
    seen: Seq<EdgeIndex>,
) -> bool {
    &&& state.visited.contains(root)
    &&& forall|x: NodeIndex| #[trigger] state.visited.contains(x) ==> graph.reaches(root, x)
    &&& forall|i: int|
        0 <= i < state.frontier.len() ==> state.visited.contains((#[trigger] state.frontier[i]).0)
            && graph.has_edge(state.frontier[i].0, state.frontier[i].1)
    &&& forall|i: int|
        0 <= i < seen.len() ==> state.visited.contains((#[trigger] seen[i]).0)
            && state.visited.contains(seen[i].1) && graph.has_edge(seen[i].0, seen[i].1)
    &&& forall|x: NodeIndex, y: NodeIndex|
        state.visited.contains(x) && #[trigger] graph.has_edge(x, y) ==> state.frontier.contains(
            (x, y),
        ) || seen.contains((x, y))
}

/// Each out-neighbour of a node has its edge among the out-edges of the node.
pub proof fn lemma_out_edges_hold<V, E>(graph: GraphModel<V, E>, x: NodeIndex, y: NodeIndex)
    requires
        graph.has_edge(x, y),
    ensures
        graph.out_edges(x).contains((x, y)),
{
    let list = graph.adjacency[x as int];
    let k = choose|k: int| 0 <= k < list.len() && list[k] == y;
    assert(graph.out_edges(x)[k] == (x, y));
}

/// Each out-edge of a node leaves that node and is an edge of the graph.
pub proof fn lemma_out_edges_are_edges<V, E>(graph: GraphModel<V, E>, x: NodeIndex, k: int)
    requires
        0 <= k < graph.out_edges(x).len(),
    ensures
        graph.out_edges(x)[k].0 == x,
        graph.has_edge(x, graph.out_edges(x)[k].1),
{
    assert(graph.adjacency[x as int][k] == graph.out_edges(x)[k].1);
}

/// A traversal starts in a state in which it can be.
pub proof fn lemma_start_exploring<V, E>(graph: GraphModel<V, E>, root: NodeIndex)
    requires
        graph.has_index(root),
    ensures
        exploring(graph, root, start_state(graph, root), Seq::empty()),
{
    let state = start_state(graph, root);
    lemma_walk_of_one(graph, root);
    assert forall|i: int| 0 <= i < state.frontier.len() implies state.visited.contains(
        (#[trigger] state.frontier[i]).0,
    ) && graph.has_edge(state.frontier[i].0, state.frontier[i].1) by {
        lemma_out_edges_are_edges(graph, root, i);
    }
    assert forall|x: NodeIndex, y: NodeIndex|
        state.visited.contains(x) && #[trigger] graph.has_edge(x, y) implies state.frontier.contains(
        (x, y),
    ) || Seq::<EdgeIndex>::empty().contains((x, y)) by {
        lemma_out_edges_hold(graph, x, y);
    }
}

/// A breadth-first step leads from a state in which the traversal can be to
/// another such state.
pub proof fn lemma_step_exploring<V, E>(
    graph: GraphModel<V, E>,
    root: NodeIndex,
    state: VisitState,
    seen: Seq<EdgeIndex>,
)
    requires
        exploring(graph, root, state, seen),
        state.frontier.len() > 0,
    ensures
        exploring(graph, root, breadth_first_step(graph, state), seen.push(state.frontier[0])),
{
    let head = state.frontier[0];
    let next = breadth_first_step(graph, state);
    let grown = seen.push(head);
    let rest = state.frontier.drop_first();
    let target = head.1;
    assert(state.visited.contains(head.0) && graph.has_edge(head.0, head.1));
    assert(graph.reaches(root, target)) by {
        let walk = choose|walk: Seq<NodeIndex>| graph.is_walk_between(walk, root, head.0);
        lemma_walk_push(graph, walk, root, head.0, target);
    }
    assert forall|i: int| 0 <= i < next.frontier.len() implies next.visited.contains(
        (#[trigger] next.frontier[i]).0,
    ) && graph.has_edge(next.frontier[i].0, next.frontier[i].1) by {
        if i < rest.len() {
            assert(next.frontier[i] == state.frontier[i + 1]);
        } else {
            lemma_out_edges_are_edges(graph, target, i - rest.len());
        }
    }
    assert forall|i: int| 0 <= i < grown.len() implies next.visited.contains(
        (#[trigger] grown[i]).0,
    ) && next.visited.contains(grown[i].1) && graph.has_edge(grown[i].0, grown[i].1) by {
        if i < seen.len() {
            assert(grown[i] == seen[i]);
        }
    }
    assert forall|x: NodeIndex, y: NodeIndex|
        next.visited.contains(x) && #[trigger] graph.has_edge(x, y) implies next.frontier.contains(
        (x, y),
    ) || grown.contains((x, y)) by {
        if state.visited.contains(x) {
            if seen.contains((x, y)) {
                let i = choose|i: int| 0 <= i < seen.len() && seen[i] == (x, y);
                assert(grown[i] == (x, y));
            } else {
                let i = choose|i: int| 0 <= i < state.frontier.len() && state.frontier[i] == (x, y);
                if i == 0 {
                    assert(grown[seen.len() as int] == (x, y));
                } else {
                    assert(next.frontier[i - 1] == (x, y));
                }
            }
        } else {
            lemma_out_edges_hold(graph, x, y);
            let k = choose|k: int|
                0 <= k < graph.out_edges(x).len() && graph.out_edges(x)[k] == (x, y);
            assert(next.frontier[rest.len() + k] == (x, y));
        }
    }
}

/// A set of nodes that holds `from` and, with each of its nodes, the targets of
/// the edges that leave the node holds every node that `from` reaches.
pub proof fn lemma_closed_holds_reached<V, E>(
    graph: GraphModel<V, E>,
    nodes: Set<NodeIndex>,
    walk: Seq<NodeIndex>,
    from: NodeIndex,
    to: NodeIndex,
)
    requires
        nodes.contains(from),
        forall|x: NodeIndex, y: NodeIndex|
            nodes.contains(x) && #[trigger] graph.has_edge(x, y) ==> nodes.contains(y),
        graph.is_walk_between(walk, from, to),
    ensures
        nodes.contains(to),
    decreases walk.len(),
{
    if walk.len() >= 2 {
        lemma_walk_drop_last(graph, walk, from, to);
        lemma_closed_holds_reached(graph, nodes, walk.drop_last(), from, walk[walk.len() - 2]);
    }
}

/// From a state in which it can be, a breadth-first traversal yields only
/// edges that leave nodes which the root reaches, and yields each such edge
/// that it has not yielded before.
pub proof fn lemma_breadth_first_covers<V, E>(
    graph: GraphModel<V, E>,
    root: NodeIndex,
    state: VisitState,
    seen: Seq<EdgeIndex>,
)
    requires
        exploring(graph, root, state, seen),
    ensures
        forall|i: int|
            0 <= i < breadth_first_edges(graph, state).len() ==> graph.reaches(
                root,
                (#[trigger] breadth_first_edges(graph, state)[i]).0,
            ) && graph.has_edge(
                breadth_first_edges(graph, state)[i].0,
                breadth_first_edges(graph, state)[i].1,
            ),
        forall|x: NodeIndex, y: NodeIndex|
            graph.reaches(root, x) && #[trigger] graph.has_edge(x, y) ==> seen.contains((x, y))
                || breadth_first_edges(graph, state).contains((x, y)),
    decreases unvisited_below(state.visited, graph.adjacency.len()), state.frontier.len(),
{
    let out = breadth_first_edges(graph, state);
    if state.frontier.len() == 0 {
        assert forall|x: NodeIndex, y: NodeIndex|
            graph.reaches(root, x) && #[trigger] graph.has_edge(x, y) implies seen.contains((x, y))
            || out.contains((x, y)) by {
            assert forall|a: NodeIndex, b: NodeIndex|
                state.visited.contains(a) && #[trigger] graph.has_edge(a, b) implies state.visited.contains(
                b,
            ) by {
                assert(seen.contains((a, b)));
                let i = choose|i: int| 0 <= i < seen.len() && seen[i] == (a, b);
                assert(state.visited.contains(seen[i].1));
            }
            let walk = choose|walk: Seq<NodeIndex>| graph.is_walk_between(walk, root, x);
            lemma_closed_holds_reached(graph, state.visited, walk, root, x);
        }
    } else {
        let head = state.frontier[0];
        let next = breadth_first_step(graph, state);
        let grown = seen.push(head);
        let later = breadth_first_edges(graph, next);
        lemma_unvisited_insert(state.visited, graph.adjacency.len(), state.next_target());
        lemma_step_exploring(graph, root, state, seen);
        lemma_breadth_first_covers(graph, root, next, grown);
        assert(out == seq![head] + later);
        assert forall|i: int| 0 <= i < out.len() implies graph.reaches(root, (#[trigger] out[i]).0)
            && graph.has_edge(out[i].0, out[i].1) by {
            if i == 0 {
                assert(state.visited.contains(state.frontier[0].0));
            } else {
                assert(out[i] == later[i - 1]);
            }
        }
        assert forall|x: NodeIndex, y: NodeIndex|
            graph.reaches(root, x) && #[trigger] graph.has_edge(x, y) implies seen.contains((x, y))
            || out.contains((x, y)) by {
            if grown.contains((x, y)) {
                let i = choose|i: int| 0 <= i < grown.len() && grown[i] == (x, y);
                if i < seen.len() {
                    assert(seen[i] == (x, y));
                } else {
                    assert(out[0] == (x, y));
                }
            } else {
                let i = choose|i: int| 0 <= i < later.len() && later[i] == (x, y);
                assert(out[i + 1] == (x, y));
            }
        }
    }
}

/// Whether one of `edges` leads to `target`.
pub open spec fn leads_to(edges: Seq<EdgeIndex>, target: NodeIndex) -> bool {
    exists|i: int| 0 <= i < edges.len() && (#[trigger] edges[i]).1 == target
}

/// A breadth-first traversal from `root` yields an edge to `target` exactly if
/// a walk of at least one edge leads from `root` to `target`.
pub proof fn lemma_breadth_first_reaches<V, E>(
    graph: GraphModel<V, E>,
    root: NodeIndex,
    target: NodeIndex,
)
    requires
        graph.has_index(root),
    ensures
        leads_to(breadth_first_edges(graph, start_state(graph, root)), target)
            <==> graph.reaches_by_edges(root, target),
{
    let out = breadth_first_edges(graph, start_state(graph, root));
    lemma_start_exploring(graph, root);
    lemma_breadth_first_covers(graph, root, start_state(graph, root), Seq::empty());
    if leads_to(out, target) {
        let i = choose|i: int| 0 <= i < out.len() && (#[trigger] out[i]).1 == target;
        let walk = choose|walk: Seq<NodeIndex>| graph.is_walk_between(walk, root, out[i].0);
        lemma_walk_push(graph, walk, root, out[i].0, target);
    }
    if graph.reaches_by_edges(root, target) {
        let walk = choose|walk: Seq<NodeIndex>|
            graph.is_walk_between(walk, root, target) && walk.len() >= 2;
        lemma_walk_drop_last(graph, walk, root, target);
        let via = walk[walk.len() - 2];
        assert(graph.reaches(root, via));
        assert(graph.has_edge(via, target));
        assert(out.contains((via, target)));
        let i = choose|i: int| 0 <= i < out.len() && out[i] == (via, target);
        assert(out[i].1 == target);
    }
}

/// From a state in which it can be, a breadth-first traversal of a valid graph
/// yields no edge that it has yielded before or that it yields again.
pub proof fn lemma_breadth_first_no_repeats<V, E>(
    graph: GraphModel<V, E>,
    root: NodeIndex,
    state: VisitState,
    seen: Seq<EdgeIndex>,
)
    requires
        graph.valid(),
        exploring(graph, root, state, seen),
        (seen + state.frontier).no_duplicates(),
    ensures
        (seen + breadth_first_edges(graph, state)).no_duplicates(),
    decreases unvisited_below(state.visited, graph.adjacency.len()), state.frontier.len(),
{
    let out = breadth_first_edges(graph, state);
    if state.frontier.len() == 0 {
        assert(seen + out =~= seen + state.frontier);
    } else {
        let head = state.frontier[0];
        let next = breadth_first_step(graph, state);
        let grown = seen.push(head);
        let rest = state.frontier.drop_first();
        let target = head.1;
        lemma_unvisited_insert(state.visited, graph.adjacency.len(), state.next_target());
        lemma_step_exploring(graph, root, state, seen);
        let waiting = seen + state.frontier;
        assert(grown + rest =~= waiting);
        if state.visited.contains(target) {
            assert(grown + next.frontier =~= waiting);
        } else {
            let outgoing = graph.out_edges(target);
            let all = grown + next.frontier;
            assert(all =~= waiting + outgoing);
            assert forall|i: int, j: int| 0 <= i < all.len() && 0 <= j < all.len() && i != j implies all[i]
                != all[j] by {
                if i < waiting.len() && j < waiting.len() {
                    assert(all[i] == waiting[i] && all[j] == waiting[j]);
                } else if i >= waiting.len() && j >= waiting.len() {
                    let a = i - waiting.len();
                    let b = j - waiting.len();
                    assert(target < graph.adjacency.len());
                    assert(graph.adjacency[target as int].no_duplicates());
                    assert(outgoing[a].1 == graph.adjacency[target as int][a]);
                    assert(outgoing[b].1 == graph.adjacency[target as int][b]);
                } else {
                    let old = if i < waiting.len() { i } else { j };
                    let new = if i < waiting.len() { j } else { i };
                    assert(all[new] == outgoing[new - waiting.len()]);
                    assert(all[new].0 == target);
                    assert(all[old] == waiting[old]);
                    if old < seen.len() {
                        assert(waiting[old] == seen[old]);
                        assert(state.visited.contains(seen[old].0));
                    } else {
                        assert(waiting[old] == state.frontier[old - seen.len()]);
                        assert(state.visited.contains(state.frontier[old - seen.len()].0));
                    }
                }
            }
        }
        lemma_breadth_first_no_repeats(graph, root, next, grown);
        assert(seen + out =~= grown + breadth_first_edges(graph, next));
    }
}

/// A breadth-first traversal of a valid graph from `root` yields each edge at
/// most once, and yields only edges of the graph: it ends after at most as
/// many edges as the graph has.
pub proof fn lemma_breadth_first_yields_once<V, E>(graph: GraphModel<V, E>, root: NodeIndex)
    requires
        graph.valid(),
        graph.has_index(root),
    ensures
        breadth_first_edges(graph, start_state(graph, root)).no_duplicates(),
        forall|i: int|
            0 <= i < breadth_first_edges(graph, start_state(graph, root)).len()
                ==> graph.edges.contains_key(
                #[trigger] breadth_first_edges(graph, start_state(graph, root))[i],
            ),
{
    let state = start_state(graph, root);
    let out = breadth_first_edges(graph, state);
    let none = Seq::<EdgeIndex>::empty();
    lemma_start_exploring(graph, root);
    assert(none + state.frontier =~= state.frontier);
    assert forall|i: int, j: int|
        0 <= i < state.frontier.len() && 0 <= j < state.frontier.len() && i != j implies state.frontier[i]
        != state.frontier[j] by {
        assert(graph.adjacency[root as int].no_duplicates());
        assert(state.frontier[i].1 == graph.adjacency[root as int][i]);
        assert(state.frontier[j].1 == graph.adjacency[root as int][j]);
    }
    lemma_breadth_first_no_repeats(graph, root, state, none);
    assert(none + out =~= out);
    lemma_breadth_first_covers(graph, root, state, none);
    assert forall|i: int| 0 <= i < out.len() implies graph.edges.contains_key(#[trigger] out[i]) by {
        assert(graph.has_edge(out[i].0, out[i].1));
        assert(graph.edges.contains_key((out[i].0, out[i].1)));
    }
}

} // verus!
