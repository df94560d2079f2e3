//! The recursive pre-order traversal, and that a depth-first traversal yields
//! what it yields.

use vstd::prelude::*;
use crate::traversal::{
    depth_first_edges, depth_first_step, lemma_unvisited_insert, start_state, unvisited_below,
    VisitState,
};
use crate::{EdgeIndex, GraphModel, NodeIndex};

verus! {

/// What a recursive traversal leaves behind: the edges it took, in order, and
/// the nodes that are visited after it.
pub struct Tour {
    pub edges: Seq<EdgeIndex>,
    pub visited: Set<NodeIndex>,
}

/// A set with more nodes leaves no more indices unvisited.
pub proof fn lemma_unvisited_shrinks(fewer: Set<NodeIndex>, more: Set<NodeIndex>, bound: nat)
    requires
        fewer.subset_of(more),
    ensures
        unvisited_below(more, bound) <= unvisited_below(fewer, bound),
    decreases bound,
{
    if bound > 0 {
        lemma_unvisited_shrinks(fewer, more, (bound - 1) as nat);
    }
}

/// The recursive pre-order traversal of the out-neighbours of `at` from the one
/// at position `child` on, where `visited` holds the nodes visited so far: each
/// unvisited out-neighbour, in insertion order, is visited, its edge is taken,
/// and its own out-neighbours are traversed before the next one.
pub open spec fn preorder_from<V, E>(
    graph: GraphModel<V, E>,
    at: NodeIndex,
    child: nat,
    visited: Set<NodeIndex>,
) -> Tour
    decreases
            unvisited_below(visited, graph.adjacency.len()),
            graph.out_nodes(at).len() - child,
{
    let children = graph.out_nodes(at);
    if child >= children.len() {
        Tour { edges: Seq::empty(), visited }
    } else if visited.contains(children[child as int]) {
        preorder_from(graph, at, child + 1, visited)
    } else {
        let next = children[child as int];
        let marked = visited.insert(next);
        proof {
            lemma_unvisited_insert(visited, graph.adjacency.len(), next);
        }
        let below = preorder_from(graph, next, 0, marked);
        let so_far = marked.union(below.visited);
        proof {
            lemma_unvisited_shrinks(marked, so_far, graph.adjacency.len());
        }
        let beside = preorder_from(graph, at, child + 1, so_far);
        Tour { edges: seq![(at, next)] + below.edges + beside.edges, visited: beside.visited }
    }
}

/// The recursive pre-order traversal from `root`: the edges it takes, in order.
pub open spec fn preorder_edges<V, E>(graph: GraphModel<V, E>, root: NodeIndex) -> Seq<EdgeIndex> {
    preorder_from(graph, root, 0, set![root]).edges
}

/// A depth-first traversal whose frontier starts with the out-edges of `at`
/// from position `child` on yields what the recursive traversal of these
/// out-neighbours yields, and goes on with the rest of the frontier and the
/// nodes that the recursive traversal visited.
pub proof fn lemma_depth_first_unfolds<V, E>(
    graph: GraphModel<V, E>,
    at: NodeIndex,
    child: nat,
    rest: Seq<EdgeIndex>,
    visited: Set<NodeIndex>,
)
    requires
        child <= graph.out_nodes(at).len(),
    ensures
        visited.subset_of(preorder_from(graph, at, child, visited).visited),
        depth_first_edges(
            graph,
            VisitState { frontier: graph.out_edges(at).skip(child as int) + rest, visited },
        ) == preorder_from(graph, at, child, visited).edges + depth_first_edges(
            graph,
            VisitState { frontier: rest, visited: preorder_from(graph, at, child, visited).visited },
        ),
    decreases
            unvisited_below(visited, graph.adjacency.len()),
            graph.out_nodes(at).len() - child,
{
    let children = graph.out_nodes(at);
    let outgoing = graph.out_edges(at);
    let state = VisitState { frontier: outgoing.skip(child as int) + rest, visited };
    let tour = preorder_from(graph, at, child, visited);
    if child >= children.len() {
        assert(state.frontier =~= rest);
        assert(tour.edges + depth_first_edges(graph, state) =~= depth_first_edges(graph, state));
    } else {
        let next = children[child as int];
        let waiting = outgoing.skip(child as int + 1) + rest;
        assert(state.frontier[0] == (at, next));
        assert(state.frontier.drop_first() =~= waiting);
        if visited.contains(next) {
            lemma_depth_first_unfolds(graph, at, child + 1, rest, visited);
            assert(state.without_next() == VisitState { frontier: waiting, visited });
        } else {
            let marked = visited.insert(next);
            lemma_unvisited_insert(visited, graph.adjacency.len(), next);
            let below = preorder_from(graph, next, 0, marked);
            lemma_depth_first_unfolds(graph, next, 0, waiting, marked);
            let so_far = marked.union(below.visited);
            assert(so_far =~= below.visited);
            lemma_unvisited_shrinks(marked, so_far, graph.adjacency.len());
            lemma_depth_first_unfolds(graph, at, child + 1, rest, so_far);
            let beside = preorder_from(graph, at, child + 1, so_far);
            let stepped = depth_first_step(graph, state);
            assert(graph.out_edges(next).skip(0) =~= graph.out_edges(next));
            assert(stepped == VisitState {
                frontier: graph.out_edges(next).skip(0) + waiting,
                visited: marked,
            });
            let tail = depth_first_edges(graph, VisitState { frontier: rest, visited: beside.visited });
            assert(depth_first_edges(graph, state) == seq![(at, next)] + depth_first_edges(
                graph,
                stepped,
            ));
            assert(seq![(at, next)] + (below.edges + (beside.edges + tail)) =~= (seq![(at, next)]
                + below.edges + beside.edges) + tail);
        }
    }
}

/// A depth-first traversal from `root` yields the edges that the recursive
/// pre-order traversal from `root` takes, in the same order.
pub proof fn lemma_depth_first_is_preorder<V, E>(graph: GraphModel<V, E>, root: NodeIndex)
    ensures
        depth_first_edges(graph, start_state(graph, root)) == preorder_edges(graph, root),
{
    let visited = set![root];
    lemma_depth_first_unfolds(graph, root, 0, Seq::empty(), visited);
    let tour = preorder_from(graph, root, 0, visited);
    assert(graph.out_edges(root).skip(0) + Seq::<EdgeIndex>::empty() =~= graph.out_edges(root));
    assert(depth_first_edges(graph, VisitState { frontier: Seq::empty(), visited: tour.visited })
        =~= Seq::<EdgeIndex>::empty());
    assert(tour.edges + Seq::<EdgeIndex>::empty() =~= tour.edges);
}

/// A depth-first traversal yields only edges whose target was unvisited, and
/// yields no two edges to one target: it visits each node at most once.
pub proof fn lemma_depth_first_visits_once<V, E>(graph: GraphModel<V, E>, state: VisitState)
    ensures
        forall|i: int|
            0 <= i < depth_first_edges(graph, state).len() ==> !state.visited.contains(
                (#[trigger] depth_first_edges(graph, state)[i]).1,
            ),
        forall|i: int, j: int|
            0 <= i < j < depth_first_edges(graph, state).len() ==> (#[trigger] depth_first_edges(
                graph,
                state,
            )[i]).1 != (#[trigger] depth_first_edges(graph, state)[j]).1,
    decreases unvisited_below(state.visited, graph.adjacency.len()), state.frontier.len(),
{
    let out = depth_first_edges(graph, state);
    if state.frontier.len() == 0 {
    } else if state.visited.contains(state.next_target()) {
        lemma_depth_first_visits_once(graph, state.without_next());
        assert(out == depth_first_edges(graph, state.without_next()));
    } else {
        let next = depth_first_step(graph, state);
        let later = depth_first_edges(graph, next);
        lemma_unvisited_insert(state.visited, graph.adjacency.len(), state.next_target());
        lemma_depth_first_visits_once(graph, next);
        assert(out == seq![state.frontier[0]] + later);
        assert forall|i: int| 0 <= i < out.len() implies !state.visited.contains(
            (#[trigger] out[i]).1,
        ) by {
            if i > 0 {
                assert(out[i] == later[i - 1]);
                assert(!next.visited.contains(later[i - 1].1));
            }
        }
        assert forall|i: int, j: int| 0 <= i < j < out.len() implies (#[trigger] out[i]).1 != (
        #[trigger] out[j]).1 by {
            assert(out[j] == later[j - 1]);
            assert(!next.visited.contains(later[j - 1].1));
            if i > 0 {
                assert(out[i] == later[i - 1]);
            }
        }
    }
}

} // verus!
