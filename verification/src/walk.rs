//! Walks in a graph: reachability and distance.

use vstd::prelude::*;
use crate::edge::DistanceEdge;
use crate::{GraphModel, NodeIndex};

verus! {

impl<V, E> GraphModel<V, E> {
    /// Whether `walk` is a non-empty sequence of nodes, each joined to the next
    /// by an edge.
    pub open spec fn is_walk(self, walk: Seq<NodeIndex>) -> bool {
        &&& walk.len() > 0
        &&& self.has_index(walk[0])
        &&& forall|i: int| 0 <= i < walk.len() - 1 ==> self.has_edge(#[trigger] walk[i], walk[i + 1])
    }

    /// Whether `walk` is a walk that starts at `from` and ends at `to`.
    pub open spec fn is_walk_between(self, walk: Seq<NodeIndex>, from: NodeIndex, to: NodeIndex) -> bool {
        &&& self.is_walk(walk)
        &&& walk[0] == from
        &&& walk.last() == to
    }

    /// Whether a walk leads from `from` to `to`. Every node reaches itself.
    pub open spec fn reaches(self, from: NodeIndex, to: NodeIndex) -> bool {
        exists|walk: Seq<NodeIndex>| self.is_walk_between(walk, from, to)
    }

    /// Whether a walk of at least one edge leads from `from` to `to`.
    pub open spec fn reaches_by_edges(self, from: NodeIndex, to: NodeIndex) -> bool {
        exists|walk: Seq<NodeIndex>| self.is_walk_between(walk, from, to) && walk.len() >= 2
    }

    /// Whether a walk of at most `edges` edges leads from `from` to `to`.
    pub open spec fn reaches_within(self, from: NodeIndex, to: NodeIndex, edges: nat) -> bool {
        exists|walk: Seq<NodeIndex>|
            self.is_walk_between(walk, from, to) && walk.len() <= edges + 1
    }
}

impl<V, E: DistanceEdge> GraphModel<V, E> {
    /// The distance of the edge from `u` to `v`.
    pub open spec fn weight(self, u: NodeIndex, v: NodeIndex) -> nat {
        self.edges[(u, v)].distance_spec() as nat
    }

    /// The sum of the distances of the edges of `walk`.
    pub open spec fn walk_distance(self, walk: Seq<NodeIndex>) -> nat
        decreases walk.len(),
    {
        if walk.len() <= 1 {
            0
        } else {
            self.walk_distance(walk.drop_last()) + self.weight(walk[walk.len() - 2], walk.last())
        }
    }

    /// Whether `walk` leads from `from` to `to` and no walk between the two has
    /// a smaller distance.
    pub open spec fn is_shortest_walk(
        self,
        walk: Seq<NodeIndex>,
        from: NodeIndex,
        to: NodeIndex,
    ) -> bool {
        &&& self.is_walk_between(walk, from, to)
        &&& forall|other: Seq<NodeIndex>| #[trigger]
            self.is_walk_between(other, from, to) ==> self.walk_distance(walk)
                <= self.walk_distance(other)
    }
}

/// A single node is a walk from itself to itself.
pub proof fn lemma_walk_of_one<V, E>(graph: GraphModel<V, E>, at: NodeIndex)
    requires
        graph.has_index(at),
    ensures
        graph.is_walk_between(seq![at], at, at),
        graph.reaches(at, at),
{
    assert(graph.is_walk_between(seq![at], at, at));
}

/// The nodes of a walk in a valid graph are nodes of the graph.
pub proof fn lemma_walk_in_range<V, E>(graph: GraphModel<V, E>, walk: Seq<NodeIndex>, at: int)
    requires
        graph.valid(),
        graph.is_walk(walk),
        0 <= at < walk.len(),
    ensures
        graph.has_index(walk[at]),
{
    if at > 0 {
        let before = walk[at - 1];
        assert(graph.has_edge(before, walk[at - 1 + 1]));
        let list = graph.adjacency[before as int];
        let k = choose|k: int| 0 <= k < list.len() && list[k] == walk[at];
        assert(graph.adjacency[before as int][k] < graph.nodes.len());
    }
}

/// A walk with one more edge at its end is a walk.
pub proof fn lemma_walk_push<V, E>(
    graph: GraphModel<V, E>,
    walk: Seq<NodeIndex>,
    from: NodeIndex,
    via: NodeIndex,
    to: NodeIndex,
)
    requires
        graph.is_walk_between(walk, from, via),
        graph.has_edge(via, to),
    ensures
        graph.is_walk_between(walk.push(to), from, to),
        graph.reaches(from, to),
        graph.reaches_by_edges(from, to),
{
    let longer = walk.push(to);
    assert forall|i: int| 0 <= i < longer.len() - 1 implies graph.has_edge(
        #[trigger] longer[i],
        longer[i + 1],
    ) by {
        if i < walk.len() - 1 {
            assert(graph.has_edge(walk[i], walk[i + 1]));
        }
    }
    assert(graph.is_walk_between(longer, from, to));
}

/// A walk with one more edge at its start is a walk.
pub proof fn lemma_walk_prepend<V, E>(
    graph: GraphModel<V, E>,
    walk: Seq<NodeIndex>,
    from: NodeIndex,
    via: NodeIndex,
    to: NodeIndex,
)
    requires
        graph.is_walk_between(walk, via, to),
        graph.has_index(from),
        graph.has_edge(from, via),
    ensures
        graph.is_walk_between(seq![from] + walk, from, to),
{
    let longer = seq![from] + walk;
    assert forall|i: int| 0 <= i < longer.len() - 1 implies graph.has_edge(
        #[trigger] longer[i],
        longer[i + 1],
    ) by {
        if i > 0 {
            assert(longer[i] == walk[i - 1]);
            assert(graph.has_edge(walk[i - 1], walk[i - 1 + 1]));
        }
    }
}

/// A walk without its last edge is a walk to the node before the last.
pub proof fn lemma_walk_drop_last<V, E>(
    graph: GraphModel<V, E>,
    walk: Seq<NodeIndex>,
    from: NodeIndex,
    to: NodeIndex,
)
    requires
        graph.is_walk_between(walk, from, to),
        walk.len() >= 2,
    ensures
        graph.is_walk_between(walk.drop_last(), from, walk[walk.len() - 2]),
        graph.has_edge(walk[walk.len() - 2], to),
{
    let shorter = walk.drop_last();
    assert forall|i: int| 0 <= i < shorter.len() - 1 implies graph.has_edge(
        #[trigger] shorter[i],
        shorter[i + 1],
    ) by {
        assert(graph.has_edge(walk[i], walk[i + 1]));
    }
    assert(graph.has_edge(walk[walk.len() - 2], walk[walk.len() - 2 + 1]));
}

/// The distance of a walk with one more edge at its start.
pub proof fn lemma_distance_prepend<V, E: DistanceEdge>(
    graph: GraphModel<V, E>,
    from: NodeIndex,
    walk: Seq<NodeIndex>,
)
    requires
        walk.len() > 0,
    ensures
        graph.walk_distance(seq![from] + walk) == graph.weight(from, walk[0])
            + graph.walk_distance(walk),
    decreases walk.len(),
{
    let longer = seq![from] + walk;
    if walk.len() == 1 {
        assert(longer.drop_last() =~= seq![from]);
        assert(graph.walk_distance(seq![from]) == 0);
    } else {
        assert(longer.drop_last() =~= seq![from] + walk.drop_last());
        lemma_distance_prepend(graph, from, walk.drop_last());
    }
}

} // verus!
