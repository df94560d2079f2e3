//! Path queries for callers that hold resolved nodes.

use vstd::prelude::*;
use crate::dijkstra::{search_failure, shortest_path};
use crate::edge::{clone_keeps_distance, DistanceEdge};
use crate::reach::{leads_to, lemma_breadth_first_reaches};
use crate::traversal::{
    breadth_first_edges, lemma_unvisited_insert, start_state, unvisited_below, Traverseable,
};
use crate::{EdgeIndex, GraphError, GraphModel, Node, NodeIndex, SparseGraph};

verus! {

/// The indices to which `nodes` resolved.
pub open spec fn indices_of(nodes: Seq<Node>) -> Seq<NodeIndex> {
    Seq::new(nodes.len(), |i: int| nodes[i]->Ok_0)
}

/// Whether each of `nodes` resolved.
pub open spec fn all_resolved(nodes: Seq<Node>) -> bool {
    forall|i: int| 0 <= i < nodes.len() ==> (#[trigger] nodes[i]) is Ok
}

/// What a path query reports where it finds no walk: the failure of the source,
/// else that of the target, else that of the search.
pub open spec fn path_failure<V, E>(graph: GraphModel<V, E>, source: Node, target: Node) -> GraphError {
    match (source, target) {
        (Err(e), _) => e,
        (Ok(_), Err(e)) => e,
        (Ok(from), Ok(to)) => search_failure(graph, from, to),
    }
}

/// Whether both nodes resolved and a walk leads from the one to the other.
pub open spec fn joined<V, E>(graph: GraphModel<V, E>, source: Node, target: Node) -> bool {
    source is Ok && target is Ok && graph.reaches(source->Ok_0, target->Ok_0)
}

/// Whether both nodes resolved and a walk of at least one edge leads from the
/// one to the other.
pub open spec fn joined_by_edges<V, E>(graph: GraphModel<V, E>, source: Node, target: Node) -> bool {
    source is Ok && target is Ok && graph.reaches_by_edges(source->Ok_0, target->Ok_0)
}

/// Graphs whose edges expose a distance, queried by resolved nodes.
pub trait Path<V: Eq + Clone, E: DistanceEdge>: Traverseable<V, E> {
    /// Whether a walk of at least one edge leads from `source` to `target`:
    /// whether a breadth-first traversal from `source` yields an edge to
    /// `target`. A node that did not resolve has no path.
    fn has_path(&self, source: Node, target: Node) -> (connected: bool)
        requires
            self.well_formed(),
        ensures
            connected == joined_by_edges(self.view(), source, target),
            connected == (source is Ok && target is Ok && self.view().has_index(source->Ok_0)
                && leads_to(
                breadth_first_edges(self.view(), start_state(self.view(), source->Ok_0)),
                target->Ok_0,
            )),
    {
        let target_idx = match target {
            Ok(idx) => idx,
            Err(_) => return false,
        };
        proof {
            if source is Ok && self.view().has_index(source->Ok_0) {
                lemma_breadth_first_reaches(self.view(), source->Ok_0, target_idx);
            }
        }
        let mut visit = match self.breadth_first_visit(source) {
            Ok(visit) => visit,
            Err(_) => {
                proof {
                    if joined_by_edges(self.view(), source, target) {
                        let walk = choose|walk: Seq<NodeIndex>|
                            self.view().is_walk_between(walk, source->Ok_0, target_idx);
                        assert(self.view().has_index(walk[0]));
                    }
                }
                return false;
            },
        };
        let ghost all = breadth_first_edges(self.view(), start_state(self.view(), source->Ok_0));
        let ghost mut seen: Seq<EdgeIndex> = Seq::empty();
        loop
            invariant
                source is Ok,
                target == Ok::<NodeIndex, GraphError>(target_idx),
                self.view().has_index(source->Ok_0),
                all == breadth_first_edges(self.view(), start_state(self.view(), source->Ok_0)),
                leads_to(all, target_idx) <==> self.view().reaches_by_edges(
                    source->Ok_0,
                    target_idx,
                ),
                visit.well_formed(),
                visit.graph() == self.view(),
                seen + breadth_first_edges(visit.graph(), visit.state()) == all,
                !leads_to(seen, target_idx),
            decreases
                    unvisited_below(visit.state().visited, visit.graph().adjacency.len()),
                    visit.state().frontier.len(),
        {
            let ghost before = visit.state();
            proof {
                lemma_unvisited_insert(
                    before.visited,
                    visit.graph().adjacency.len(),
                    before.next_target(),
                );
            }
            match visit.next() {
                Some((from, to)) => {
                    proof {
                        assert(seen.push((from, to)) + breadth_first_edges(
                            visit.graph(),
                            visit.state(),
                        ) =~= seen + breadth_first_edges(visit.graph(), before));
                    }
                    if to == target_idx {
                        proof {
                            assert(all[seen.len() as int] == (from, to));
                        }
                        return true;
                    }
                    proof {
                        let grown = seen.push((from, to));
                        if leads_to(grown, target_idx) {
                            let i = choose|i: int|
                                0 <= i < grown.len() && (#[trigger] grown[i]).1 == target_idx;
                            assert(seen[i].1 == target_idx);
                        }
                        seen = grown;
                    }
                },
                None => {
                    proof {
                        assert(seen + Seq::<EdgeIndex>::empty() =~= seen);
                    }
                    return false;
                },
            }
        }
    }

    /// A walk of least distance from `source` to `target`, each node of it
    /// resolved. A node that did not resolve gives its own failure back, the
    /// source first.
    fn dijkstra_shortest_path(&self, source: Node, target: Node) -> (found: Result<
        Vec<Node>,
        GraphError,
    >)
        requires
            self.well_formed(),
            clone_keeps_distance::<E>(),
        ensures
            match found {
                Ok(nodes) => {
                    &&& source is Ok
                    &&& target is Ok
                    &&& all_resolved(nodes@)
                    &&& self.view().is_shortest_walk(indices_of(nodes@), source->Ok_0, target->Ok_0)
                },
                Err(e) => e == path_failure(self.view(), source, target),
            },
            found is Ok <==> joined(self.view(), source, target),
    {
        let src_idx = match source {
            Ok(idx) => idx,
            Err(e) => return Err(e),
        };
        let trg_idx = match target {
            Ok(idx) => idx,
            Err(e) => return Err(e),
        };
        let walk = match shortest_path(self, src_idx, trg_idx) {
            Ok(walk) => walk,
            Err(e) => return Err(e),
        };
        let mut result: Vec<Node> = Vec::new();
        let mut k: usize = 0;
        while k < walk.len()
            invariant
                k <= walk.len(),
                result.len() == k,
                forall|i: int| 0 <= i < k ==> (#[trigger] result[i]) == Ok::<NodeIndex, GraphError>(walk[i]),
            decreases walk.len() - k,
        {
            result.push(Ok(walk[k]));
            k += 1;
        }
        assert(indices_of(result@) =~= walk@);
        Ok(result)
    }
}

impl<V: Eq + Clone, E: DistanceEdge> Path<V, E> for SparseGraph<V, E> {

}

} // verus!
