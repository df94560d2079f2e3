//! Traversal and shortest paths for callers that hold node values and indices.

use vstd::prelude::*;
use vstd::laws_eq::obeys_concrete_eq;
use crate::dijkstra::shortest_path;
use crate::edge::{clone_keeps_distance, DistanceEdge};
use crate::traversal::{start_state, BreadthFirstVisit, DepthFirstVisit};
use crate::{Graph, GraphError, NodeIndex, SparseGraph};

verus! {

/// Graphs that can be traversed from a node value.
pub trait Searchable<V: Eq + Clone, E: Clone>: Graph<V, E> + Sized {
    /// A breadth-first traversal from the node with value `root`; the failure
    /// that no such node exists where `root` is no node.
    fn breadth_first_visit(&self, root: &V) -> (visit: Result<
        BreadthFirstVisit<'_, V, E, Self>,
        GraphError,
    >)
        requires
            self.well_formed(),
            obeys_concrete_eq::<V>(),
        ensures
            match visit {
                Ok(v) => {
                    &&& self.view().position(*root) is Some
                    &&& v.well_formed()
                    &&& v.graph() == self.view()
                    &&& v.state() == start_state(self.view(), self.view().position(*root).unwrap())
                },
                Err(e) => e == GraphError::NodeNotFound && self.view().position(*root) is None,
            },
    {
        match self.index_of(root) {
            Some(idx) => Ok(BreadthFirstVisit::rooted(self, idx)),
            None => Err(GraphError::NodeNotFound),
        }
    }

    /// A depth-first traversal from the node with value `root`; the failure
    /// that no such node exists where `root` is no node.
    fn depth_first_visit(&self, root: &V) -> (visit: Result<
        DepthFirstVisit<'_, V, E, Self>,
        GraphError,
    >)
        requires
            self.well_formed(),
            obeys_concrete_eq::<V>(),
        ensures
            match visit {
                Ok(v) => {
                    &&& self.view().position(*root) is Some
                    &&& v.well_formed()
                    &&& v.graph() == self.view()
                    &&& v.state() == start_state(self.view(), self.view().position(*root).unwrap())
                },
                Err(e) => e == GraphError::NodeNotFound && self.view().position(*root) is None,
            },
    {
        match self.index_of(root) {
            Some(idx) => Ok(DepthFirstVisit::rooted(self, idx)),
            None => Err(GraphError::NodeNotFound),
        }
    }
}

/// Graphs whose edges expose a distance, searched by node index.
pub trait PathSearchable<V: Eq + Clone, E: DistanceEdge>: Graph<V, E> + Sized {
    /// A walk of least distance from `source` to `target`; `None` where no walk
    /// leads from the one to the other, as where either is no node.
    fn dijkstra_shortest_path(&self, source: NodeIndex, target: NodeIndex) -> (found: Option<
        Vec<NodeIndex>,
    >)
        requires
            self.well_formed(),
            clone_keeps_distance::<E>(),
        ensures
            match found {
                Some(walk) => self.view().is_shortest_walk(walk@, source, target),
                None => !self.view().reaches(source, target),
            },
    {
        match shortest_path(self, source, target) {
            Ok(walk) => Some(walk),
            Err(_) => None,
        }
    }
}

impl<V: Eq + Clone, E: Clone> Searchable<V, E> for SparseGraph<V, E> {

}

impl<V: Eq + Clone, E: DistanceEdge> PathSearchable<V, E> for SparseGraph<V, E> {

}

} // verus!
