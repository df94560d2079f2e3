//! A directed graph container with breadth-first and depth-first traversal and
//! single-source shortest paths.
//!
//! Nodes are arbitrary values that can be compared and cloned; each gets a dense
//! index when it is inserted. Edges are directed and carry a payload. Every
//! contract speaks of the graph's [`GraphModel`].

use vstd::prelude::*;
use vstd::laws_eq::obeys_concrete_eq;

pub mod dijkstra;
pub mod edge;
pub mod fringe;
pub mod graph_error;
pub mod levels;
pub mod model;
pub mod node_dist;
pub mod path;
pub mod preorder;
pub mod reach;
pub mod search;
pub mod sparse_graph;
pub mod traversal;
pub mod walk;

pub use graph_error::GraphError;
pub use model::GraphModel;
pub use sparse_graph::SparseGraph;

verus! {

/// A dense, zero-based identifier of a node, stable for the graph's lifetime.
pub type NodeIndex = usize;

/// A directed edge slot: the indices of its source and of its target.
pub type EdgeIndex = (NodeIndex, NodeIndex);

/// The outcome of resolving a node value.
pub type Node = Result<NodeIndex, GraphError>;

/// An edge slot that may be absent.
pub type Edge = Option<EdgeIndex>;

/// The graph that stores adjacency lists.
pub type AdjList<V, E> = SparseGraph<V, E>;

/// What resolving `value` in `model` yields.
pub open spec fn resolve<V, E>(model: GraphModel<V, E>, value: V) -> Node {
    match model.position(value) {
        Some(idx) => Ok(idx),
        None => Err(GraphError::NodeNotFound),
    }
}

/// The operations of a graph: inserting nodes, resolving values and indices, and
/// enumerating nodes and edges.
///
/// Node values are compared with `==`; the operations that compare require that
/// `==` on `V` is equality of values.
pub trait Graph<V: Eq + Clone, E: Clone> {
    /// The representation invariant of the implementing type.
    spec fn well_formed(&self) -> bool;

    /// The graph that the value stands for.
    spec fn view(&self) -> GraphModel<V, E>;

    /// A well-formed value stands for a valid graph.
    proof fn model_is_valid(&self)
        requires
            self.well_formed(),
        ensures
            self.view().valid(),
    ;

    /// Appends `node` as a new node and returns its index. The caller has
    /// confirmed that the value is not yet a node.
    fn insert_node(&mut self, node: V) -> (idx: NodeIndex)
        requires
            old(self).well_formed(),
            !old(self).view().nodes.contains(node),
        ensures
            final(self).well_formed(),
            final(self).view() == old(self).view().push_node(node),
            idx == old(self).view().nodes.len(),
    ;

    /// Resolves a node value to its index, or reports that it is no node.
    fn node_to_index(&self, node: &V) -> (found: Node)
        requires
            self.well_formed(),
            obeys_concrete_eq::<V>(),
        ensures
            found == resolve(self.view(), *node),
    ;

    /// Resolves a node value to its index, if it is a node.
    fn index_of(&self, node: &V) -> (found: Option<NodeIndex>)
        requires
            self.well_formed(),
            obeys_concrete_eq::<V>(),
        ensures
            found == self.view().position(*node),
    ;

    /// A clone of the value of node `idx`; `None` for an index that is no node.
    fn index_to_node(&self, idx: NodeIndex) -> (value: Option<V>)
        requires
            self.well_formed(),
        ensures
            match value {
                Some(v) => self.view().has_index(idx) && cloned(self.view().nodes[idx as int], v),
                None => !self.view().has_index(idx),
            },
    ;

    /// A clone of the value of node `idx`; `None` for an index that is no node.
    fn node_of(&self, idx: NodeIndex) -> (value: Option<V>)
        requires
            self.well_formed(),
        ensures
            match value {
                Some(v) => self.view().has_index(idx) && cloned(self.view().nodes[idx as int], v),
                None => !self.view().has_index(idx),
            },
    ;

    /// The out-neighbours of `idx` in insertion order; empty for an index that is
    /// no node.
    fn out_nodes(&self, idx: NodeIndex) -> (neighbours: Vec<NodeIndex>)
        requires
            self.well_formed(),
        ensures
            neighbours@ == self.view().out_nodes(idx),
    ;

    /// The edges that enter `idx`, by ascending source.
    fn in_edges(&self, idx: NodeIndex) -> (incoming: Vec<EdgeIndex>)
        requires
            self.well_formed(),
        ensures
            incoming@ == self.view().in_edges(idx),
    ;

    /// The edges that leave `idx`, in insertion order.
    fn out_edges(&self, idx: NodeIndex) -> (outgoing: Vec<EdgeIndex>)
        requires
            self.well_formed(),
        ensures
            outgoing@ == self.view().out_edges(idx),
    ;

    /// Whether `node` is the value of a node.
    fn contains_node(&self, node: &V) -> (present: bool)
        requires
            self.well_formed(),
            obeys_concrete_eq::<V>(),
        ensures
            present == self.view().nodes.contains(*node),
    ;

    /// Whether an edge leads from the node with value `from` to the node with
    /// value `to`.
    fn contains_edge(&self, from: &V, to: &V) -> (present: bool)
        requires
            self.well_formed(),
            obeys_concrete_eq::<V>(),
        ensures
            present == self.view().joins(*from, *to),
    ;

    /// All node indices, ascending.
    fn nodes(&self) -> (all: Vec<NodeIndex>)
        requires
            self.well_formed(),
        ensures
            all@ == self.view().indices(),
    ;

    /// A clone of the payload on the pair `(from, to)`; `None` where the pair has
    /// no edge.
    fn get_edge(&self, from: NodeIndex, to: NodeIndex) -> (payload: Option<E>)
        requires
            self.well_formed(),
        ensures
            match payload {
                Some(e) => self.view().edges.contains_key((from, to)) && cloned(
                    self.view().edges[(from, to)],
                    e,
                ),
                None => !self.view().edges.contains_key((from, to)),
            },
    ;
}

/// Resolves `item` to its index in `graph`, or reports that it is no node.
pub fn node<V: Eq + Clone, E: Clone, G: Graph<V, E>>(item: &V, graph: &G) -> (found: Node)
    requires
        graph.well_formed(),
        obeys_concrete_eq::<V>(),
    ensures
        found == resolve(graph.view(), *item),
{
    graph.node_to_index(item)
}

} // verus!
