//! Graph storage: node values by index, per-node adjacency lists, and the edge
//! payloads.

use vstd::prelude::*;
use vstd::laws_eq::obeys_concrete_eq;
use std::collections::HashMap;
use crate::model::{lemma_position_at, lemma_push_node_valid, lemma_with_edge_valid, lemma_with_node_keeps};
use crate::{EdgeIndex, Graph, GraphError, GraphModel, Node, NodeIndex};

verus! {

broadcast use vstd::std_specs::hash::group_hash_axioms;

/// A directed graph that stores its nodes in insertion order, the out-neighbours
/// of each node in the order in which their edges were first inserted, and one
/// payload for each ordered pair that has an edge.
pub struct SparseGraph<V, E> {
    nodes: Vec<V>,
    edges: Vec<HashMap<NodeIndex, E>>,
    adj_list: Vec<Vec<NodeIndex>>,
}

impl<V: Eq + Clone, E: Clone> SparseGraph<V, E> {
    /// The empty graph.
    pub fn new() -> (graph: SparseGraph<V, E>)
        ensures
            graph.well_formed(),
            graph@ == GraphModel::<V, E>::empty(),
    {
        let graph = SparseGraph { nodes: Vec::new(), edges: Vec::new(), adj_list: Vec::new() };
        assert(graph@.adjacency =~= Seq::empty());
        assert(graph@.edges =~= Map::empty());
        graph
    }
}

impl<V: Eq + Clone, E: Clone> Graph<V, E> for SparseGraph<V, E> {
    closed spec fn well_formed(&self) -> bool {
        &&& self.edges.len() == self.nodes.len()
        &&& self.adj_list.len() == self.nodes.len()
        &&& self@.valid()
    }

    closed spec fn view(&self) -> GraphModel<V, E> {
        GraphModel {
            nodes: self.nodes@,
            adjacency: Seq::new(self.adj_list.len() as nat, |u: int| self.adj_list[u]@),
            edges: Map::new(
                |pair: EdgeIndex|
                    pair.0 < self.edges.len() && self.edges[pair.0 as int]@.contains_key(pair.1),
                |pair: EdgeIndex| self.edges[pair.0 as int]@[pair.1],
            ),
        }
    }

    proof fn model_is_valid(&self) {
    }

    fn insert_node(&mut self, node: V) -> (idx: NodeIndex) {
        self.add_node(node);
        self.nodes.len() - 1
    }

    fn node_to_index(&self, node: &V) -> (found: Node) {
        match self.index_of(node) {
            Some(idx) => Ok(idx),
            None => Err(GraphError::NodeNotFound),
        }
    }

    fn index_of(&self, node: &V) -> (found: Option<NodeIndex>) {
        let mut idx: usize = 0;
        while idx < self.nodes.len()
            invariant
                idx <= self.nodes.len(),
                self.well_formed(),
                obeys_concrete_eq::<V>(),
                forall|i: int| 0 <= i < idx ==> self.nodes[i] != *node,
            decreases self.nodes.len() - idx,
        {
            proof {
                reveal(obeys_concrete_eq);
            }
            if self.nodes[idx] == *node {
                proof {
                    lemma_position_at(self@, idx);
                }
                return Some(idx);
            }
            idx += 1;
        }
        None
    }

    fn index_to_node(&self, idx: NodeIndex) -> (value: Option<V>) {
        if idx < self.nodes.len() {
            Some(self.nodes[idx].clone())
        } else {
            None
        }
    }

    fn node_of(&self, idx: NodeIndex) -> (value: Option<V>) {
        self.index_to_node(idx)
    }

    fn out_nodes(&self, idx: NodeIndex) -> (neighbours: Vec<NodeIndex>) {
        if idx < self.adj_list.len() {
            let neighbours = self.adj_list[idx].clone();
            assert(neighbours@ =~= self.adj_list[idx as int]@);
            neighbours
        } else {
            Vec::new()
        }
    }

    fn in_edges(&self, idx: NodeIndex) -> (incoming: Vec<EdgeIndex>) {
        let mut incoming: Vec<EdgeIndex> = Vec::new();
        let mut from: usize = 0;
        while from < self.adj_list.len()
            invariant
                from <= self.adj_list.len(),
                incoming@ == self@.in_edges_below(from as nat, idx),
            decreases self.adj_list.len() - from,
        {
            if contains_index(&self.adj_list[from], idx) {
                incoming.push((from, idx));
            }
            from += 1;
        }
        incoming
    }

    fn out_edges(&self, idx: NodeIndex) -> (outgoing: Vec<EdgeIndex>) {
        let neighbours = self.out_nodes(idx);
        let mut outgoing: Vec<EdgeIndex> = Vec::new();
        let mut k: usize = 0;
        while k < neighbours.len()
            invariant
                k <= neighbours.len(),
                neighbours@ == self@.out_nodes(idx),
                outgoing@ == self@.out_edges(idx).take(k as int),
            decreases neighbours.len() - k,
        {
            outgoing.push((idx, neighbours[k]));
            assert(outgoing@ =~= self@.out_edges(idx).take(k + 1));
            k += 1;
        }
        assert(outgoing@ =~= self@.out_edges(idx));
        outgoing
    }

    fn contains_node(&self, node: &V) -> (present: bool) {
        self.index_of(node).is_some()
    }

    fn contains_edge(&self, from: &V, to: &V) -> (present: bool) {
        let fi = match self.index_of(from) {
            Some(x) => x,
            None => return false,
        };
        let ti = match self.index_of(to) {
            Some(x) => x,
            None => return false,
        };
        self.edges[fi].contains_key(&ti)
    }

    fn nodes(&self) -> (all: Vec<NodeIndex>) {
        let mut all: Vec<NodeIndex> = Vec::new();
        let mut idx: usize = 0;
        while idx < self.nodes.len()
            invariant
                idx <= self.nodes.len(),
                all@ == self@.indices().take(idx as int),
            decreases self.nodes.len() - idx,
        {
            all.push(idx);
            assert(all@ =~= self@.indices().take(idx + 1));
            idx += 1;
        }
        assert(all@ =~= self@.indices());
        all
    }

    fn get_edge(&self, from: NodeIndex, to: NodeIndex) -> (payload: Option<E>) {
        if from < self.edges.len() {
            match self.edges[from].get(&to) {
                Some(e) => Some(e.clone()),
                None => None,
            }
        } else {
            None
        }
    }
}

impl<V: Eq + Clone, E: Clone> SparseGraph<V, E> {
    /// Appends `n` as a new node without edges. The caller has confirmed that the
    /// value is not yet a node.
    pub fn add_node(&mut self, n: V)
        requires
            old(self).well_formed(),
            !old(self)@.nodes.contains(n),
        ensures
            final(self).well_formed(),
            final(self)@ == old(self)@.push_node(n),
    {
        self.nodes.push(n);
        self.edges.push(HashMap::new());
        self.adj_list.push(Vec::new());
        proof {
            let before = old(self)@;
            let after = self@;
            assert(after.nodes =~= before.nodes.push(n));
            assert(after.adjacency =~= before.adjacency.push(Seq::empty()));
            assert(after.edges =~= before.edges);
            lemma_push_node_valid(before, n);
        }
    }
}

impl<V: Eq + Clone, E: Clone> SparseGraph<V, E> {
    /// The index of `value`, which becomes a node if it was none.
    fn resolve_or_insert(&mut self, value: V) -> (idx: NodeIndex)
        requires
            old(self).well_formed(),
            obeys_concrete_eq::<V>(),
        ensures
            final(self).well_formed(),
            final(self)@ == old(self)@.with_node(value),
            final(self)@.position(value) == Some(idx),
    {
        match self.index_of(&value) {
            Some(idx) => idx,
            None => {
                self.add_node(value);
                let idx = self.nodes.len() - 1;
                proof {
                    lemma_position_at(self@, idx);
                }
                idx
            },
        }
    }

    /// Inserts an edge from the node with value `from` to the node with value
    /// `to`. Either value becomes a node if it was none. A pair that already had
    /// an edge gets the new payload and keeps its place in the adjacency list.
    pub fn add_edge(&mut self, from: V, to: V, edge: E)
        requires
            old(self).well_formed(),
            obeys_concrete_eq::<V>(),
        ensures
            final(self).well_formed(),
            final(self)@ == old(self)@.add_edge(from, to, edge),
    {
        let ghost start = self@;
        let fi = self.resolve_or_insert(from);
        let ti = self.resolve_or_insert(to);
        let ghost grown = self@;
        proof {
            lemma_with_node_keeps(start.with_node(from), to, from);
            lemma_with_edge_valid(grown, fi, ti, edge);
        }
        let previous = self.edges[fi].insert(ti, edge);
        if previous.is_none() {
            self.adj_list[fi].push(ti);
        }
        proof {
            let target = grown.with_edge(fi, ti, edge);
            assert(grown.edges.contains_key((fi, ti)) <==> grown.has_edge(fi, ti));
            assert(previous.is_none() <==> !grown.edges.contains_key((fi, ti)));
            assert(self@.nodes =~= target.nodes);
            assert(self@.adjacency =~= target.adjacency);
            assert(self@.edges =~= target.edges);
        }
    }

    /// The graph that holds the edges of `edges`, inserted in order.
    pub fn from_iter(edges: Vec<(V, V, E)>) -> (graph: SparseGraph<V, E>)
        requires
            obeys_concrete_eq::<V>(),
        ensures
            graph.well_formed(),
            graph@ == GraphModel::<V, E>::empty().add_edges(edges@),
    {
        let mut graph: SparseGraph<V, E> = SparseGraph::new();
        let ghost all = edges@;
        for item in it: edges.into_iter()
            invariant
                obeys_concrete_eq::<V>(),
                it.seq() == all,
                graph.well_formed(),
                graph@ == GraphModel::<V, E>::empty().add_edges(all.take(it.index())),
        {
            let (from, to, edge) = item;
            proof {
                let done = all.take(it.index() + 1);
                assert(done.drop_last() =~= all.take(it.index()));
                assert(done.last() == (from, to, edge));
            }
            graph.add_edge(from, to, edge);
        }
        assert(all.take(all.len() as int) =~= all);
        graph
    }
}

/// Whether `list` holds `idx`.
fn contains_index(list: &Vec<NodeIndex>, idx: NodeIndex) -> (present: bool)
    ensures
        present == list@.contains(idx),
{
    let mut k: usize = 0;
    while k < list.len()
        invariant
            k <= list.len(),
            forall|i: int| 0 <= i < k ==> list[i] != idx,
        decreases list.len() - k,
    {
        if list[k] == idx {
            return true;
        }
        k += 1;
    }
    false
}

} // verus!
