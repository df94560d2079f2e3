//! The mathematical model of a graph: what every contract of the crate speaks of.

use vstd::prelude::*;
use crate::{EdgeIndex, NodeIndex};

verus! {

/// A graph as plain mathematical data.
///
/// `nodes[i]` is the value of node `i`; `adjacency[i]` lists the out-neighbours of
/// node `i` in the order in which their edges were first inserted; `edges` maps each
/// ordered pair that has an edge to its payload.
pub struct GraphModel<V, E> {
    pub nodes: Seq<V>,
    pub adjacency: Seq<Seq<NodeIndex>>,
    pub edges: Map<EdgeIndex, E>,
}

impl<V, E> GraphModel<V, E> {
    /// The graph without nodes.
    pub open spec fn empty() -> Self {
        GraphModel { nodes: Seq::empty(), adjacency: Seq::empty(), edges: Map::empty() }
    }

    /// The invariant of every graph: every node has an index, node values are
    /// pairwise distinct, each node has one adjacency list, no list names a
    /// neighbour twice or names an index that is not a node, and the pairs with a
    /// payload are exactly the pairs that the adjacency lists hold.
    pub open spec fn valid(self) -> bool {
        &&& self.nodes.len() <= usize::MAX
        &&& self.adjacency.len() == self.nodes.len()
        &&& self.nodes.no_duplicates()
        &&& forall|u: int| 0 <= u < self.adjacency.len() ==> (#[trigger] self.adjacency[u]).no_duplicates()
        &&& forall|u: int, k: int|
            0 <= u < self.adjacency.len() && 0 <= k < self.adjacency[u].len()
                ==> (#[trigger] self.adjacency[u][k]) < self.nodes.len()
        &&& forall|u: NodeIndex, v: NodeIndex| #[trigger]
            self.edges.contains_key((u, v)) <==> self.has_edge(u, v)
    }

    /// Whether `idx` identifies a node.
    pub open spec fn has_index(self, idx: NodeIndex) -> bool {
        idx < self.nodes.len()
    }

    /// Whether the adjacency list of `u` names `v`.
    pub open spec fn has_edge(self, u: NodeIndex, v: NodeIndex) -> bool {
        u < self.adjacency.len() && self.adjacency[u as int].contains(v)
    }

    /// The index of the node with value `value`, if there is one.
    pub open spec fn position(self, value: V) -> Option<NodeIndex> {
        if self.nodes.contains(value) {
            Some(self.nodes.index_of(value) as NodeIndex)
        } else {
            None
        }
    }

    /// The out-neighbours of `idx` in insertion order; empty for an index that is
    /// not a node.
    pub open spec fn out_nodes(self, idx: NodeIndex) -> Seq<NodeIndex> {
        if idx < self.adjacency.len() {
            self.adjacency[idx as int]
        } else {
            Seq::empty()
        }
    }

    /// The edges that leave `idx`, in insertion order.
    pub open spec fn out_edges(self, idx: NodeIndex) -> Seq<EdgeIndex> {
        Seq::new(self.out_nodes(idx).len(), |k: int| (idx, self.out_nodes(idx)[k]))
    }

    /// The edges into `idx` whose source is below `bound`, by ascending source.
    pub open spec fn in_edges_below(self, bound: nat, idx: NodeIndex) -> Seq<EdgeIndex>
        decreases bound,
    {
        if bound == 0 {
            Seq::empty()
        } else {
            let from = (bound - 1) as NodeIndex;
            let before = self.in_edges_below((bound - 1) as nat, idx);
            if self.has_edge(from, idx) {
                before.push((from, idx))
            } else {
                before
            }
        }
    }

    /// The edges that enter `idx`, by ascending source.
    pub open spec fn in_edges(self, idx: NodeIndex) -> Seq<EdgeIndex> {
        self.in_edges_below(self.adjacency.len(), idx)
    }

    /// All node indices, ascending.
    pub open spec fn indices(self) -> Seq<NodeIndex> {
        Seq::new(self.nodes.len(), |i: int| i as NodeIndex)
    }

    /// Whether an edge leads from the node with value `from` to the node with
    /// value `to`.
    pub open spec fn joins(self, from: V, to: V) -> bool {
        match (self.position(from), self.position(to)) {
            (Some(u), Some(v)) => self.edges.contains_key((u, v)),
            _ => false,
        }
    }

    /// The graph with `value` appended as a new node without edges.
    pub open spec fn push_node(self, value: V) -> Self {
        GraphModel {
            nodes: self.nodes.push(value),
            adjacency: self.adjacency.push(Seq::empty()),
            edges: self.edges,
        }
    }

    /// The graph in which `value` is a node: unchanged if it already was one.
    pub open spec fn with_node(self, value: V) -> Self {
        if self.nodes.contains(value) {
            self
        } else {
            self.push_node(value)
        }
    }

    /// The graph with `payload` on the pair `(u, v)`. A pair that had no edge is
    /// appended to the adjacency list of `u`; a pair that had one keeps its place.
    pub open spec fn with_edge(self, u: NodeIndex, v: NodeIndex, payload: E) -> Self {
        GraphModel {
            nodes: self.nodes,
            adjacency: if self.has_edge(u, v) || u >= self.adjacency.len() {
                self.adjacency
            } else {
                self.adjacency.update(u as int, self.adjacency[u as int].push(v))
            },
            edges: self.edges.insert((u, v), payload),
        }
    }

    /// The graph after inserting an edge between two node values, either of which
    /// becomes a node if it was none.
    pub open spec fn add_edge(self, from: V, to: V, payload: E) -> Self {
        let grown = self.with_node(from).with_node(to);
        grown.with_edge(grown.position(from).unwrap(), grown.position(to).unwrap(), payload)
    }

    /// The graph after inserting the edges of `edges` in order.
    pub open spec fn add_edges(self, edges: Seq<(V, V, E)>) -> Self
        decreases edges.len(),
    {
        if edges.len() == 0 {
            self
        } else {
            let (from, to, payload) = edges.last();
            self.add_edges(edges.drop_last()).add_edge(from, to, payload)
        }
    }
}

/// In a valid graph the value of node `idx` resolves to `idx`.
pub proof fn lemma_position_at<V, E>(model: GraphModel<V, E>, idx: NodeIndex)
    requires
        model.valid(),
        model.has_index(idx),
    ensures
        model.position(model.nodes[idx as int]) == Some(idx),
{
    let value = model.nodes[idx as int];
    assert(model.nodes.contains(value));
    let found = model.nodes.index_of(value);
    assert(model.nodes[found] == value);
    assert(found == idx);
}

/// Making `value` a node keeps a graph valid and keeps the index of every value
/// that was a node.
pub proof fn lemma_with_node_keeps<V, E>(model: GraphModel<V, E>, value: V, other: V)
    requires
        model.valid(),
        model.with_node(value).nodes.len() <= usize::MAX,
    ensures
        model.with_node(value).valid(),
        model.with_node(value).nodes.contains(value),
        model.nodes.contains(other) ==> model.with_node(value).position(other) == model.position(
            other,
        ),
{
    if !model.nodes.contains(value) {
        lemma_push_node_valid(model, value);
        let after = model.push_node(value);
        assert(after.nodes[model.nodes.len() as int] == value);
        if model.nodes.contains(other) {
            let at = model.nodes.index_of(other);
            assert(after.nodes[at] == other);
            let found = after.nodes.index_of(other);
            assert(after.nodes[found] == other);
        }
    }
}

/// Putting a payload on a pair of nodes keeps a graph valid.
pub proof fn lemma_with_edge_valid<V, E>(
    model: GraphModel<V, E>,
    u: NodeIndex,
    v: NodeIndex,
    payload: E,
)
    requires
        model.valid(),
        model.has_index(u),
        model.has_index(v),
    ensures
        model.with_edge(u, v, payload).valid(),
{
    let after = model.with_edge(u, v, payload);
    if model.has_edge(u, v) {
        assert forall|a: NodeIndex, b: NodeIndex| #[trigger]
            after.edges.contains_key((a, b)) <==> after.has_edge(a, b) by {
            assert(model.edges.contains_key((a, b)) <==> model.has_edge(a, b));
        }
    } else {
        let list = model.adjacency[u as int];
        assert(after.adjacency[u as int] == list.push(v));
        assert(list.push(v).no_duplicates()) by {
            assert forall|i: int, j: int|
                0 <= i < list.len() + 1 && 0 <= j < list.len() + 1 && i != j implies list.push(
                v,
            )[i] != list.push(v)[j] by {
                if i < list.len() && j < list.len() {
                } else if i < list.len() {
                    assert(list.contains(list[i]));
                } else {
                    assert(list.contains(list[j]));
                }
            }
        }
        assert forall|a: int| 0 <= a < after.adjacency.len() implies (
        #[trigger] after.adjacency[a]).no_duplicates() by {
            if a != u {
                assert(after.adjacency[a] == model.adjacency[a]);
            }
        }
        assert forall|a: int, k: int|
            0 <= a < after.adjacency.len() && 0 <= k < after.adjacency[a].len() implies (
        #[trigger] after.adjacency[a][k]) < after.nodes.len() by {
            if a != u {
                assert(after.adjacency[a] == model.adjacency[a]);
            } else if k < list.len() {
                assert(after.adjacency[a][k] == model.adjacency[a][k]);
            }
        }
        assert forall|a: NodeIndex, b: NodeIndex| #[trigger]
            after.edges.contains_key((a, b)) <==> after.has_edge(a, b) by {
            assert(model.edges.contains_key((a, b)) <==> model.has_edge(a, b));
            if a == u {
                if b == v {
                    assert(list.push(v)[list.len() as int] == v);
                } else {
                    if list.contains(b) {
                        let k = choose|k: int| 0 <= k < list.len() && list[k] == b;
                        assert(list.push(v)[k] == b);
                    }
                    if list.push(v).contains(b) {
                        let k = choose|k: int| 0 <= k < list.len() + 1 && list.push(v)[k] == b;
                        assert(list[k] == b);
                    }
                }
            } else if a < model.adjacency.len() {
                assert(after.adjacency[a as int] == model.adjacency[a as int]);
            }
        }
    }
}

/// Appending a value that is no node yet keeps a graph valid.
pub proof fn lemma_push_node_valid<V, E>(model: GraphModel<V, E>, value: V)
    requires
        model.valid(),
        model.nodes.len() < usize::MAX,
        !model.nodes.contains(value),
    ensures
        model.push_node(value).valid(),
{
    let after = model.push_node(value);
    assert forall|u: int| 0 <= u < after.adjacency.len() implies (#[trigger] after.adjacency[u]).no_duplicates() by {
        if u < model.adjacency.len() {
            assert(after.adjacency[u] == model.adjacency[u]);
        }
    }
    assert forall|u: int, k: int|
        0 <= u < after.adjacency.len() && 0 <= k < after.adjacency[u].len() implies (
    #[trigger] after.adjacency[u][k]) < after.nodes.len() by {
        assert(after.adjacency[u] == model.adjacency[u]);
    }
    assert forall|u: NodeIndex, v: NodeIndex| #[trigger]
        after.edges.contains_key((u, v)) <==> after.has_edge(u, v) by {
        assert(model.edges.contains_key((u, v)) <==> model.has_edge(u, v));
        if u < model.adjacency.len() {
            assert(after.adjacency[u as int] == model.adjacency[u as int]);
        }
    }
}

/// A valid graph has as many nodes as it has distinct node values.
pub proof fn lemma_node_count<V, E>(model: GraphModel<V, E>)
    requires
        model.valid(),
    ensures
        model.indices().len() == model.nodes.to_set().len(),
{
    model.nodes.unique_seq_to_set();
}

/// Appending a node adds its value to the node values and nothing else.
pub proof fn lemma_push_node_values<V, E>(model: GraphModel<V, E>, value: V)
    ensures
        model.push_node(value).nodes.to_set() == model.nodes.to_set().insert(value),
{
    let before = model.nodes;
    let after = before.push(value);
    assert forall|x: V| after.to_set().contains(x) <==> before.to_set().insert(value).contains(
        x,
    ) by {
        if after.contains(x) {
            let i = choose|i: int| 0 <= i < after.len() && after[i] == x;
            if i < before.len() {
                assert(before[i] == x);
            }
        }
        if before.contains(x) {
            let i = choose|i: int| 0 <= i < before.len() && before[i] == x;
            assert(after[i] == x);
        }
        assert(after[before.len() as int] == value);
    }
    assert(after.to_set() =~= before.to_set().insert(value));
}

/// Inserting an edge keeps a graph valid, and adds the values of its two ends
/// to the node values and nothing else: with every insertion the graph has as
/// many nodes as distinct values were inserted.
pub proof fn lemma_add_edge_values<V, E>(model: GraphModel<V, E>, from: V, to: V, payload: E)
    requires
        model.valid(),
        model.add_edge(from, to, payload).nodes.len() <= usize::MAX,
    ensures
        model.add_edge(from, to, payload).valid(),
        model.add_edge(from, to, payload).nodes.to_set() == model.nodes.to_set().insert(
            from,
        ).insert(to),
        model.add_edge(from, to, payload).indices().len() == model.nodes.to_set().insert(
            from,
        ).insert(to).len(),
{
    let first = model.with_node(from);
    let grown = first.with_node(to);
    lemma_with_node_keeps(model, from, from);
    lemma_with_node_keeps(first, to, from);
    lemma_push_node_values(model, from);
    lemma_push_node_values(first, to);
    assert(first.nodes.to_set() =~= model.nodes.to_set().insert(from));
    assert(grown.nodes.to_set() =~= first.nodes.to_set().insert(to));
    let u = grown.position(from).unwrap();
    let v = grown.position(to).unwrap();
    lemma_with_edge_valid(grown, u, v, payload);
    lemma_node_count(model.add_edge(from, to, payload));
}

/// After an edge was inserted between two values, both are nodes, the pair of
/// their indices holds the payload of the edge, and the adjacency list of the
/// source names the target once. Where the pair had an edge before, no
/// adjacency list has changed.
pub proof fn lemma_add_edge_stores<V, E>(model: GraphModel<V, E>, from: V, to: V, payload: E)
    requires
        model.valid(),
        model.add_edge(from, to, payload).nodes.len() <= usize::MAX,
    ensures
        ({
            let after = model.add_edge(from, to, payload);
            &&& after.position(from) is Some
            &&& after.position(to) is Some
            &&& after.joins(from, to)
            &&& after.edges[(after.position(from).unwrap(), after.position(to).unwrap())] == payload
            &&& after.adjacency[after.position(from).unwrap() as int].to_multiset().count(
                after.position(to).unwrap(),
            ) == 1
            &&& model.joins(from, to) ==> after.adjacency == model.adjacency && after.nodes
                == model.nodes
        }),
{
    let first = model.with_node(from);
    let grown = first.with_node(to);
    lemma_with_node_keeps(model, from, from);
    lemma_with_node_keeps(first, to, from);
    let u = grown.position(from).unwrap();
    let v = grown.position(to).unwrap();
    let after = model.add_edge(from, to, payload);
    assert(grown.nodes.contains(from) && grown.nodes.contains(to));
    assert(grown.nodes[grown.nodes.index_of(from)] == from);
    assert(grown.nodes[grown.nodes.index_of(to)] == to);
    lemma_with_edge_valid(grown, u, v, payload);
    assert(after.edges.contains_key((u, v)));
    assert(after.has_edge(u, v));
    let list = after.adjacency[u as int];
    assert(list.no_duplicates());
    list.lemma_multiset_has_no_duplicates();
    assert(list.to_multiset().contains(v)) by {
        broadcast use vstd::seq_lib::group_to_multiset_ensures;

    }
    if model.joins(from, to) {
        assert(first == model);
        assert(grown == model);
        assert(model.edges.contains_key((u, v)) <==> model.has_edge(u, v));
    }
}

/// Resolving a value depends on the graph and the value alone, so that two
/// resolutions in one graph agree; and a value that is a node keeps its index
/// when an edge is inserted.
pub proof fn lemma_position_is_stable<V, E>(
    model: GraphModel<V, E>,
    value: V,
    first: Option<NodeIndex>,
    second: Option<NodeIndex>,
    from: V,
    to: V,
    payload: E,
)
    requires
        model.valid(),
        model.add_edge(from, to, payload).nodes.len() <= usize::MAX,
        first == model.position(value),
        second == model.position(value),
    ensures
        first == second,
        first is Some ==> model.add_edge(from, to, payload).position(value) == first,
{
    let grown = model.with_node(from);
    lemma_with_node_keeps(model, from, value);
    lemma_with_node_keeps(grown, to, value);
    if first is Some {
        lemma_with_node_keeps(model, from, from);
        assert(grown.nodes.contains(value)) by {
            if !model.nodes.contains(from) {
                let i = model.nodes.index_of(value);
                assert(grown.nodes[i] == value);
            }
        }
    }
}

/// The values at the ends of `edges`.
pub open spec fn end_values<V, E>(edges: Seq<(V, V, E)>) -> Set<V> {
    Set::new(
        |value: V|
            exists|i: int|
                0 <= i < edges.len() && ((#[trigger] edges[i]).0 == value || edges[i].1 == value),
    )
}

/// A graph that was built from nothing by inserting edges is valid and has as
/// many nodes as distinct values stand at the ends of the edges.
pub proof fn lemma_add_edges_node_count<V, E>(edges: Seq<(V, V, E)>)
    requires
        2 * edges.len() <= usize::MAX,
    ensures
        GraphModel::<V, E>::empty().add_edges(edges).valid(),
        GraphModel::<V, E>::empty().add_edges(edges).nodes.to_set() == end_values(edges),
        GraphModel::<V, E>::empty().add_edges(edges).indices().len() == end_values(edges).len(),
        GraphModel::<V, E>::empty().add_edges(edges).nodes.len() <= 2 * edges.len(),
    decreases edges.len(),
{
    let start = GraphModel::<V, E>::empty();
    let built = start.add_edges(edges);
    if edges.len() == 0 {
        assert(built.nodes.to_set() =~= end_values(edges));
    } else {
        let before = edges.drop_last();
        let (from, to, payload) = edges.last();
        let partial = start.add_edges(before);
        lemma_add_edges_node_count(before);
        assert(partial.add_edge(from, to, payload).nodes.len() <= partial.nodes.len() + 2);
        lemma_add_edge_values(partial, from, to, payload);
        assert forall|value: V| end_values(edges).contains(value) <==> end_values(before).insert(
            from,
        ).insert(to).contains(value) by {
            if end_values(before).contains(value) {
                let i = choose|i: int|
                    0 <= i < before.len() && ((#[trigger] before[i]).0 == value || before[i].1
                        == value);
                assert(edges[i] == before[i]);
            }
            if end_values(edges).contains(value) {
                let i = choose|i: int|
                    0 <= i < edges.len() && ((#[trigger] edges[i]).0 == value || edges[i].1
                        == value);
                if i < before.len() {
                    assert(before[i] == edges[i]);
                }
            }
            assert(edges[edges.len() - 1] == (from, to, payload));
        }
        assert(end_values(edges) =~= end_values(before).insert(from).insert(to));
    }
    lemma_node_count(built);
}

} // verus!
