//! Single-source shortest paths over edges that expose a distance.

use vstd::prelude::*;
use vstd::multiset::Multiset;
use crate::edge::{clone_keeps_distance, DistanceEdge};
use crate::fringe::Fringe;
use crate::node_dist::NodeDist;
use crate::traversal::{lemma_unvisited_insert, unvisited_below};
use crate::walk::{
    lemma_distance_prepend, lemma_walk_drop_last, lemma_walk_in_range, lemma_walk_of_one,
    lemma_walk_prepend,
};
use crate::{Graph, GraphError, GraphModel, NodeIndex};

verus! {

/// What a search from one source has recorded for each node: the least distance
/// found so far (`None` while no walk was found), the node before it on a walk
/// of that distance, and the number of edges of that walk.
pub struct Tables {
    pub dist: Seq<Option<u128>>,
    pub prev: Seq<Option<NodeIndex>>,
    pub rank: Seq<nat>,
}

/// The largest distance that one edge can have.
pub open spec fn edge_limit() -> nat {
    0xffff_ffff_ffff_ffff
}

impl Tables {
    /// Whether the tables have an entry for each node of `graph`, the source has
    /// distance zero and no predecessor, and every other node with a distance
    /// has a predecessor among `settled` whose distance and edge add up to it.
    pub open spec fn chained<V, E: DistanceEdge>(
        self,
        graph: GraphModel<V, E>,
        source: NodeIndex,
        settled: Set<NodeIndex>,
    ) -> bool {
        &&& self.dist.len() == graph.nodes.len()
        &&& self.prev.len() == graph.nodes.len()
        &&& self.rank.len() == graph.nodes.len()
        &&& graph.has_index(source)
        &&& self.dist[source as int] == Some(0u128)
        &&& self.prev[source as int] is None
        &&& forall|v: NodeIndex|
            graph.has_index(v) && (#[trigger] self.dist[v as int]) is None ==> self.prev[v as int] is None
        &&& forall|v: NodeIndex|
            graph.has_index(v) && v != source && (#[trigger] self.dist[v as int]) is Some
                ==> self.linked(graph, settled, v)
        &&& forall|x: NodeIndex| #[trigger]
            settled.contains(x) ==> graph.has_index(x) && self.dist[x as int] is Some
    }

    /// Whether `v` has a predecessor among `settled` whose distance and edge add
    /// up to the distance of `v`.
    pub open spec fn linked<V, E: DistanceEdge>(
        self,
        graph: GraphModel<V, E>,
        settled: Set<NodeIndex>,
        v: NodeIndex,
    ) -> bool {
        &&& self.prev[v as int] is Some
        &&& settled.contains(self.prev[v as int].unwrap())
        &&& graph.has_edge(self.prev[v as int].unwrap(), v)
        &&& self.dist[self.prev[v as int].unwrap() as int] is Some
        &&& self.dist[v as int].unwrap() == self.dist[self.prev[v as int].unwrap() as int].unwrap()
            + graph.weight(self.prev[v as int].unwrap(), v)
        &&& self.rank[self.prev[v as int].unwrap() as int] < self.rank[v as int]
    }

    /// Whether the first `upto` out-edges of `x` cannot improve the distance of
    /// their targets.
    pub open spec fn relaxed<V, E: DistanceEdge>(
        self,
        graph: GraphModel<V, E>,
        x: NodeIndex,
        upto: int,
    ) -> bool {
        forall|k: int|
            0 <= k < upto ==> self.dist[(#[trigger] graph.adjacency[x as int][k]) as int] is Some
                && self.dist[graph.adjacency[x as int][k] as int].unwrap() <= self.dist[x as int].unwrap()
                + graph.weight(x, graph.adjacency[x as int][k])
    }

    /// Whether no out-edge of a node of `settled` other than `except` can improve
    /// the distance of its target.
    pub open spec fn all_relaxed<V, E: DistanceEdge>(
        self,
        graph: GraphModel<V, E>,
        settled: Set<NodeIndex>,
        except: Option<NodeIndex>,
    ) -> bool {
        forall|x: NodeIndex| #[trigger]
            settled.contains(x) && except != Some(x) ==> self.relaxed(
                graph,
                x,
                graph.adjacency[x as int].len() as int,
            )
    }

    /// Whether the fringe holds the current distance of every node that has one
    /// and is not settled, holds no distance below the current one of its node,
    /// and holds no distance below that of a settled node.
    pub open spec fn fringe_fits(self, settled: Set<NodeIndex>, fringe: Multiset<NodeDist>) -> bool {
        &&& forall|v: NodeIndex|
            v < self.dist.len() && (#[trigger] self.dist[v as int]) is Some && !settled.contains(v)
                ==> fringe.contains(NodeDist(v, self.dist[v as int].unwrap()))
        &&& forall|e: NodeDist| #[trigger]
            fringe.contains(e) ==> e.0 < self.dist.len() && self.dist[e.0 as int] is Some
                && self.dist[e.0 as int].unwrap() <= e.1
        &&& forall|x: NodeIndex, e: NodeDist|
            #![trigger settled.contains(x), fringe.contains(e)]
            settled.contains(x) && fringe.contains(e) ==> self.dist[x as int].unwrap() <= e.1
    }

    /// Whether no distance in the tables or in the fringe is above what `count`
    /// edges can add up to.
    pub open spec fn bounded(self, fringe: Multiset<NodeDist>, count: nat) -> bool {
        &&& forall|v: int|
            0 <= v < self.dist.len() && (#[trigger] self.dist[v]) is Some ==> self.dist[v].unwrap()
                <= count * edge_limit()
        &&& forall|e: NodeDist| #[trigger] fringe.contains(e) ==> e.1 <= count * edge_limit()
    }

    /// Whether the search is over: every node with a distance is linked to a
    /// predecessor with a distance, and no edge from a node with a distance can
    /// improve the distance of its target.
    pub open spec fn finished<V, E: DistanceEdge>(
        self,
        graph: GraphModel<V, E>,
        source: NodeIndex,
    ) -> bool {
        &&& self.chained(graph, source, self.reached())
        &&& self.all_relaxed(graph, self.reached(), None)
    }

    /// The nodes that have a distance.
    pub open spec fn reached(self) -> Set<NodeIndex> {
        Set::new(|v: NodeIndex| v < self.dist.len() && self.dist[v as int] is Some)
    }
}

/// How many of the first `bound` indices are in `settled`.
pub open spec fn settled_below(settled: Set<NodeIndex>, bound: nat) -> nat {
    (bound - unvisited_below(settled, bound)) as nat
}

/// At most `bound` indices below `bound` are outside a set.
pub proof fn lemma_unvisited_at_most(visited: Set<NodeIndex>, bound: nat)
    ensures
        unvisited_below(visited, bound) <= bound,
    decreases bound,
{
    if bound > 0 {
        lemma_unvisited_at_most(visited, (bound - 1) as nat);
    }
}

/// In finished tables, the distance of the last node of a walk from the source
/// is at most the distance of the walk.
pub proof fn lemma_finished_is_least<V, E: DistanceEdge>(
    graph: GraphModel<V, E>,
    source: NodeIndex,
    tables: Tables,
    walk: Seq<NodeIndex>,
    to: NodeIndex,
)
    requires
        graph.valid(),
        tables.finished(graph, source),
        graph.is_walk_between(walk, source, to),
    ensures
        graph.has_index(to),
        tables.dist[to as int] is Some,
        tables.dist[to as int].unwrap() <= graph.walk_distance(walk),
    decreases walk.len(),
{
    if walk.len() >= 2 {
        let via = walk[walk.len() - 2];
        lemma_walk_drop_last(graph, walk, source, to);
        lemma_finished_is_least(graph, source, tables, walk.drop_last(), via);
        lemma_walk_in_range(graph, walk, walk.len() - 1);
        assert(tables.reached().contains(via));
        let list = graph.adjacency[via as int];
        let k = choose|k: int| 0 <= k < list.len() && list[k] == to;
        assert(tables.relaxed(graph, via, list.len() as int));
        assert(graph.adjacency[via as int][k] == to);
    }
}

/// Whether a search is between two entries of the fringe: the tables are
/// chained through `settled`, the edges of the settled nodes are relaxed, and
/// the fringe fits the tables.
pub open spec fn searching<V, E: DistanceEdge>(
    graph: GraphModel<V, E>,
    source: NodeIndex,
    tables: Tables,
    settled: Set<NodeIndex>,
    fringe: Multiset<NodeDist>,
) -> bool {
    &&& tables.chained(graph, source, settled)
    &&& tables.all_relaxed(graph, settled, None)
    &&& tables.fringe_fits(settled, fringe)
    &&& tables.bounded(fringe, settled_below(settled, graph.nodes.len()))
}

/// Whether a search is relaxing the out-edges of `entry`, which it took from
/// the fringe, and has dealt with the first `upto` of them. `fresh` says that
/// the entry settled its node; otherwise the node was settled before.
pub open spec fn relaxing<V, E: DistanceEdge>(
    graph: GraphModel<V, E>,
    source: NodeIndex,
    tables: Tables,
    settled: Set<NodeIndex>,
    fringe: Multiset<NodeDist>,
    entry: NodeDist,
    upto: int,
    fresh: bool,
) -> bool {
    &&& settled.contains(entry.0)
    &&& tables.chained(graph, source, settled)
    &&& tables.all_relaxed(graph, settled, Some(entry.0))
    &&& tables.relaxed(
        graph,
        entry.0,
        if fresh {
            upto
        } else {
            graph.adjacency[entry.0 as int].len() as int
        },
    )
    &&& tables.fringe_fits(settled, fringe)
    &&& tables.bounded(fringe, settled_below(settled, graph.nodes.len()))
    &&& tables.dist[entry.0 as int].unwrap() <= entry.1
    &&& fresh ==> tables.dist[entry.0 as int].unwrap() == entry.1
    &&& forall|x: NodeIndex| #[trigger] settled.contains(x) ==> tables.dist[x as int].unwrap() <= entry.1
    &&& forall|e: NodeDist| #[trigger] fringe.contains(e) ==> entry.1 <= e.1
    &&& entry.1 <= graph.nodes.len() * edge_limit()
    &&& fresh ==> entry.1 + edge_limit() <= settled_below(settled, graph.nodes.len()) * edge_limit()
}

/// The tables of a search from `source`: for each node the least distance of a
/// walk from the source, and the node before it on such a walk.
fn search_from<V: Eq + Clone, E: DistanceEdge, G: Graph<V, E>>(
    graph: &G,
    source: NodeIndex,
) -> (found: (Vec<Option<u128>>, Vec<Option<NodeIndex>>, Ghost<Seq<nat>>))
    requires
        graph.well_formed(),
        clone_keeps_distance::<E>(),
        graph.view().has_index(source),
    ensures
        (Tables { dist: found.0@, prev: found.1@, rank: found.2@ }).finished(graph.view(), source),
{
    proof {
        graph.model_is_valid();
    }
    let node_len = graph.nodes().len();
    let mut dist: Vec<Option<u128>> = Vec::new();
    let mut prev: Vec<Option<NodeIndex>> = Vec::new();
    let mut filled: usize = 0;
    while filled < node_len
        invariant
            filled <= node_len,
            dist.len() == filled,
            prev.len() == filled,
            forall|i: int| 0 <= i < filled ==> dist[i] is None && prev[i] is None,
        decreases node_len - filled,
    {
        dist.push(None);
        prev.push(None);
        filled += 1;
    }
    let mut queue = Fringe::new();
    queue.push(NodeDist(source, 0));
    dist[source] = Some(0);
    let ghost mut rank: Seq<nat> = Seq::new(node_len as nat, |i: int| 0nat);
    let ghost mut settled: Set<NodeIndex> = Set::empty();
    proof {
        lemma_unvisited_at_most(settled, node_len as nat);
    }
    loop
        invariant
            graph.well_formed(),
            graph.view().valid(),
            clone_keeps_distance::<E>(),
            node_len == graph.view().nodes.len(),
            queue.well_formed(),
            searching(
                graph.view(),
                source,
                Tables { dist: dist@, prev: prev@, rank: rank },
                settled,
                queue@,
            ),
        ensures
            (Tables { dist: dist@, prev: prev@, rank: rank }).finished(graph.view(), source),
        decreases unvisited_below(settled, node_len as nat), queue@.len(),
    {
        let ghost waiting = queue@;
        let ghost before = Tables { dist: dist@, prev: prev@, rank: rank };
        match queue.pop() {
            None => {
                proof {
                    lemma_search_over(graph.view(), source, before, settled, waiting);
                }
                break ;
            },
            Some(entry) => {
                let u = entry.0;
                let dist_u = entry.1;
                let ghost fresh = !settled.contains(u);
                let ghost settled_before = settled;
                proof {
                    lemma_take_entry(graph.view(), source, before, settled, waiting, entry);
                    if fresh {
                        settled = settled.insert(u);
                    }
                    lemma_unvisited_insert(settled_before, node_len as nat, u);
                    lemma_unvisited_at_most(settled, node_len as nat);
                }
                let out_nodes = graph.out_nodes(u);
                let mut k: usize = 0;
                while k < out_nodes.len()
                    invariant
                        graph.well_formed(),
                        graph.view().valid(),
                        clone_keeps_distance::<E>(),
                        node_len == graph.view().nodes.len(),
                        queue.well_formed(),
                        k <= out_nodes.len(),
                        out_nodes@ == graph.view().adjacency[u as int],
                        entry == NodeDist(u, dist_u),
                        !fresh ==> queue@ == waiting.remove(entry),
                        relaxing(
                            graph.view(),
                            source,
                            Tables { dist: dist@, prev: prev@, rank: rank },
                            settled,
                            queue@,
                            entry,
                            k as int,
                            fresh,
                        ),
                    decreases out_nodes.len() - k,
                {
                    let v = out_nodes[k];
                    let ghost tables = Tables { dist: dist@, prev: prev@, rank: rank };
                    proof {
                        assert(graph.view().adjacency[u as int][k as int] == v);
                        assert(graph.view().has_edge(u, v));
                        assert(graph.view().edges.contains_key((u, v)));
                    }
                    let dist_edge = graph.get_edge(u, v).unwrap().distance();
                    assert(dist_edge == graph.view().weight(u, v));
                    let alt: u128 = dist_u + dist_edge as u128;
                    let improves = match dist[v] {
                        None => true,
                        Some(known) => alt < known,
                    };
                    let ghost waiting_now = queue@;
                    if improves {
                        dist[v] = Some(alt);
                        prev[v] = Some(u);
                        queue.push(NodeDist(v, alt));
                        proof {
                            rank = rank.update(v as int, rank[u as int] + 1);
                            lemma_improve(
                                graph.view(),
                                source,
                                tables,
                                settled,
                                waiting_now,
                                entry,
                                k as int,
                                fresh,
                                Tables { dist: dist@, prev: prev@, rank: rank },
                            );
                        }
                    } else {
                        proof {
                            lemma_keep(
                                graph.view(),
                                source,
                                tables,
                                settled,
                                queue@,
                                entry,
                                k as int,
                                fresh,
                            );
                        }
                    }
                    k += 1;
                }
                proof {
                    lemma_entry_done(
                        graph.view(),
                        source,
                        Tables { dist: dist@, prev: prev@, rank: rank },
                        settled,
                        queue@,
                        entry,
                        fresh,
                    );
                }
            },
        }
    }
    (dist, prev, Ghost(rank))
}

/// With an empty fringe the search is over.
proof fn lemma_search_over<V, E: DistanceEdge>(
    graph: GraphModel<V, E>,
    source: NodeIndex,
    tables: Tables,
    settled: Set<NodeIndex>,
    fringe: Multiset<NodeDist>,
)
    requires
        searching(graph, source, tables, settled, fringe),
        fringe.len() == 0,
    ensures
        tables.finished(graph, source),
{
    assert forall|v: NodeIndex| tables.reached().contains(v) implies settled.contains(v) by {
        if !settled.contains(v) {
            assert(fringe.contains(NodeDist(v, tables.dist[v as int].unwrap())));
        }
    }
    assert(tables.reached() =~= settled);
}

/// Taking an entry of least distance from the fringe starts the relaxing of its
/// out-edges: a node that was not settled is settled at the distance of the
/// entry.
proof fn lemma_take_entry<V, E: DistanceEdge>(
    graph: GraphModel<V, E>,
    source: NodeIndex,
    tables: Tables,
    settled: Set<NodeIndex>,
    fringe: Multiset<NodeDist>,
    entry: NodeDist,
)
    requires
        graph.valid(),
        searching(graph, source, tables, settled, fringe),
        fringe.contains(entry),
        forall|other: NodeDist| fringe.contains(other) ==> entry.1 <= other.1,
    ensures
        graph.has_index(entry.0),
        relaxing(
            graph,
            source,
            tables,
            settled.insert(entry.0),
            fringe.remove(entry),
            entry,
            0,
            !settled.contains(entry.0),
        ),
        settled.contains(entry.0) ==> settled.insert(entry.0) == settled,
{
    let u = entry.0;
    let fresh = !settled.contains(u);
    let after = settled.insert(u);
    let rest = fringe.remove(entry);
    let n = graph.nodes.len();
    lemma_unvisited_insert(settled, n, u);
    lemma_unvisited_at_most(settled, n);
    lemma_unvisited_at_most(after, n);
    if fresh {
        assert(fringe.contains(NodeDist(u, tables.dist[u as int].unwrap())));
    } else {
        assert(after =~= settled);
    }
    assert forall|e: NodeDist| #[trigger] rest.contains(e) implies fringe.contains(e) by {}
    assert(tables.chained(graph, source, after)) by {
        assert forall|v: NodeIndex|
            graph.has_index(v) && v != source && (#[trigger] tables.dist[v as int]) is Some implies tables.linked(
            graph,
            after,
            v,
        ) by {
            assert(tables.linked(graph, settled, v));
        }
    }
    assert(tables.all_relaxed(graph, after, Some(u))) by {
        assert forall|x: NodeIndex| #[trigger]
            after.contains(x) && Some(u) != Some(x) implies tables.relaxed(
            graph,
            x,
            graph.adjacency[x as int].len() as int,
        ) by {
            assert(settled.contains(x));
        }
    }
    assert(tables.fringe_fits(after, rest)) by {
        assert forall|v: NodeIndex|
            v < tables.dist.len() && (#[trigger] tables.dist[v as int]) is Some && !after.contains(
                v,
            ) implies rest.contains(NodeDist(v, tables.dist[v as int].unwrap())) by {
            assert(fringe.contains(NodeDist(v, tables.dist[v as int].unwrap())));
        }
        assert forall|x: NodeIndex, e: NodeDist|
            #![trigger after.contains(x), rest.contains(e)]
            after.contains(x) && rest.contains(e) implies tables.dist[x as int].unwrap() <= e.1 by {
            assert(fringe.contains(e));
            if x != u {
                assert(settled.contains(x));
            }
        }
    }
    assert(settled_below(settled, n) <= settled_below(after, n));
    assert(settled_below(settled, n) * edge_limit() <= settled_below(after, n) * edge_limit())
        by (nonlinear_arith)
        requires
            settled_below(settled, n) <= settled_below(after, n),
    ;
    assert(settled_below(settled, n) * edge_limit() <= n * edge_limit()) by (nonlinear_arith)
        requires
            settled_below(settled, n) <= n,
    ;
    if fresh {
        assert(settled_below(after, n) == settled_below(settled, n) + 1);
        assert(settled_below(after, n) * edge_limit() == settled_below(settled, n) * edge_limit()
            + edge_limit()) by (nonlinear_arith)
            requires
                settled_below(after, n) == settled_below(settled, n) + 1,
        ;
    }
    assert forall|x: NodeIndex| #[trigger] after.contains(x) implies tables.dist[x as int].unwrap()
        <= entry.1 by {
        if x != u {
            assert(settled.contains(x) && fringe.contains(entry));
        }
    }
}

/// An out-edge that improves the distance of its target updates the tables and
/// adds the target to the fringe.
proof fn lemma_improve<V, E: DistanceEdge>(
    graph: GraphModel<V, E>,
    source: NodeIndex,
    tables: Tables,
    settled: Set<NodeIndex>,
    fringe: Multiset<NodeDist>,
    entry: NodeDist,
    upto: int,
    fresh: bool,
    updated: Tables,
)
    requires
        graph.valid(),
        0 <= upto < graph.adjacency[entry.0 as int].len(),
        relaxing(graph, source, tables, settled, fringe, entry, upto, fresh),
        ({
            let v = graph.adjacency[entry.0 as int][upto];
            let alt = entry.1 + graph.weight(entry.0, v);
            &&& alt <= u128::MAX
            &&& tables.dist[v as int] is Some ==> alt < tables.dist[v as int].unwrap()
            &&& updated.dist == tables.dist.update(v as int, Some(alt as u128))
            &&& updated.prev == tables.prev.update(v as int, Some(entry.0))
            &&& updated.rank == tables.rank.update(v as int, tables.rank[entry.0 as int] + 1)
        }),
    ensures
        fresh,
        relaxing(
            graph,
            source,
            updated,
            settled,
            fringe.insert(
                NodeDist(
                    graph.adjacency[entry.0 as int][upto],
                    (entry.1 + graph.weight(entry.0, graph.adjacency[entry.0 as int][upto])) as u128,
                ),
            ),
            entry,
            upto + 1,
            fresh,
        ),
{
    let u = entry.0;
    let v = graph.adjacency[u as int][upto];
    let alt = (entry.1 + graph.weight(u, v)) as u128;
    let n = graph.nodes.len();
    // A settled node keeps its distance, so the entry is fresh and the target is not settled.
    if !fresh {
        assert(tables.relaxed(graph, u, graph.adjacency[u as int].len() as int));
        assert(false);
    }
    assert(graph.has_edge(u, v));
    assert(graph.has_index(v));
    assert(!settled.contains(v));
    assert(v != u);
    assert(v != source) by {
        if v == source {
            assert(tables.dist[v as int] == Some(0u128));
        }
    }
    let grown = fringe.insert(NodeDist(v, alt));
    assert(updated.chained(graph, source, settled)) by {
        assert forall|w: NodeIndex|
            graph.has_index(w) && w != source && (#[trigger] updated.dist[w as int]) is Some implies updated.linked(
            graph,
            settled,
            w,
        ) by {
            if w != v {
                assert(tables.dist[w as int] is Some);
                assert(tables.linked(graph, settled, w));
            }
        }
        assert forall|w: NodeIndex|
            graph.has_index(w) && (#[trigger] updated.dist[w as int]) is None implies updated.prev[w as int] is None by {
            assert(tables.dist[w as int] is None);
        }
    }
    assert(updated.all_relaxed(graph, settled, Some(u))) by {
        assert forall|x: NodeIndex| #[trigger]
            settled.contains(x) && Some(u) != Some(x) implies updated.relaxed(
            graph,
            x,
            graph.adjacency[x as int].len() as int,
        ) by {
            assert(tables.relaxed(graph, x, graph.adjacency[x as int].len() as int));
            assert forall|k: int| 0 <= k < graph.adjacency[x as int].len() implies updated.dist[(
            #[trigger] graph.adjacency[x as int][k]) as int] is Some && updated.dist[graph.adjacency[x as int][k] as int].unwrap()
                <= updated.dist[x as int].unwrap() + graph.weight(x, graph.adjacency[x as int][k]) by {
                let t = graph.adjacency[x as int][k];
                assert(tables.dist[t as int] is Some);
            }
        }
    }
    assert(updated.relaxed(graph, u, upto + 1)) by {
        assert forall|k: int| 0 <= k < upto + 1 implies updated.dist[(
        #[trigger] graph.adjacency[u as int][k]) as int] is Some && updated.dist[graph.adjacency[u as int][k] as int].unwrap()
            <= updated.dist[u as int].unwrap() + graph.weight(u, graph.adjacency[u as int][k]) by {
            let t = graph.adjacency[u as int][k];
            if k < upto {
                assert(tables.dist[t as int] is Some);
            }
        }
    }
    assert(updated.fringe_fits(settled, grown)) by {
        assert forall|w: NodeIndex|
            w < updated.dist.len() && (#[trigger] updated.dist[w as int]) is Some && !settled.contains(
                w,
            ) implies grown.contains(NodeDist(w, updated.dist[w as int].unwrap())) by {
            if w != v {
                assert(tables.dist[w as int] is Some);
                assert(fringe.contains(NodeDist(w, tables.dist[w as int].unwrap())));
            }
        }
        assert forall|e: NodeDist| #[trigger] grown.contains(e) implies e.0 < updated.dist.len()
            && updated.dist[e.0 as int] is Some && updated.dist[e.0 as int].unwrap() <= e.1 by {
            if e != NodeDist(v, alt) {
                assert(fringe.contains(e));
            }
        }
        assert forall|x: NodeIndex, e: NodeDist|
            #![trigger settled.contains(x), grown.contains(e)]
            settled.contains(x) && grown.contains(e) implies updated.dist[x as int].unwrap() <= e.1 by {
            if e != NodeDist(v, alt) {
                assert(fringe.contains(e));
            }
        }
    }
    assert(updated.bounded(grown, settled_below(settled, n))) by {
        assert forall|w: int|
            0 <= w < updated.dist.len() && (#[trigger] updated.dist[w]) is Some implies updated.dist[w].unwrap()
            <= settled_below(settled, n) * edge_limit() by {
            if w != v {
                assert(tables.dist[w] is Some);
            }
        }
        assert forall|e: NodeDist| #[trigger] grown.contains(e) implies e.1 <= settled_below(
            settled,
            n,
        ) * edge_limit() by {
            if e != NodeDist(v, alt) {
                assert(fringe.contains(e));
            }
        }
    }
    assert forall|e: NodeDist| #[trigger] grown.contains(e) implies entry.1 <= e.1 by {
        if e != NodeDist(v, alt) {
            assert(fringe.contains(e));
        }
    }
}

/// An out-edge that does not improve the distance of its target leaves the
/// tables and the fringe as they are.
proof fn lemma_keep<V, E: DistanceEdge>(
    graph: GraphModel<V, E>,
    source: NodeIndex,
    tables: Tables,
    settled: Set<NodeIndex>,
    fringe: Multiset<NodeDist>,
    entry: NodeDist,
    upto: int,
    fresh: bool,
)
    requires
        graph.valid(),
        0 <= upto < graph.adjacency[entry.0 as int].len(),
        relaxing(graph, source, tables, settled, fringe, entry, upto, fresh),
        ({
            let v = graph.adjacency[entry.0 as int][upto];
            &&& tables.dist[v as int] is Some
            &&& tables.dist[v as int].unwrap() <= entry.1 + graph.weight(entry.0, v)
        }),
    ensures
        relaxing(graph, source, tables, settled, fringe, entry, upto + 1, fresh),
{
}

/// When all out-edges of the entry are dealt with, the search is between two
/// entries again.
proof fn lemma_entry_done<V, E: DistanceEdge>(
    graph: GraphModel<V, E>,
    source: NodeIndex,
    tables: Tables,
    settled: Set<NodeIndex>,
    fringe: Multiset<NodeDist>,
    entry: NodeDist,
    fresh: bool,
)
    requires
        relaxing(
            graph,
            source,
            tables,
            settled,
            fringe,
            entry,
            graph.adjacency[entry.0 as int].len() as int,
            fresh,
        ),
    ensures
        searching(graph, source, tables, settled, fringe),
{
    assert forall|x: NodeIndex| #[trigger] settled.contains(x) && None::<NodeIndex> != Some(x) implies tables.relaxed(
        graph,
        x,
        graph.adjacency[x as int].len() as int,
    ) by {
        if x != entry.0 {
            assert(settled.contains(x) && Some(entry.0) != Some(x));
        }
    }
}

/// The walk from `source` to `target` that finished tables record, found by
/// following the predecessors back from the target; `None` where the target
/// has no distance.
fn walk_back<V, E: DistanceEdge>(
    prev: &Vec<Option<NodeIndex>>,
    source: NodeIndex,
    target: NodeIndex,
    Ghost(graph): Ghost<GraphModel<V, E>>,
    Ghost(tables): Ghost<Tables>,
) -> (walk: Option<Vec<NodeIndex>>)
    requires
        graph.valid(),
        tables.finished(graph, source),
        tables.prev == prev@,
        graph.has_index(target),
    ensures
        match walk {
            Some(nodes) => graph.is_shortest_walk(nodes@, source, target),
            None => !graph.reaches(source, target),
        },
{
    let mut backwards: Vec<NodeIndex> = Vec::new();
    backwards.push(target);
    let mut curr = target;
    proof {
        lemma_walk_of_one(graph, target);
        assert(backwards@.reverse() =~= seq![target]);
    }
    while curr != source
        invariant
            graph.valid(),
            tables.finished(graph, source),
            tables.prev == prev@,
            graph.has_index(target),
            graph.has_index(curr),
            graph.is_walk_between(backwards@.reverse(), curr, target),
            curr != target ==> tables.dist[curr as int] is Some,
            tables.dist[curr as int] is Some ==> tables.dist[target as int] is Some
                && tables.dist[curr as int].unwrap() + graph.walk_distance(backwards@.reverse())
                == tables.dist[target as int].unwrap(),
        decreases tables.rank[curr as int],
    {
        match prev[curr] {
            Some(parent) => {
                proof {
                    assert(tables.dist[curr as int] is Some);
                    assert(tables.linked(graph, tables.reached(), curr));
                    let suffix = backwards@.reverse();
                    lemma_walk_prepend(graph, suffix, parent, curr, target);
                    lemma_distance_prepend(graph, parent, suffix);
                    assert(backwards@.push(parent).reverse() =~= seq![parent] + suffix);
                }
                backwards.push(parent);
                curr = parent;
            },
            None => {
                proof {
                    assert(tables.dist[curr as int] is None) by {
                        if tables.dist[curr as int] is Some {
                            assert(tables.linked(graph, tables.reached(), curr));
                        }
                    }
                    if graph.reaches(source, target) {
                        let other = choose|other: Seq<NodeIndex>|
                            graph.is_walk_between(other, source, target);
                        lemma_finished_is_least(graph, source, tables, other, target);
                    }
                }
                return None;
            },
        }
    }
    let mut nodes: Vec<NodeIndex> = Vec::new();
    let mut k: usize = backwards.len();
    while k > 0
        invariant
            k <= backwards.len(),
            nodes@ == backwards@.reverse().take(backwards.len() - k),
        decreases k,
    {
        k -= 1;
        nodes.push(backwards[k]);
        assert(nodes@ =~= backwards@.reverse().take(backwards.len() - k));
    }
    proof {
        assert(nodes@ =~= backwards@.reverse());
        assert forall|other: Seq<NodeIndex>| #[trigger]
            graph.is_walk_between(other, source, target) implies graph.walk_distance(nodes@)
            <= graph.walk_distance(other) by {
            lemma_finished_is_least(graph, source, tables, other, target);
        }
    }
    Some(nodes)
}

/// What a search for a walk from `source` to `target` reports where it finds
/// none.
pub open spec fn search_failure<V, E>(
    graph: GraphModel<V, E>,
    source: NodeIndex,
    target: NodeIndex,
) -> GraphError {
    if graph.has_index(source) && graph.has_index(target) {
        GraphError::Unreachable
    } else {
        GraphError::OutOfRange
    }
}

/// A walk of least distance from `source` to `target`, by Dijkstra's algorithm.
///
/// The walk from a node to itself is the node alone. An index that is no node
/// is out of range, and a target that no walk leads to is unreachable.
pub fn shortest_path<V: Eq + Clone, E: DistanceEdge, G: Graph<V, E>>(
    graph: &G,
    source: NodeIndex,
    target: NodeIndex,
) -> (found: Result<Vec<NodeIndex>, GraphError>)
    requires
        graph.well_formed(),
        clone_keeps_distance::<E>(),
    ensures
        match found {
            Ok(walk) => graph.view().is_shortest_walk(walk@, source, target),
            Err(e) => e == search_failure(graph.view(), source, target),
        },
        found is Ok <==> graph.view().reaches(source, target),
{
    proof {
        graph.model_is_valid();
    }
    let node_len = graph.nodes().len();
    if source >= node_len || target >= node_len {
        proof {
            if graph.view().reaches(source, target) {
                let walk = choose|walk: Seq<NodeIndex>|
                    graph.view().is_walk_between(walk, source, target);
                lemma_walk_in_range(graph.view(), walk, walk.len() - 1);
            }
        }
        return Err(GraphError::OutOfRange);
    }
    let (dist, prev, Ghost(rank)) = search_from(graph, source);
    let ghost tables = Tables { dist: dist@, prev: prev@, rank };
    match walk_back::<V, E>(&prev, source, target, Ghost(graph.view()), Ghost(tables)) {
        Some(walk) => Ok(walk),
        None => Err(GraphError::Unreachable),
    }
}

} // verus!
