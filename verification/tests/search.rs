use roost::edge::DistanceEdge;
use roost::node_dist::NodeDist;
use roost::search::{PathSearchable, Searchable};
use roost::{Graph, SparseGraph};

#[test]
fn search_breadth_first_search() {
    let mut graph: SparseGraph<i64, i64> = SparseGraph::new();
    graph.add_edge(1, 2, 1);
    graph.add_edge(1, 3, 2);
    graph.add_edge(1, 4, 1);
    graph.add_edge(4, 5, 4);
    graph.add_edge(4, 6, 6);
    graph.add_edge(5, 7, 7);
    let bfs: Vec<(i64, i64)> = graph
        .breadth_first_visit(&1)
        .unwrap()
        .collect()
        .into_iter()
        .map(|(x, y)| (graph.node_of(x).unwrap(), graph.node_of(y).unwrap()))
        .collect();
    assert_eq!(bfs, vec![(1, 2), (1, 3), (1, 4), (4, 5), (4, 6), (5, 7)]);
}

#[test]
fn search_depth_first_search() {
    let mut graph: SparseGraph<i64, i64> = SparseGraph::new();
    graph.add_edge(1, 2, 1);
    graph.add_edge(1, 3, 2);
    graph.add_edge(2, 3, 4);
    graph.add_edge(1, 4, 1);
    graph.add_edge(3, 5, 4);
    graph.add_edge(3, 6, 6);
    graph.add_edge(5, 7, 7);
    let dfs: Vec<(i64, i64)> = graph
        .depth_first_visit(&1)
        .unwrap()
        .collect()
        .into_iter()
        .map(|(x, y)| (graph.node_of(x).unwrap(), graph.node_of(y).unwrap()))
        .collect();
    assert_eq!(dfs, vec![(1, 2), (2, 3), (3, 5), (5, 7), (3, 6), (1, 4)]);
}

#[test]
fn search_dijkstra_with_path() {
    #[derive(Eq, PartialEq, Clone)]
    struct DistEdge {
        d: u64,
    }

    impl DistanceEdge for DistEdge {
        fn distance(&self) -> u64 {
            self.d
        }
    }

    let mut graph: SparseGraph<&str, DistEdge> = SparseGraph::new();
    graph.add_edge("a", "b", DistEdge { d: 7 });
    graph.add_edge("a", "c", DistEdge { d: 9 });
    graph.add_edge("a", "f", DistEdge { d: 14 });
    graph.add_edge("b", "c", DistEdge { d: 10 });
    graph.add_edge("b", "d", DistEdge { d: 15 });
    graph.add_edge("c", "d", DistEdge { d: 11 });
    graph.add_edge("c", "f", DistEdge { d: 2 });
    graph.add_edge("d", "e", DistEdge { d: 6 });
    graph.add_edge("e", "f", DistEdge { d: 9 });

    let src_idx = graph.index_of(&"a").unwrap();
    let trg_idx = graph.index_of(&"e").unwrap();
    let path: Vec<&str> = graph
        .dijkstra_shortest_path(src_idx, trg_idx)
        .unwrap()
        .iter()
        .map(|&x| graph.node_of(x).unwrap())
        .collect();
    assert_eq!(path, vec!["a", "c", "d", "e"]);
}

#[test]
fn search_dist_pair_comparisons() {
    // Distances in tenths; the largest value stands for a node that was not reached.
    let a = NodeDist(10, 66);
    let b = NodeDist(24, 0);
    let c = NodeDist(15, 66);
    let d = NodeDist(29, u128::MAX);
    assert!(b > a);
    assert!(c == a);
    assert!(d < a);
    assert!(b > d);
}
