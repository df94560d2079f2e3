use roost::edge::{DistanceEdge, UnitEdge};
use roost::node_dist::NodeDist;
use roost::path::Path;
use roost::{node, AdjList, Graph};

#[test]
fn graph_has_path() {
    let mut graph: AdjList<&str, UnitEdge> = AdjList::new();
    graph.add_edge("a", "b", UnitEdge);
    graph.add_edge("a", "c", UnitEdge);
    graph.add_edge("a", "f", UnitEdge);
    graph.add_edge("b", "c", UnitEdge);
    graph.add_edge("b", "d", UnitEdge);
    graph.add_edge("c", "d", UnitEdge);
    graph.add_edge("c", "f", UnitEdge);
    graph.add_edge("d", "e", UnitEdge);
    graph.add_edge("e", "f", UnitEdge);
    graph.add_edge("y", "z", UnitEdge);

    assert!(graph.has_path(node(&"a", &graph), node(&"d", &graph)));
    assert!(!graph.has_path(node(&"a", &graph), node(&"z", &graph)));
}

#[test]
fn path_dijkstra_with_path() {
    #[derive(Eq, PartialEq, Clone)]
    struct DistEdge {
        d: u64,
    }

    impl DistanceEdge for DistEdge {
        fn distance(&self) -> u64 {
            self.d
        }
    }

    let mut gp: AdjList<&str, DistEdge> = AdjList::new();
    gp.add_edge("a", "b", DistEdge { d: 7 });
    gp.add_edge("a", "c", DistEdge { d: 9 });
    gp.add_edge("a", "f", DistEdge { d: 14 });
    gp.add_edge("b", "c", DistEdge { d: 10 });
    gp.add_edge("b", "d", DistEdge { d: 15 });
    gp.add_edge("c", "d", DistEdge { d: 11 });
    gp.add_edge("c", "f", DistEdge { d: 2 });
    gp.add_edge("d", "e", DistEdge { d: 6 });
    gp.add_edge("e", "f", DistEdge { d: 9 });

    let path: Vec<&str> = gp
        .dijkstra_shortest_path(node(&"a", &gp), node(&"e", &gp))
        .unwrap()
        .iter()
        .map(|&x| gp.index_to_node(x.unwrap()).unwrap())
        .collect();
    assert_eq!(path, vec!["a", "c", "d", "e"]);
}

#[test]
fn path_dist_pair_comparisons() {
    // Distances in tenths; the largest value stands for a node that was not reached.
    let a = NodeDist(10, 66);
    let b = NodeDist(24, 0);
    let c = NodeDist(15, 66);
    let d = NodeDist(29, u128::MAX);
    assert!(b > a);
    assert!(c == a);
    assert!(d < a);
    assert!(b > d);
}
