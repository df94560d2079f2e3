use roost::dijkstra::shortest_path;
use roost::edge::{DistanceEdge, UnitEdge};
use roost::fringe::Fringe;
use roost::node_dist::NodeDist;
use roost::search::PathSearchable;
use roost::{Graph, GraphError, SparseGraph};

#[derive(Clone, Debug, PartialEq, Eq)]
struct Road {
    length: u64,
}

impl DistanceEdge for Road {
    fn distance(&self) -> u64 {
        self.length
    }
}

fn road(length: u64) -> Road {
    Road { length }
}

fn map() -> SparseGraph<&'static str, Road> {
    let mut graph: SparseGraph<&str, Road> = SparseGraph::new();
    graph.add_edge("a", "b", road(7));
    graph.add_edge("a", "c", road(9));
    graph.add_edge("a", "f", road(14));
    graph.add_edge("b", "c", road(10));
    graph.add_edge("b", "d", road(15));
    graph.add_edge("c", "d", road(11));
    graph.add_edge("c", "f", road(2));
    graph.add_edge("d", "e", road(6));
    graph.add_edge("e", "f", road(9));
    graph.insert_node("z");
    graph
}

fn length(graph: &SparseGraph<&'static str, Road>, walk: &[usize]) -> u128 {
    walk.windows(2)
        .map(|pair| graph.get_edge(pair[0], pair[1]).unwrap().distance() as u128)
        .sum()
}

#[test]
fn unit_edge_has_distance_one() {
    assert_eq!(UnitEdge.distance(), 1);
    assert_eq!(road(7).distance(), 7);
}

#[test]
fn shortest_walk_from_a_to_e_has_distance_26() {
    let graph = map();
    let a = graph.index_of(&"a").unwrap();
    let e = graph.index_of(&"e").unwrap();
    let walk = shortest_path(&graph, a, e).unwrap();
    let names: Vec<&str> = walk.iter().map(|&x| graph.node_of(x).unwrap()).collect();
    assert_eq!(names, vec!["a", "c", "d", "e"]);
    assert_eq!(length(&graph, &walk), 26);
}

#[test]
fn shortest_walk_prefers_the_detour() {
    let graph = map();
    let a = graph.index_of(&"a").unwrap();
    let f = graph.index_of(&"f").unwrap();
    let walk = graph.dijkstra_shortest_path(a, f).unwrap();
    assert_eq!(walk, vec![0, 2, 3]);
    assert_eq!(length(&graph, &walk), 11);
}

#[test]
fn isolated_target_is_unreachable() {
    let graph = map();
    let a = graph.index_of(&"a").unwrap();
    let z = graph.index_of(&"z").unwrap();
    assert_eq!(shortest_path(&graph, a, z), Err(GraphError::Unreachable));
    assert_eq!(graph.dijkstra_shortest_path(a, z), None);
    assert_eq!(shortest_path(&graph, z, a), Err(GraphError::Unreachable));
}

#[test]
fn edges_are_directed() {
    let graph = map();
    let a = graph.index_of(&"a").unwrap();
    let e = graph.index_of(&"e").unwrap();
    assert_eq!(shortest_path(&graph, e, a), Err(GraphError::Unreachable));
}

#[test]
fn walk_from_a_node_to_itself_is_the_node() {
    let graph = map();
    for at in graph.nodes() {
        assert_eq!(shortest_path(&graph, at, at), Ok(vec![at]));
    }
}

#[test]
fn index_that_is_no_node_is_out_of_range() {
    let graph = map();
    assert_eq!(shortest_path(&graph, 0, 7), Err(GraphError::OutOfRange));
    assert_eq!(shortest_path(&graph, 7, 0), Err(GraphError::OutOfRange));
    assert_eq!(shortest_path(&graph, 7, 7), Err(GraphError::OutOfRange));
    assert_eq!(graph.dijkstra_shortest_path(0, 7), None);
    let empty: SparseGraph<u8, Road> = SparseGraph::new();
    assert_eq!(shortest_path(&empty, 0, 0), Err(GraphError::OutOfRange));
}

#[test]
fn zero_distances_and_cycles_end() {
    let mut graph: SparseGraph<u8, Road> = SparseGraph::new();
    graph.add_edge(0, 1, road(0));
    graph.add_edge(1, 0, road(0));
    graph.add_edge(1, 2, road(0));
    graph.add_edge(2, 2, road(0));
    graph.add_edge(2, 3, road(5));
    graph.add_edge(0, 3, road(6));
    let walk = shortest_path(&graph, 0, 3).unwrap();
    assert_eq!(walk, vec![0, 1, 2, 3]);
}

#[test]
fn largest_distances_add_up() {
    let mut graph: SparseGraph<u8, Road> = SparseGraph::new();
    graph.add_edge(0, 1, road(u64::MAX));
    graph.add_edge(1, 2, road(u64::MAX));
    graph.add_edge(2, 3, road(u64::MAX));
    graph.add_edge(0, 4, road(u64::MAX));
    graph.add_edge(4, 5, road(u64::MAX));
    graph.add_edge(5, 6, road(u64::MAX));
    graph.add_edge(6, 3, road(1));
    let walk = shortest_path(&graph, 0, 3).unwrap();
    assert_eq!(walk, vec![0, 1, 2, 3]);
}

#[test]
fn later_improvement_replaces_the_predecessor() {
    let mut graph: SparseGraph<u8, Road> = SparseGraph::new();
    graph.add_edge(0, 1, road(10));
    graph.add_edge(0, 2, road(1));
    graph.add_edge(2, 3, road(1));
    graph.add_edge(3, 1, road(1));
    graph.add_edge(1, 4, road(1));
    assert_eq!(shortest_path(&graph, 0, 4), Ok(vec![0, 2, 3, 1, 4]));
}

#[test]
fn shortest_walk_is_no_longer_than_any_other() {
    let graph = map();
    let a = graph.index_of(&"a").unwrap();
    let d = graph.index_of(&"d").unwrap();
    let best = length(&graph, &shortest_path(&graph, a, d).unwrap());
    assert_eq!(best, 20);
    assert!(best <= length(&graph, &[0, 1, 4]));
    assert!(best <= length(&graph, &[0, 1, 2, 4]));
}

#[test]
fn fringe_hands_out_nearest_first() {
    let mut fringe = Fringe::new();
    assert_eq!(fringe.len(), 0);
    for (node, dist) in [(1usize, 50u128), (2, 10), (3, 40), (4, 10), (5, 0), (6, 99), (7, 30)] {
        fringe.push(NodeDist(node, dist));
    }
    assert_eq!(fringe.len(), 7);
    let mut dists = Vec::new();
    let mut nodes = Vec::new();
    while let Some(NodeDist(node, dist)) = fringe.pop() {
        dists.push(dist);
        nodes.push(node);
    }
    assert_eq!(dists, vec![0, 10, 10, 30, 40, 50, 99]);
    nodes.sort();
    assert_eq!(nodes, vec![1, 2, 3, 4, 5, 6, 7]);
    assert!(fringe.pop().is_none());
    assert_eq!(fringe.len(), 0);
}

#[test]
fn nearer_entry_is_greater() {
    let near = NodeDist(3, 5);
    let far = NodeDist(1, 8);
    assert!(near > far);
    assert!(far < near);
    assert!(near >= NodeDist(9, 5));
    assert!(near == NodeDist(9, 5));
    assert!(near != far);
    assert_eq!(near.partial_cmp(&far), Some(std::cmp::Ordering::Greater));
    assert_eq!(far.partial_cmp(&near), Some(std::cmp::Ordering::Less));
    assert_eq!(near.partial_cmp(&near), Some(std::cmp::Ordering::Equal));
}
