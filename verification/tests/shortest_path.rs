use network_algorithms::graph::direction::Directed;
use network_algorithms::graph::graph::Graph;
use network_algorithms::graph::ids::{EdgeId, NodeId};
use network_algorithms::shortest_path::bellman_ford::BellmanFord as OneShotBellmanFord;
use network_algorithms::shortest_path::csr::WeightEdge;
use network_algorithms::shortest_path::dijkstra::Dijkstra as OneShotDijkstra;
use network_algorithms::shortest_path::error::MaximumFlowError;
use network_algorithms::shortest_path::graph::ShortestPathGraph;
use network_algorithms::shortest_path::solvers::bellman_ford::BellmanFord;
use network_algorithms::shortest_path::solvers::dijkstra::Dijkstra;
use network_algorithms::shortest_path::solvers::solver::ShortestPathSolver;
use network_algorithms::shortest_path::status::Status;

fn wiki() -> ShortestPathGraph {
    let mut g = ShortestPathGraph::new();
    let n = g.add_nodes(4);
    g.add_edge(n[0], n[1], 1).unwrap();
    g.add_edge(n[0], n[2], 4).unwrap();
    g.add_edge(n[1], n[2], 2).unwrap();
    g.add_edge(n[2], n[3], 1).unwrap();
    g.add_edge(n[1], n[3], 5).unwrap();
    g
}

#[test]
fn one_shot_bellman_ford() {
    let g = wiki();
    let d = OneShotBellmanFord::default().solve(g.graph(), NodeId(0)).unwrap();
    assert_eq!(d, vec![Some(0), Some(1), Some(3), Some(4)]);
}

#[test]
fn one_shot_bellman_ford_negative_cycle() {
    let mut g = ShortestPathGraph::new();
    let n = g.add_nodes(3);
    g.add_edge(n[0], n[1], 1).unwrap();
    g.add_edge(n[1], n[2], -3).unwrap();
    g.add_edge(n[2], n[1], 1).unwrap();
    assert_eq!(OneShotBellmanFord::default().solve(g.graph(), NodeId(0)), Err("cycle found".to_string()));
}

#[test]
fn one_shot_dijkstra() {
    let g = wiki();
    let d = OneShotDijkstra::default().solve(g.graph(), NodeId(0)).unwrap();
    assert_eq!(d, vec![Some(0), Some(1), Some(3), Some(4)]);
    let d1 = OneShotDijkstra::default().solve(g.graph(), NodeId(3)).unwrap();
    assert_eq!(d1, vec![None, None, None, Some(0)]);
}

#[test]
fn solver_bellman_ford_leaves_source_unreached() {
    let g = wiki();
    let mut bf = BellmanFord::new(g.graph());
    assert_eq!(bf.distance(NodeId(2)), None);
    assert_eq!(bf.solve(NodeId(0)), Ok(()));
    assert_eq!(bf.distance(NodeId(0)), None);
    assert!(!bf.reached(NodeId(0)));
    assert_eq!(bf.distance(NodeId(1)), Some(1));
    assert_eq!(bf.distance(NodeId(2)), Some(3));
    assert_eq!(bf.distance(NodeId(3)), Some(4));
}

#[test]
fn solver_bellman_ford_negative_weights_and_cycle() {
    let mut g = ShortestPathGraph::new();
    let n = g.add_nodes(3);
    g.add_edge(n[0], n[1], 4).unwrap();
    g.add_edge(n[0], n[2], 1).unwrap();
    g.add_edge(n[2], n[1], -2).unwrap();
    let mut bf = BellmanFord::new(g.graph());
    assert_eq!(bf.solve(NodeId(0)), Ok(()));
    assert_eq!(bf.distance(NodeId(1)), Some(-1));
    g.add_edge(n[1], n[2], 1).unwrap();
    let mut bf2 = BellmanFord::new(g.graph());
    assert_eq!(bf2.solve(NodeId(0)), Err(Status::NegativeCycle));
}

#[test]
fn solver_dijkstra() {
    let g = wiki();
    let mut dj = Dijkstra::new(g.graph());
    assert_eq!(dj.solve(NodeId(0)), Ok(()));
    assert_eq!(dj.distance(NodeId(0)), Some(0));
    assert_eq!(dj.distance(NodeId(3)), Some(4));
    assert_eq!(dj.solve(NodeId(2)), Ok(()));
    assert_eq!(dj.distance(NodeId(0)), None);
    assert!(!dj.reached(NodeId(1)));
    assert_eq!(dj.distance(NodeId(3)), Some(1));
}

#[test]
fn solver_dijkstra_refuses_negative_weights() {
    let mut g = ShortestPathGraph::new();
    let n = g.add_nodes(2);
    g.add_edge(n[0], n[1], -1).unwrap();
    let mut dj = Dijkstra::new(g.graph());
    assert_eq!(dj.solve(NodeId(0)), Err(Status::BadInput));
}

#[test]
fn solvers_with_weight_functions() {
    let mut g: Graph<Directed, (), (i64, i64)> = Graph::new();
    let n = g.add_nodes(3);
    g.add_edge(n[0], n[1], (2, 10));
    g.add_edge(n[1], n[2], (3, 1));
    let mut bf = BellmanFord::new_graph_with(&g, |e| e.data.0 * e.data.1);
    assert_eq!(bf.solve(n[0]), Ok(()));
    assert_eq!(bf.distance(n[2]), Some(23));
    let mut dj = Dijkstra::new_graph_with(&g, |e| e.data.1);
    assert_eq!(dj.solve(n[0]), Ok(()));
    assert_eq!(dj.distance(n[2]), Some(11));
}

#[test]
fn shortest_path_graph_checks_ends() {
    let mut g = ShortestPathGraph::new();
    let n = g.add_nodes(2);
    assert_eq!(g.add_edge(n[0], NodeId(2), 1), None);
    assert_eq!(g.add_edge(n[0], n[1], 1), Some(EdgeId(0)));
    assert_eq!(g.add_directed_edge(n[1], n[0], 7), Some(EdgeId(1)));
    assert_eq!(g.graph().edges[1].data, WeightEdge { weight: 7 });
}

#[test]
fn maximum_flow_error_messages() {
    assert_eq!(MaximumFlowError::NegativeCycle.message(), "graph has negative cycle");
    assert_eq!(MaximumFlowError::InvalidInput.message(), "invalid ");
    assert_eq!(MaximumFlowError::NotSolved.message(), "solver has not been run yet");
}
