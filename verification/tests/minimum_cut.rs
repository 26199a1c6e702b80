use network_algorithms::graph::direction::Undirected;
use network_algorithms::graph::graph::Graph;
use network_algorithms::graph::ids::NodeId;
use network_algorithms::maximum_flow::dinic::Dinic;
use network_algorithms::maximum_flow::edge::CapEdge;
use network_algorithms::maximum_flow::graph::MaximumFlowGraph;
use network_algorithms::maximum_flow::solver::MaximumFlowSolver;
use network_algorithms::maximum_flow::status::Status;
use network_algorithms::minimum_cut::gomory_hu::gomory_hu;
use network_algorithms::minimum_cut::minimum_cut::minimum_cut;

fn two_way_graph() -> MaximumFlowGraph {
    let mut graph = MaximumFlowGraph::default();
    let nodes = graph.add_nodes(4);
    graph.add_directed_edge(nodes[0], nodes[1], 2);
    graph.add_directed_edge(nodes[1], nodes[0], 2);

    graph.add_directed_edge(nodes[0], nodes[2], 1);
    graph.add_directed_edge(nodes[2], nodes[0], 1);

    graph.add_directed_edge(nodes[0], nodes[3], 1);
    graph.add_directed_edge(nodes[3], nodes[0], 1);

    graph.add_directed_edge(nodes[1], nodes[2], 1);
    graph.add_directed_edge(nodes[2], nodes[1], 1);

    graph.add_directed_edge(nodes[2], nodes[3], 3);
    graph.add_directed_edge(nodes[3], nodes[2], 3);
    graph
}

#[test]
fn minimum_cut_test() {
    let mut graph = two_way_graph();
    let nodes = [NodeId(0), NodeId(1), NodeId(2), NodeId(3)];

    let mut dinic = Dinic::default();
    let (flow, cut, _) = minimum_cut(&mut dinic, &mut graph.0, nodes[2], nodes[3]).unwrap();

    println!("max flow = {}", flow);
    println!("min cut S = {:?}", cut.iter().map(|n| n.index()).collect::<Vec<_>>());
}

#[test]
fn minimum_cut_values() {
    let mut graph = two_way_graph();
    let mut dinic = Dinic::default();
    let (flow, cut, side) = minimum_cut(&mut dinic, &mut graph.0, NodeId(2), NodeId(3)).unwrap();
    // node 3 is joined to the rest by capacity 1 + 3
    assert_eq!(flow, 4);
    assert_eq!(cut, vec![NodeId(0), NodeId(1), NodeId(2)]);
    assert_eq!(side, vec![true, true, true, false]);
}

#[test]
fn minimum_cut_rejects_same_ends() {
    let mut graph = two_way_graph();
    let mut dinic = Dinic::default();
    assert_eq!(minimum_cut(&mut dinic, &mut graph.0, NodeId(1), NodeId(1)), Err(Status::BadInput));
    assert_eq!(minimum_cut(&mut dinic, &mut graph.0, NodeId(1), NodeId(9)), Err(Status::BadInput));
}

#[test]
fn dinic_limit_and_flow_values() {
    let mut graph = two_way_graph();
    let mut dinic = Dinic::default();
    assert_eq!(dinic.solve(&mut graph.0, NodeId(0), NodeId(3), None), Ok(3));
    assert_eq!(dinic.solve(&mut graph.0, NodeId(0), NodeId(3), Some(2)), Ok(2));
    assert_eq!(dinic.solve(&mut graph.0, NodeId(0), NodeId(3), Some(-1)), Ok(0));
    for e in graph.0.edges.iter() {
        assert!(0 <= e.data.flow && e.data.flow <= e.data.upper);
    }
}

#[test]
fn dinic_negative_capacity_is_bad_input() {
    let mut graph = MaximumFlowGraph::default();
    let nodes = graph.add_nodes(2);
    graph.add_directed_edge(nodes[0], nodes[1], -1);
    let mut dinic = Dinic::default();
    assert_eq!(dinic.solve(&mut graph.0, nodes[0], nodes[1], None), Err(Status::BadInput));
}

#[test]
fn main() {
    let mut graph = Graph::<Undirected, (), CapEdge>::new();
    let nodes = graph.add_nodes(4);
    graph.add_edge(nodes[0], nodes[1], CapEdge { flow: 0, upper: 2 });
    graph.add_edge(nodes[0], nodes[2], CapEdge { flow: 0, upper: 1 });
    graph.add_edge(nodes[0], nodes[3], CapEdge { flow: 0, upper: 1 });
    graph.add_edge(nodes[1], nodes[2], CapEdge { flow: 0, upper: 1 });
    graph.add_edge(nodes[2], nodes[3], CapEdge { flow: 0, upper: 3 });

    let tree = gomory_hu(&graph);
    println!("Gomory-Hu Tree Edges (v, parent, cut_value):");
    for (u, v, w) in tree {
        println!("{} - {} : {}", u, v, w);
    }
}

#[test]
fn gomory_hu_shape() {
    let mut graph = Graph::<Undirected, (), CapEdge>::new();
    let nodes = graph.add_nodes(3);
    graph.add_edge(nodes[0], nodes[1], CapEdge { flow: 0, upper: 2 });
    graph.add_edge(nodes[1], nodes[2], CapEdge { flow: 0, upper: 5 });
    let tree = gomory_hu(&graph);
    assert_eq!(tree.len(), 2);
    // each undirected edge is two arcs, each of which the tree graph lets go both ways
    assert_eq!(tree[0], (1, 0, 4));
    assert_eq!(tree[1].0, 2);
    assert!(tree[1].1 < 2);
}

#[test]
fn minimum_cut_flow_equals_cut_capacity_less_inflow() {
    let mut graph = two_way_graph();
    let mut dinic = Dinic::default();
    let (flow, _, side) = minimum_cut(&mut dinic, &mut graph.0, NodeId(0), NodeId(3)).unwrap();
    let mut capacity = 0;
    let mut inflow = 0;
    for e in graph.0.edges.iter() {
        let (u, v) = (e.u.0, e.v.0);
        if side[u] && !side[v] {
            capacity += e.data.upper;
            assert_eq!(e.data.flow, e.data.upper);
        }
        if !side[u] && side[v] {
            inflow += e.data.flow;
        }
    }
    assert_eq!(flow, 3);
    assert_eq!(flow, capacity - inflow);
}

#[test]
fn max_flow_is_at_most_every_cut() {
    let mut graph = two_way_graph();
    let mut dinic = Dinic::default();
    let flow = dinic.solve(&mut graph.0, NodeId(0), NodeId(3), None).unwrap();
    // every side holding node 0 and not node 3
    for mask in 0..8u32 {
        let side = [true, mask & 1 != 0, mask & 2 != 0, false];
        let capacity: i64 = graph
            .0
            .edges
            .iter()
            .filter(|e| side[e.u.0] && !side[e.v.0])
            .map(|e| e.data.upper)
            .sum();
        assert!(flow <= capacity);
    }
}
