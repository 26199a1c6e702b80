use network_algorithms::graph::direction::{Directed, Undirected};
use network_algorithms::graph::graph::Graph;
use network_algorithms::graph::ids::{EdgeId, NodeId};

#[test]
fn directed_graph_basics() {
    let mut g: Graph<Directed, i64, u8> = Graph::new();
    let a = g.add_node();
    let more = g.add_nodes(2);
    assert_eq!(a, NodeId(0));
    assert_eq!(more, vec![NodeId(1), NodeId(2)]);
    assert_eq!(g.add_edge(a, more[0], 7), EdgeId(0));
    assert_eq!(g.add_directed_edge(more[1], a, 9), EdgeId(1));
    assert_eq!(g.num_nodes(), 3);
    assert_eq!(g.num_edges(), 2);
    assert_eq!(g.get_edge(EdgeId(1)).data, 9);
    assert_eq!(g.edges().len(), 2);
    g.add_node_value(NodeId(1), 5);
    g.add_node_value(NodeId(4), -2);
    assert_eq!(g.node_payload(), &[0, 5, 0, 0, -2]);
    assert_eq!(NodeId(3).index(), 3);
    assert_eq!(usize::from(NodeId(2)), 2);
}

#[test]
fn undirected_edge_is_two_edges() {
    let mut g: Graph<Undirected, (), i32> = Graph::new();
    let n = g.add_nodes(2);
    assert_eq!(g.add_edge(n[0], n[1], 4), EdgeId(0));
    assert_eq!(g.num_edges(), 2);
    let back = g.get_edge(EdgeId(1));
    assert_eq!((back.u, back.v, back.data), (n[1], n[0], 4));
}
