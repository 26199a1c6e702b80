use network_algorithms::graph::ids::NodeId;
use network_algorithms::minimum_cost_flow::graph::MinimumCostFlowGraph;
use network_algorithms::minimum_cost_flow::normalized_network::NormalizedNetwork;
use network_algorithms::minimum_cost_flow::spanning_tree_structure::{EdgeState, SpanningTreeStructure};

fn small() -> MinimumCostFlowGraph {
    let mut g = MinimumCostFlowGraph::default();
    let n = g.add_nodes(3);
    g.set_excess(n[0], 2).unwrap();
    g.set_excess(n[2], -2).unwrap();
    g.add_edge(n[0], n[1], 0, 3, 2).unwrap();
    g.add_edge(n[1], n[2], 1, 4, -3).unwrap();
    g
}

#[test]
fn spanning_tree_structure_starts_at_lower_bounds() {
    let g = small();
    let nn = NormalizedNetwork::from(&g.0);
    let st = SpanningTreeStructure::new(&nn, None, None, None, None);
    assert_eq!(st.from.len(), 2);
    assert_eq!(st.state, vec![EdgeState::Lower, EdgeState::Lower]);
    assert_eq!(st.flow, vec![0, 0]);
    // the second edge has a negative cost and is turned around
    assert_eq!(st.from[1], NodeId(2));
    assert_eq!(st.to[1], NodeId(1));
    assert_eq!(st.upper, vec![3, 3]);
    assert_eq!(st.cost, vec![2, 3]);
    assert_eq!(st.parent, vec![NodeId(usize::MAX); 3]);
    assert!(st.is_lower(0));
    assert!(!st.is_upper(0));
    assert!(st.is_feasible(1));
    assert_eq!(st.residual_capacity(1), 3);
    assert_eq!(st.opposite_side(NodeId(2), 1), NodeId(1));
    assert_eq!(st.opposite_side(NodeId(1), 1), NodeId(2));
    // supplies are left, so the constraints do not hold yet
    assert!(!st.satisfy_constraints());
    assert!(st.satisfy_optimality_conditions());
}

#[test]
fn spanning_tree_structure_reads_flows_in_the_original_graph() {
    let g = small();
    let nn = NormalizedNetwork::from(&g.0);
    let mut st = SpanningTreeStructure::new(&nn, None, None, None, None);
    st.flow = vec![2, 1];
    // original flows: 2 on the first edge, 3 + 1 - 1 = 3 on the reversed one
    assert_eq!(st.make_minimum_cost_flow_in_original_graph(), vec![2, 3]);
    assert_eq!(st.calculate_objective_value_in_original_graph(), 2 * 2 + 3 * -3);
    st.state[0] = EdgeState::Tree;
    assert!(!st.satisfy_optimality_conditions());
    st.potential = vec![0, -2, 0];
    assert!(st.satisfy_optimality_conditions());
}

#[test]
fn spanning_tree_structure_with_a_feasible_start() {
    let g = small();
    let nn = NormalizedNetwork::from(&g.0);
    let fix = vec![-nn.excesses()[0], -nn.excesses()[1], -nn.excesses()[2]];
    let st = SpanningTreeStructure::new(&nn, None, None, Some(&[1, 2]), Some(&fix));
    assert_eq!(st.flow, vec![1, 2]);
    assert!(st.satisfy_constraints());
}

#[test]
fn update_flow_in_path_moves_flow_down_the_tree() {
    let g = small();
    let nn = NormalizedNetwork::from(&g.0);
    let mut st = SpanningTreeStructure::new(&nn, None, None, None, None);
    st.parent = vec![NodeId(usize::MAX), NodeId(0), NodeId(1)];
    st.parent_edge_id = vec![usize::MAX, 0, 1];
    st.flow = vec![0, 3];
    let before = st.excesses.clone();
    st.update_flow_in_path(NodeId(0), NodeId(2), 2);
    // edge 0 points down the tree and gains, edge 1 points up and loses
    assert_eq!(st.flow, vec![2, 1]);
    assert_eq!(st.excesses, vec![before[0] - 2, before[1], before[2] + 2]);
    assert_eq!(st.parent, vec![NodeId(usize::MAX), NodeId(0), NodeId(1)]);
}

#[test]
fn update_flow_in_cycle_pushes_around_the_cycle() {
    let mut g = MinimumCostFlowGraph::default();
    let n = g.add_nodes(3);
    g.add_edge(n[0], n[1], 0, 5, 1).unwrap();
    g.add_edge(n[1], n[2], 0, 5, 1).unwrap();
    g.add_edge(n[0], n[2], 0, 5, 1).unwrap();
    let nn = NormalizedNetwork::from(&g.0);
    let mut st = SpanningTreeStructure::new(&nn, None, None, None, None);
    st.parent = vec![NodeId(usize::MAX), NodeId(0), NodeId(1)];
    st.parent_edge_id = vec![usize::MAX, 0, 1];
    st.flow = vec![3, 3, 0];
    let before = st.excesses.clone();
    st.update_flow_in_cycle(2, 2, NodeId(0));
    assert_eq!(st.flow, vec![1, 1, 2]);
    assert_eq!(st.excesses, before);
    st.state[2] = EdgeState::Upper;
    st.update_flow_in_cycle(2, 2, NodeId(0));
    assert_eq!(st.flow, vec![3, 3, 0]);
}

#[test]
fn detach_and_attach_move_a_subtree() {
    let mut g = MinimumCostFlowGraph::default();
    let n = g.add_nodes(3);
    g.add_edge(n[0], n[1], 0, 5, 1).unwrap();
    g.add_edge(n[1], n[2], 0, 5, 1).unwrap();
    g.add_edge(n[0], n[2], 0, 5, 1).unwrap();
    let nn = NormalizedNetwork::from(&g.0);
    let mut st = SpanningTreeStructure::new(&nn, None, None, None, None);
    let none = NodeId(usize::MAX);
    st.parent = vec![none, NodeId(0), NodeId(1)];
    st.parent_edge_id = vec![usize::MAX, 0, 1];
    st.next_node_dft = vec![NodeId(1), NodeId(2), NodeId(0)];
    st.prev_node_dft = vec![NodeId(2), NodeId(0), NodeId(1)];
    st.last_descendent_dft = vec![NodeId(2), NodeId(2), NodeId(2)];
    st.num_successors = vec![3, 2, 1];
    st.state = vec![EdgeState::Tree, EdgeState::Tree, EdgeState::Lower];

    st.detach_tree(NodeId(0), NodeId(2), 1);
    assert_eq!(st.state[1], EdgeState::Lower);
    assert_eq!(st.parent, vec![none, NodeId(0), none]);
    assert_eq!(st.parent_edge_id, vec![usize::MAX, 0, usize::MAX]);
    assert_eq!(st.next_node_dft, vec![NodeId(1), NodeId(0), NodeId(2)]);
    assert_eq!(st.prev_node_dft, vec![NodeId(1), NodeId(0), NodeId(2)]);
    assert_eq!(st.last_descendent_dft, vec![NodeId(1), NodeId(1), NodeId(2)]);
    assert_eq!(st.num_successors, vec![2, 1, 1]);

    st.attach_tree(NodeId(0), NodeId(0), NodeId(2), 2);
    assert_eq!(st.state[2], EdgeState::Tree);
    assert_eq!(st.parent, vec![none, NodeId(0), NodeId(0)]);
    assert_eq!(st.parent_edge_id, vec![usize::MAX, 0, 2]);
    assert_eq!(st.next_node_dft, vec![NodeId(1), NodeId(2), NodeId(0)]);
    assert_eq!(st.prev_node_dft, vec![NodeId(2), NodeId(0), NodeId(1)]);
    assert_eq!(st.last_descendent_dft, vec![NodeId(2), NodeId(1), NodeId(2)]);
    assert_eq!(st.num_successors, vec![3, 1, 1]);
}
