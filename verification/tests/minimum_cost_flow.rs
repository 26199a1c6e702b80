use network_algorithms::graph::direction::Directed;
use network_algorithms::graph::graph::Graph;
use network_algorithms::graph::ids::{EdgeId, NodeId};
use network_algorithms::minimum_cost_flow::cycle_canceling::CycleCanceling;
use network_algorithms::minimum_cost_flow::error::MinimumCostFlowError;
use network_algorithms::minimum_cost_flow::graph::MinimumCostFlowGraph;
use network_algorithms::minimum_cost_flow::normalized_network::NormalizedNetwork;
use network_algorithms::minimum_cost_flow::primal_dual::PrimalDual;
use network_algorithms::minimum_cost_flow::residual_network::ResidualNetwork;
use network_algorithms::minimum_cost_flow::solver::MinimumCostFlowSolver;
use network_algorithms::minimum_cost_flow::successive_shortest_path::SuccessiveShortestPath;
use network_algorithms::minimum_cost_flow::translater::translater;

fn diamond() -> MinimumCostFlowGraph {
    let mut g = MinimumCostFlowGraph::default();
    let n = g.add_nodes(4);
    g.set_excess(n[0], 2).unwrap();
    g.set_excess(n[3], -2).unwrap();
    g.add_edge(n[0], n[1], 0, 2, 1).unwrap();
    g.add_edge(n[0], n[2], 0, 2, 2).unwrap();
    g.add_edge(n[1], n[3], 0, 1, 1).unwrap();
    g.add_edge(n[2], n[3], 0, 2, 1).unwrap();
    g.add_edge(n[1], n[2], 0, 1, 0).unwrap();
    g
}

#[test]
fn primal_dual_finds_cheapest_flow() {
    let g = diamond();
    let mut pd = PrimalDual::new(&g.0);
    assert_eq!(pd.flows(), Err(MinimumCostFlowError::NotSolved));
    assert_eq!(pd.solve(), Ok(4));
    assert_eq!(pd.flows(), Ok(vec![2, 0, 1, 1, 1]));
    assert_eq!(pd.flow(EdgeId(4)), Ok(1));
    assert!(pd.potential(NodeId(0)).is_ok());
    assert_eq!(pd.potentials().unwrap().len(), 4);
}

#[test]
fn primal_dual_unbalanced() {
    let mut g = diamond();
    g.set_excess(NodeId(3), -1).unwrap();
    let mut pd = PrimalDual::new(&g.0);
    assert_eq!(pd.solve(), Err(MinimumCostFlowError::Unbalanced));
    assert_eq!(pd.flow(EdgeId(0)), Err(MinimumCostFlowError::NotSolved));
}

#[test]
fn primal_dual_infeasible() {
    let mut g = MinimumCostFlowGraph::default();
    let n = g.add_nodes(2);
    g.set_excess(n[0], 3).unwrap();
    g.set_excess(n[1], -3).unwrap();
    g.add_edge(n[0], n[1], 0, 2, 5).unwrap();
    let mut pd = PrimalDual::new(&g.0);
    assert_eq!(pd.solve(), Err(MinimumCostFlowError::Infeasible));
}

#[test]
fn primal_dual_no_edges_with_supply_is_infeasible() {
    let mut g = MinimumCostFlowGraph::default();
    let n = g.add_nodes(2);
    g.set_excess(n[0], 1).unwrap();
    g.set_excess(n[1], -1).unwrap();
    let mut pd = PrimalDual::new(&g.0);
    assert_eq!(pd.solve(), Err(MinimumCostFlowError::Infeasible));
}

#[test]
fn primal_dual_lower_bounds_and_negative_costs() {
    let mut g = MinimumCostFlowGraph::default();
    let n = g.add_nodes(3);
    // a cycle whose negative edge is worth filling, and a forced lower bound
    g.add_edge(n[0], n[1], 1, 3, 2).unwrap();
    g.add_edge(n[1], n[2], 0, 3, -5).unwrap();
    g.add_edge(n[2], n[0], 0, 3, 1).unwrap();
    let mut pd = PrimalDual::new(&g.0);
    // sending 3 around the cycle costs 3 * (2 - 5 + 1) = -6
    assert_eq!(pd.solve(), Ok(-6));
    assert_eq!(pd.flows(), Ok(vec![3, 3, 3]));
}

#[test]
fn primal_dual_empty_graph() {
    let g = MinimumCostFlowGraph::default();
    let mut pd = PrimalDual::new(&g.0);
    assert_eq!(pd.solve(), Ok(0));
    assert_eq!(pd.flows(), Ok(vec![]));
}

#[test]
fn graph_rejects_edges_to_missing_nodes() {
    let mut g = MinimumCostFlowGraph::default();
    let n = g.add_nodes(2);
    assert_eq!(g.add_edge(n[0], NodeId(5), 0, 1, 1), None);
    assert_eq!(g.set_excess(NodeId(7), 1), None);
    assert_eq!(g.add_edge(n[0], n[1], 0, 1, 1), Some(EdgeId(0)));
    assert_eq!(g.add_directed_edge(n[1], n[0], 0, 1, 1), EdgeId(1));
}

#[test]
fn normalized_network_moves_bounds_into_supplies() {
    let mut g = MinimumCostFlowGraph::default();
    let n = g.add_nodes(2);
    g.add_edge(n[0], n[1], 2, 5, 3).unwrap();
    g.add_edge(n[0], n[1], 1, 4, -2).unwrap();
    let nn = NormalizedNetwork::from(&g.0);
    assert_eq!(nn.num_nodes(), 2);
    assert_eq!(nn.num_edges(), 2);
    // lower bound 2 sent ahead on the first edge, upper bound 4 on the turned one
    assert_eq!(nn.excesses(), &[-6, 6]);
    let es = nn.iter_edges();
    assert_eq!((es[0].u, es[0].v, es[0].upper, es[0].cost, es[0].is_reversed), (n[0], n[1], 3, 3, false));
    assert_eq!((es[1].u, es[1].v, es[1].upper, es[1].cost, es[1].is_reversed), (n[1], n[0], 3, 2, true));
}

#[test]
fn error_messages() {
    assert_eq!(MinimumCostFlowError::Unbalanced.message(), "unbalanced");
    assert_eq!(MinimumCostFlowError::Infeasible.message(), "infeasible");
    assert_eq!(MinimumCostFlowError::NotSolved.message(), "solver has not been run yet");
}

#[test]
fn successive_shortest_path_finds_cheapest_flow() {
    let g = diamond();
    let mut ssp = SuccessiveShortestPath::new(&g.0);
    assert_eq!(ssp.flows(), Err(MinimumCostFlowError::NotSolved));
    assert_eq!(ssp.solve(), Ok(4));
    assert_eq!(ssp.flows(), Ok(vec![2, 0, 1, 1, 1]));
    assert_eq!(ssp.flow(EdgeId(2)), Ok(1));
    assert_eq!(ssp.potentials().unwrap().len(), 4);
}

#[test]
fn successive_shortest_path_run_matches_solve() {
    let g = diamond();
    let mut ssp = SuccessiveShortestPath::new(&g.0);
    assert_eq!(ssp.run(), Ok(4));
    assert_eq!(ssp.flow(EdgeId(0)), Ok(2));
}

#[test]
fn successive_shortest_path_unbalanced() {
    let mut g = diamond();
    g.set_excess(NodeId(3), -1).unwrap();
    let mut ssp = SuccessiveShortestPath::new(&g.0);
    assert_eq!(ssp.solve(), Err(MinimumCostFlowError::Unbalanced));
    assert_eq!(ssp.flows(), Err(MinimumCostFlowError::NotSolved));
}

#[test]
fn successive_shortest_path_infeasible() {
    let mut g = MinimumCostFlowGraph::default();
    let n = g.add_nodes(2);
    g.set_excess(n[0], 3).unwrap();
    g.set_excess(n[1], -3).unwrap();
    g.add_edge(n[0], n[1], 0, 2, 5).unwrap();
    let mut ssp = SuccessiveShortestPath::new(&g.0);
    assert_eq!(ssp.solve(), Err(MinimumCostFlowError::Infeasible));
}

#[test]
fn successive_shortest_path_lower_bounds_and_negative_costs() {
    let mut g = MinimumCostFlowGraph::default();
    let n = g.add_nodes(3);
    g.add_edge(n[0], n[1], 1, 3, 2).unwrap();
    g.add_edge(n[1], n[2], 0, 3, -5).unwrap();
    g.add_edge(n[2], n[0], 0, 3, 1).unwrap();
    let mut ssp = SuccessiveShortestPath::new(&g.0);
    assert_eq!(ssp.solve(), Ok(-6));
    assert_eq!(ssp.flows(), Ok(vec![3, 3, 3]));
}

#[test]
fn successive_shortest_path_empty_graph() {
    let g = MinimumCostFlowGraph::default();
    let mut ssp = SuccessiveShortestPath::new(&g.0);
    assert_eq!(ssp.solve(), Ok(0));
    assert_eq!(ssp.flows(), Ok(vec![]));
}

#[test]
fn primal_dual_run_matches_solve() {
    let g = diamond();
    let mut pd = PrimalDual::new(&g.0);
    assert_eq!(pd.run(), Ok(4));
    assert_eq!(pd.flows(), Ok(vec![2, 0, 1, 1, 1]));
}

#[test]
fn residual_network_distances_from_source() {
    let g = diamond();
    let nn = NormalizedNetwork::from(&g.0);
    let rn = ResidualNetwork::new(&nn, None, None, None, None);
    let (dist, prev) = rn.calculate_distance_from_source(NodeId(0)).unwrap();
    assert_eq!(dist, vec![Some(0), Some(1), Some(1), Some(2)]);
    assert_eq!(prev[0], None);
    assert!(prev[1].is_some() && prev[2].is_some() && prev[3].is_some());
}

#[test]
fn successive_shortest_path_meets_supplies_on_graph() {
    let g = diamond();
    let mut ssp = SuccessiveShortestPath::new(&g.0);
    ssp.solve().unwrap();
    let flows = ssp.flows().unwrap();
    let mut balance = vec![0i64; 4];
    for (i, e) in g.0.edges.iter().enumerate() {
        balance[e.u.0] -= flows[i];
        balance[e.v.0] += flows[i];
    }
    for (x, node) in g.0.nodes.iter().enumerate() {
        assert_eq!(balance[x] + node.b, 0);
    }
}

#[test]
fn cycle_canceling_finds_cheapest_flow() {
    let g = diamond();
    let mut cc = CycleCanceling::new(&g.0);
    assert_eq!(cc.flows(), Err(MinimumCostFlowError::NotSolved));
    assert_eq!(cc.solve(), Ok(4));
    let flows = cc.flows().unwrap();
    let mut balance = vec![0i64; 4];
    let mut cost = 0;
    for (i, e) in g.0.edges.iter().enumerate() {
        assert!(e.data.lower <= flows[i] && flows[i] <= e.data.upper);
        balance[e.u.0] -= flows[i];
        balance[e.v.0] += flows[i];
        cost += e.data.cost * flows[i];
    }
    assert_eq!(cost, 4);
    for (x, node) in g.0.nodes.iter().enumerate() {
        assert_eq!(balance[x] + node.b, 0);
    }
}

#[test]
fn cycle_canceling_potentials_certify_the_flow() {
    let g = diamond();
    let mut cc = CycleCanceling::new(&g.0);
    cc.solve().unwrap();
    let flows = cc.flows().unwrap();
    let p = cc.potentials().unwrap();
    for (i, e) in g.0.edges.iter().enumerate() {
        let reduced = e.data.cost - p[e.u.0] + p[e.v.0];
        if flows[i] < e.data.upper {
            assert!(reduced >= 0);
        }
        if flows[i] > e.data.lower {
            assert!(reduced <= 0);
        }
    }
}

#[test]
fn cycle_canceling_negative_cycle_and_lower_bound() {
    let mut g = MinimumCostFlowGraph::default();
    let n = g.add_nodes(3);
    g.add_edge(n[0], n[1], 1, 3, 2).unwrap();
    g.add_edge(n[1], n[2], 0, 3, -5).unwrap();
    g.add_edge(n[2], n[0], 0, 3, 1).unwrap();
    let mut cc = CycleCanceling::new(&g.0);
    assert_eq!(cc.solve(), Ok(-6));
    assert_eq!(cc.flows(), Ok(vec![3, 3, 3]));
}

#[test]
fn cycle_canceling_unbalanced() {
    let mut g = diamond();
    g.set_excess(NodeId(3), -1).unwrap();
    let mut cc = CycleCanceling::new(&g.0);
    assert_eq!(cc.solve(), Err(MinimumCostFlowError::Unbalanced));
    assert_eq!(cc.flow(EdgeId(0)), Err(MinimumCostFlowError::NotSolved));
}

#[test]
fn cycle_canceling_infeasible() {
    let mut g = MinimumCostFlowGraph::default();
    let n = g.add_nodes(2);
    g.set_excess(n[0], 3).unwrap();
    g.set_excess(n[1], -3).unwrap();
    g.add_edge(n[0], n[1], 0, 2, 5).unwrap();
    let mut cc = CycleCanceling::new(&g.0);
    assert_eq!(cc.solve(), Err(MinimumCostFlowError::Infeasible));
}

#[test]
fn cycle_canceling_empty_graph() {
    let g = MinimumCostFlowGraph::default();
    let mut cc = CycleCanceling::new(&g.0);
    assert_eq!(cc.solve(), Ok(0));
}

#[test]
fn primal_dual_new_with_reads_the_fields() {
    let mut graph: Graph<Directed, i64, (i64, i64, i64)> = Graph::new();
    let n = graph.add_nodes(4);
    graph.nodes[0] = 2;
    graph.nodes[3] = -2;
    graph.add_directed_edge(n[0], n[1], (0, 2, 1));
    graph.add_directed_edge(n[0], n[2], (0, 2, 2));
    graph.add_directed_edge(n[1], n[3], (0, 1, 1));
    graph.add_directed_edge(n[2], n[3], (0, 2, 1));
    graph.add_directed_edge(n[1], n[2], (0, 1, 0));
    let mut pd = PrimalDual::new_with(&graph, |e| e.data.0, |e| e.data.1, |e| e.data.2, |b| *b);
    assert_eq!(pd.solve(), Ok(4));
    assert_eq!(pd.flows(), Ok(vec![2, 0, 1, 1, 1]));
}

#[test]
fn primal_dual_meets_supplies_on_graph() {
    let mut g = MinimumCostFlowGraph::default();
    let n = g.add_nodes(4);
    g.set_excess(n[0], 3).unwrap();
    g.set_excess(n[1], 1).unwrap();
    g.set_excess(n[3], -4).unwrap();
    g.add_edge(n[0], n[1], 1, 3, 2).unwrap();
    g.add_edge(n[1], n[3], 0, 5, -1).unwrap();
    g.add_edge(n[0], n[2], 0, 2, 1).unwrap();
    g.add_edge(n[2], n[3], 0, 2, 1).unwrap();
    let mut pd = PrimalDual::new(&g.0);
    let cost = pd.solve().unwrap();
    let flows = pd.flows().unwrap();
    let mut balance = vec![0i64; 4];
    let mut total = 0;
    for (i, e) in g.0.edges.iter().enumerate() {
        assert!(e.data.lower <= flows[i] && flows[i] <= e.data.upper);
        balance[e.u.0] -= flows[i];
        balance[e.v.0] += flows[i];
        total += e.data.cost * flows[i];
    }
    assert_eq!(total, cost);
    for (x, node) in g.0.nodes.iter().enumerate() {
        assert_eq!(balance[x] + node.b, 0);
    }
    let mut cc = CycleCanceling::new(&g.0);
    assert_eq!(cc.solve(), Ok(cost));
}

fn forced_flow_without_return() -> MinimumCostFlowGraph {
    let mut g = MinimumCostFlowGraph::default();
    let n = g.add_nodes(3);
    g.add_edge(n[0], n[1], 1, 2, 3).unwrap();
    g.add_edge(n[1], n[2], 0, 4, 1).unwrap();
    g
}

fn feasible_only_around() -> MinimumCostFlowGraph {
    let mut g = MinimumCostFlowGraph::default();
    let n = g.add_nodes(4);
    g.set_excess(n[0], 2).unwrap();
    g.set_excess(n[3], -2).unwrap();
    g.add_edge(n[0], n[1], 0, 2, 1).unwrap();
    g.add_edge(n[2], n[1], 0, 2, 1).unwrap();
    g.add_edge(n[0], n[2], 0, 2, 4).unwrap();
    g.add_edge(n[1], n[3], 0, 1, 1).unwrap();
    g.add_edge(n[2], n[3], 0, 1, 1).unwrap();
    g
}

#[test]
fn successive_shortest_path_lower_bound_without_return_is_infeasible() {
    let g = forced_flow_without_return();
    let mut ssp = SuccessiveShortestPath::new(&g.0);
    assert_eq!(ssp.solve(), Err(MinimumCostFlowError::Infeasible));
}

#[test]
fn primal_dual_lower_bound_without_return_is_infeasible() {
    let g = forced_flow_without_return();
    let mut pd = PrimalDual::new(&g.0);
    assert_eq!(pd.solve(), Err(MinimumCostFlowError::Infeasible));
}

#[test]
fn cycle_canceling_lower_bound_without_return_is_infeasible() {
    let g = forced_flow_without_return();
    let mut cc = CycleCanceling::new(&g.0);
    assert_eq!(cc.solve(), Err(MinimumCostFlowError::Infeasible));
}

#[test]
fn solvers_find_the_flow_that_exists() {
    let g = feasible_only_around();
    let mut ssp = SuccessiveShortestPath::new(&g.0);
    assert_eq!(ssp.solve(), Ok(7));
    assert_eq!(ssp.flows(), Ok(vec![1, 0, 1, 1, 1]));
    let mut pd = PrimalDual::new(&g.0);
    assert_eq!(pd.solve(), Ok(7));
    assert_eq!(pd.flows(), Ok(vec![1, 0, 1, 1, 1]));
    let mut cc = CycleCanceling::new(&g.0);
    assert_eq!(cc.solve(), Ok(7));
    assert_eq!(cc.flows(), Ok(vec![1, 0, 1, 1, 1]));
}

#[test]
fn translater_moves_resting_flows_into_supplies() {
    let mut g = MinimumCostFlowGraph::default();
    let n = g.add_nodes(3);
    g.set_excess(n[0], 2).unwrap();
    g.set_excess(n[2], -2).unwrap();
    g.add_edge(n[0], n[1], 1, 3, 2).unwrap();
    g.add_edge(n[1], n[2], 0, 4, -5).unwrap();
    let t = translater(&g.0);
    let bs: Vec<i64> = t.nodes.iter().map(|x| x.b).collect();
    assert_eq!(bs, vec![1, -3, 2]);
    assert_eq!(t.edges.len(), 2);
    assert_eq!((t.edges[0].u, t.edges[0].v), (NodeId(0), NodeId(1)));
    assert_eq!((t.edges[0].data.lower, t.edges[0].data.upper, t.edges[0].data.cost), (0, 2, 2));
    assert_eq!((t.edges[1].u, t.edges[1].v), (NodeId(2), NodeId(1)));
    assert_eq!((t.edges[1].data.lower, t.edges[1].data.upper, t.edges[1].data.cost), (0, 4, 5));
}

#[test]
fn translater_keeps_a_feasible_flow_feasible() {
    let mut g = MinimumCostFlowGraph::default();
    let n = g.add_nodes(3);
    g.set_excess(n[0], 2).unwrap();
    g.set_excess(n[2], -2).unwrap();
    g.add_edge(n[0], n[1], 1, 3, 2).unwrap();
    g.add_edge(n[1], n[2], 0, 4, -5).unwrap();
    let t = translater(&g.0);
    let translated_flow = [2 - 1, 4 - 2];
    let mut out = vec![0i64; 3];
    for (e, f) in t.edges.iter().zip(translated_flow.iter()) {
        assert!(0 <= *f && *f <= e.data.upper);
        out[e.u.0] += f;
        out[e.v.0] -= f;
    }
    let bs: Vec<i64> = t.nodes.iter().map(|x| x.b).collect();
    assert_eq!(out, bs);
}

#[test]
fn a_flow_meeting_the_supplies_leaves_them_balanced() {
    let g = diamond();
    let flows = [2i64, 0, 1, 1, 1];
    let mut out = vec![0i64; 4];
    for (e, f) in g.0.edges.iter().zip(flows.iter()) {
        assert!(e.data.lower <= *f && *f <= e.data.upper);
        out[e.u.0] += f;
        out[e.v.0] -= f;
    }
    let supplies: Vec<i64> = g.0.nodes.iter().map(|x| x.b).collect();
    assert_eq!(out, supplies);
    assert_eq!(supplies.iter().sum::<i64>(), 0);
}
