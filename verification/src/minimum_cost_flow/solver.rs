use crate::graph::direction::Directed;
use crate::graph::graph::Graph;
use crate::graph::ids::{EdgeId, NodeId};
use crate::minimum_cost_flow::edge::{MinimumCostFlowEdge, MinimumCostFlowNode};
use crate::minimum_cost_flow::error::MinimumCostFlowError;
use crate::minimum_cost_flow::graph::network_ok;
use vstd::prelude::*;

verus! {

/// A minimum cost flow solver built once for a graph.
pub trait MinimumCostFlowSolver: Sized {
    /// The solver's own invariant.
    spec fn ready(&self) -> bool;

    /// A run has ended with a flow.
    spec fn solved(&self) -> bool;

    /// The number of edges of the graph.
    spec fn edge_count(&self) -> nat;

    /// The number of nodes of the graph.
    spec fn node_count(&self) -> nat;

    /// The flow on edge `e`.
    spec fn flow_of(&self, e: int) -> int;

    /// The potential of node `x`.
    spec fn potential_of(&self, x: int) -> int;

    /// The cost of the flow.
    spec fn cost_of_flow(&self) -> int;

    fn new(graph: &Graph<Directed, MinimumCostFlowNode, MinimumCostFlowEdge>) -> (s: Self)
        requires
            network_ok(*graph),
        ensures
            s.ready(),
            !s.solved(),
            s.edge_count() == graph.edges@.len(),
            s.node_count() == graph.nodes@.len(),
    ;

    /// Runs the solver and returns the cost of the flow it found.
    fn solve(&mut self) -> (r: Result<i64, MinimumCostFlowError>)
        requires
            old(self).ready(),
        ensures
            final(self).ready(),
            final(self).edge_count() == old(self).edge_count(),
            final(self).node_count() == old(self).node_count(),
            r matches Ok(v) ==> final(self).solved() && v == final(self).cost_of_flow(),
            r is Err ==> final(self).solved() == old(self).solved(),
    ;

    /// The flow on `edge_id`, once solved.
    fn flow(&self, edge_id: EdgeId) -> (r: Result<i64, MinimumCostFlowError>)
        requires
            self.ready(),
            edge_id.0 < self.edge_count(),
        ensures
            self.solved() ==> r == Ok::<i64, MinimumCostFlowError>(self.flow_of(edge_id.0 as int) as i64),
            !self.solved() ==> r == Err::<i64, MinimumCostFlowError>(MinimumCostFlowError::NotSolved),
    ;

    /// The flow on every edge, once solved.
    fn flows(&self) -> (r: Result<Vec<i64>, MinimumCostFlowError>)
        requires
            self.ready(),
        ensures
            self.solved() ==> (r matches Ok(fs) && fs@.len() == self.edge_count() && forall|e: int|
                0 <= e < fs@.len() ==> #[trigger] fs@[e] == self.flow_of(e)),
            !self.solved() ==> r == Err::<Vec<i64>, MinimumCostFlowError>(MinimumCostFlowError::NotSolved),
    ;

    /// The potential of `node_id`, once solved.
    fn potential(&self, node_id: NodeId) -> (r: Result<i64, MinimumCostFlowError>)
        requires
            self.ready(),
            node_id.0 < self.node_count(),
        ensures
            self.solved() ==> r == Ok::<i64, MinimumCostFlowError>(self.potential_of(node_id.0 as int) as i64),
            !self.solved() ==> r == Err::<i64, MinimumCostFlowError>(MinimumCostFlowError::NotSolved),
    ;

    /// The potential of every node, once solved.
    fn potentials(&self) -> (r: Result<Vec<i64>, MinimumCostFlowError>)
        requires
            self.ready(),
        ensures
            self.solved() ==> (r matches Ok(ps) && ps@.len() == self.node_count() && forall|x: int|
                0 <= x < ps@.len() ==> #[trigger] ps@[x] == self.potential_of(x)),
            !self.solved() ==> r == Err::<Vec<i64>, MinimumCostFlowError>(MinimumCostFlowError::NotSolved),
    ;
}

} // verus!
