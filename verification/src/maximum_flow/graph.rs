use crate::graph::direction::Directed;
use crate::graph::graph::{Edge, Graph};
use crate::graph::ids::{EdgeId, NodeId};
use crate::maximum_flow::edge::CapEdge;
use vstd::prelude::*;

verus! {

/// A directed graph whose edges have capacities and carry a flow.
pub struct MaximumFlowGraph(pub Graph<Directed, (), CapEdge>);

impl Default for MaximumFlowGraph {
    fn default() -> (g: Self)
        ensures
            g.0.nodes@.len() == 0,
            g.0.edges@.len() == 0,
    {
        MaximumFlowGraph(Graph::new())
    }
}

impl MaximumFlowGraph {
    /// Adds `n` nodes and returns their ids in order.
    pub fn add_nodes(&mut self, n: usize) -> (ids: Vec<NodeId>)
        requires
            old(self).0.nodes@.len() + n <= usize::MAX,
        ensures
            ids@.len() == n,
            forall|i: int| 0 <= i < n ==> #[trigger] ids@[i] == NodeId((old(self).0.nodes@.len() + i) as usize),
            final(self).0.nodes@.len() == old(self).0.nodes@.len() + n,
            final(self).0.edges@ == old(self).0.edges@,
    {
        self.0.add_nodes(n)
    }

    /// Adds the edge `u -> v` of capacity `upper`, carrying no flow.
    pub fn add_directed_edge(&mut self, u: NodeId, v: NodeId, upper: i64) -> (eid: EdgeId)
        ensures
            eid.0 == old(self).0.edges@.len(),
            final(self).0.edges@ == old(self).0.edges@.push(Edge { u, v, data: CapEdge { flow: 0, upper } }),
            final(self).0.nodes@ == old(self).0.nodes@,
    {
        self.0.add_directed_edge(u, v, CapEdge { flow: 0, upper })
    }

    pub fn num_nodes(&self) -> (n: usize)
        ensures
            n == self.0.nodes@.len(),
    {
        self.0.num_nodes()
    }
}

} // verus!
