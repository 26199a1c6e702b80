use crate::graph::direction::Directed;
use crate::graph::graph::{Edge, Graph};
use crate::graph::ids::{EdgeId, NodeId};
use crate::minimum_cost_flow::edge::{MinimumCostFlowEdge, MinimumCostFlowNode};
use vstd::prelude::*;

verus! {

/// A directed graph whose nodes supply or demand flow and whose edges have
/// bounds and a cost per unit.
pub struct MinimumCostFlowGraph(pub Graph<Directed, MinimumCostFlowNode, MinimumCostFlowEdge>);

impl Default for MinimumCostFlowGraph {
    fn default() -> (g: Self)
        ensures
            g.0.nodes@.len() == 0,
            g.0.edges@.len() == 0,
    {
        MinimumCostFlowGraph(Graph::new())
    }
}

impl MinimumCostFlowGraph {
    /// Adds `n` nodes with no supply and returns their ids in order.
    pub fn add_nodes(&mut self, n: usize) -> (ids: Vec<NodeId>)
        requires
            old(self).0.nodes@.len() + n <= usize::MAX,
        ensures
            ids@.len() == n,
            forall|i: int| 0 <= i < n ==> #[trigger] ids@[i] == NodeId((old(self).0.nodes@.len() + i) as usize),
            final(self).0.nodes@.len() == old(self).0.nodes@.len() + n,
            forall|i: int|
                0 <= i < final(self).0.nodes@.len() ==> #[trigger] final(self).0.nodes@[i] == if i < old(
                    self,
                ).0.nodes@.len() {
                    old(self).0.nodes@[i]
                } else {
                    MinimumCostFlowNode { b: 0 }
                },
            final(self).0.edges@ == old(self).0.edges@,
    {
        let ghost before = self.0.nodes@;
        let mut ids: Vec<NodeId> = Vec::new();
        let mut k: usize = 0;
        while k < n
            invariant
                k <= n,
                before == old(self).0.nodes@,
                before.len() + n <= usize::MAX,
                self.0.nodes@.len() == before.len() + k,
                forall|i: int|
                    0 <= i < self.0.nodes@.len() ==> #[trigger] self.0.nodes@[i] == if i < before.len() {
                        before[i]
                    } else {
                        MinimumCostFlowNode { b: 0 }
                    },
                self.0.edges@ == old(self).0.edges@,
                ids@.len() == k,
                forall|i: int| 0 <= i < k ==> #[trigger] ids@[i] == NodeId((before.len() + i) as usize),
            decreases n - k,
        {
            let id = NodeId(self.0.nodes.len());
            self.0.nodes.push(MinimumCostFlowNode { b: 0 });
            ids.push(id);
            k = k + 1;
        }
        ids
    }

    /// Adds the edge `u -> v` when both ends are nodes; otherwise leaves the
    /// graph as it is and returns `None`.
    pub fn add_edge(&mut self, u: NodeId, v: NodeId, lower: i64, upper: i64, cost: i64) -> (r: Option<EdgeId>)
        ensures
            final(self).0.nodes@ == old(self).0.nodes@,
            (u.0 < old(self).0.nodes@.len() && v.0 < old(self).0.nodes@.len()) ==> {
                &&& r == Some(EdgeId(old(self).0.edges@.len() as usize))
                &&& final(self).0.edges@ == old(self).0.edges@.push(
                    Edge { u, v, data: MinimumCostFlowEdge { lower, upper, cost } },
                )
            },
            !(u.0 < old(self).0.nodes@.len() && v.0 < old(self).0.nodes@.len()) ==> {
                &&& r is None
                &&& final(self).0.edges@ == old(self).0.edges@
            },
    {
        if u.index() >= self.0.num_nodes() || v.index() >= self.0.num_nodes() {
            return None;
        }
        Some(self.0.add_edge(u, v, MinimumCostFlowEdge { lower, upper, cost }))
    }

    /// Adds the edge `u -> v`, whatever its ends.
    #[inline]
    pub fn add_directed_edge(&mut self, u: NodeId, v: NodeId, lower: i64, upper: i64, cost: i64) -> (eid: EdgeId)
        ensures
            eid.0 == old(self).0.edges@.len(),
            final(self).0.edges@ == old(self).0.edges@.push(
                Edge { u, v, data: MinimumCostFlowEdge { lower, upper, cost } },
            ),
            final(self).0.nodes@ == old(self).0.nodes@,
    {
        self.0.add_edge(u, v, MinimumCostFlowEdge { lower, upper, cost })
    }

    /// Sets the supply of `u` to `b`; `None` when `u` is not a node.
    pub fn set_excess(&mut self, u: NodeId, b: i64) -> (r: Option<()>)
        ensures
            final(self).0.edges@ == old(self).0.edges@,
            u.0 < old(self).0.nodes@.len() ==> r is Some && final(self).0.nodes@ == old(self).0.nodes@.update(
                u.0 as int,
                MinimumCostFlowNode { b },
            ),
            u.0 >= old(self).0.nodes@.len() ==> r is None && final(self).0.nodes@ == old(self).0.nodes@,
    {
        if u.index() >= self.0.nodes.len() {
            return None;
        }
        self.0.nodes.set(u.index(), MinimumCostFlowNode { b });
        Some(())
    }
}

} // verus!

verus! {

/// The largest magnitude of a bound, cost or supply, and the largest number
/// of nodes or edges, for which every sum the solvers form fits in `i64`.
pub const VALUE_LIMIT: i64 = 0x10_0000;

/// Sizes and values are within `VALUE_LIMIT`, every edge joins two nodes and
/// its lower bound is at most its upper bound.
pub open spec fn network_ok(g: Graph<Directed, MinimumCostFlowNode, MinimumCostFlowEdge>) -> bool {
    &&& g.nodes@.len() <= VALUE_LIMIT
    &&& g.edges@.len() <= VALUE_LIMIT
    &&& g.endpoints_valid()
    &&& forall|x: int| 0 <= x < g.nodes@.len() ==> -VALUE_LIMIT <= #[trigger] g.nodes@[x].b <= VALUE_LIMIT
    &&& forall|e: int|
        0 <= e < g.edges@.len() ==> {
            let d = (#[trigger] g.edges@[e]).data;
            &&& -VALUE_LIMIT <= d.lower <= d.upper <= VALUE_LIMIT
            &&& -VALUE_LIMIT <= d.cost <= VALUE_LIMIT
        }
}

} // verus!
