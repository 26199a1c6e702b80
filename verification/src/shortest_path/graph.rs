use crate::graph::direction::Directed;
use crate::graph::graph::{Edge, Graph};
use crate::graph::ids::{EdgeId, NodeId};
use crate::shortest_path::csr::WeightEdge;
use vstd::prelude::*;

verus! {

/// A directed graph whose edges carry a weight.
pub struct ShortestPathGraph(pub Graph<Directed, (), WeightEdge>);

impl ShortestPathGraph {
    /// A graph with no nodes and no edges.
    pub fn new() -> (g: Self)
        ensures
            g.0.nodes@.len() == 0,
            g.0.edges@.len() == 0,
    {
        ShortestPathGraph(Graph::new())
    }

    /// Adds `n` nodes and returns their ids in order.
    pub fn add_nodes(&mut self, n: usize) -> (ids: Vec<NodeId>)
        requires
            old(self).0.nodes@.len() + n <= usize::MAX,
        ensures
            ids@.len() == n,
            forall|i: int| 0 <= i < n ==> #[trigger] ids@[i] == NodeId((old(self).0.nodes@.len() + i) as usize),
            final(self).0.nodes@.len() == old(self).0.nodes@.len() + n,
            final(self).0.edges@ == old(self).0.edges@,
    {
        self.0.add_nodes(n)
    }

    /// Adds the edge `u -> v` of weight `weight` when both ends are nodes of
    /// the graph; otherwise leaves the graph as it is and returns `None`.
    #[inline]
    pub fn add_edge(&mut self, u: NodeId, v: NodeId, weight: i64) -> (r: Option<EdgeId>)
        ensures
            final(self).0.nodes@ == old(self).0.nodes@,
            (u.0 < old(self).0.nodes@.len() && v.0 < old(self).0.nodes@.len()) ==> {
                &&& r == Some(EdgeId(old(self).0.edges@.len() as usize))
                &&& final(self).0.edges@ == old(self).0.edges@.push(Edge { u, v, data: WeightEdge { weight } })
            },
            !(u.0 < old(self).0.nodes@.len() && v.0 < old(self).0.nodes@.len()) ==> {
                &&& r is None
                &&& final(self).0.edges@ == old(self).0.edges@
            },
    {
        if u.index() >= self.0.num_nodes() || v.index() >= self.0.num_nodes() {
            return None;
        }
        Some(self.0.add_edge(u, v, WeightEdge { weight: weight }))
    }

    /// Adds the edge `u -> v` of weight `weight`, whatever its ends.
    #[inline]
    pub fn add_directed_edge(&mut self, u: NodeId, v: NodeId, weight: i64) -> (r: Option<EdgeId>)
        ensures
            r == Some(EdgeId(old(self).0.edges@.len() as usize)),
            final(self).0.edges@ == old(self).0.edges@.push(Edge { u, v, data: WeightEdge { weight } }),
            final(self).0.nodes@ == old(self).0.nodes@,
    {
        Some(self.0.add_edge(u, v, WeightEdge { weight }))
    }

    /// The underlying graph.
    pub fn graph(&self) -> (g: &Graph<Directed, (), WeightEdge>)
        ensures
            *g == self.0,
    {
        &self.0
    }
}

} // verus!
