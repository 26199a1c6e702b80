use crate::graph::direction::Directed;
use crate::graph::graph::Graph;
use crate::graph::ids::NodeId;
use crate::shortest_path::bellman_ford::to_options;
use crate::shortest_path::csr::{weighted_arcs, WeightEdge, CSR};
use crate::shortest_path::relax::{dijkstra_rows, nonneg_weights};
use crate::shortest_path::walk::{max_abs_weight, shortest_distances, witnessed};
use vstd::prelude::*;

verus! {

/// Dijkstra's algorithm over a graph given at each call.
pub struct Dijkstra {
    csr: CSR,
}

impl Default for Dijkstra {
    fn default() -> (s: Self)
        ensures
            s.rows().num_nodes == 0,
    {
        Dijkstra { csr: CSR::new() }
    }
}

impl Dijkstra {
    /// The rows built by the last call.
    pub closed spec fn rows(&self) -> CSR {
        self.csr
    }

    /// The distances Dijkstra's algorithm finds from `source` (`None` where
    /// no walk leads). Each is the length of a walk; with weights of at least
    /// zero they are the shortest walk lengths.
    pub fn solve(&mut self, graph: &Graph<Directed, (), WeightEdge>, source: NodeId) -> (r: Result<
        Vec<Option<i64>>,
        String,
    >)
        requires
            graph.endpoints_valid(),
            graph.nodes@.len() < usize::MAX,
            source.0 < graph.nodes@.len(),
            graph.nodes@.len() * max_abs_weight(weighted_arcs(*graph), graph.edges@.len() as int) < i64::MAX,
        ensures
            r is Ok,
            r matches Ok(d) ==> {
                &&& d@.len() == graph.nodes@.len()
                &&& d@[source.0 as int] == Some(0i64)
                &&& witnessed(weighted_arcs(*graph), source.0 as int, d@)
                &&& nonneg_weights(weighted_arcs(*graph)) ==> shortest_distances(
                    weighted_arcs(*graph),
                    source.0 as int,
                    d@,
                )
            },
    {
        self.csr.build(graph);
        let run = dijkstra_rows(
            self.csr.num_nodes,
            &self.csr.start,
            &self.csr.to,
            &self.csr.weight,
            source.index(),
            Ghost(weighted_arcs(*graph)),
            self.csr.arc_edge,
            self.csr.edge_arc,
        );
        Ok(to_options(&run.dist))
    }
}

} // verus!
