use crate::graph::direction::Directed;
use crate::graph::graph::Graph;
use crate::graph::ids::NodeId;
use crate::shortest_path::csr::{weighted_arcs, WeightEdge, CSR};
use crate::shortest_path::relax::{bellman_ford_rows, opt_dist};
use crate::shortest_path::walk::{max_abs_weight, shortest_distances};
use crate::shortest_path::closed_walks::no_negative_cycle_from;
use vstd::prelude::*;

verus! {

/// Bellman-Ford over a graph given at each call.
pub struct BellmanFord {
    csr: CSR,
}

impl Default for BellmanFord {
    fn default() -> (s: Self)
        ensures
            s.rows().num_nodes == 0,
    {
        BellmanFord { csr: CSR::new() }
    }
}

impl BellmanFord {
    /// The rows built by the last call.
    pub closed spec fn rows(&self) -> CSR {
        self.csr
    }

    /// The shortest walk lengths from `source` to every node of `graph`
    /// (`None` where no walk leads), or the message "cycle found" when the
    /// distances still change after as many rounds as there are nodes.
    pub fn solve(&mut self, graph: &Graph<Directed, (), WeightEdge>, source: NodeId) -> (r: Result<
        Vec<Option<i64>>,
        String,
    >)
        requires
            graph.endpoints_valid(),
            graph.nodes@.len() < usize::MAX,
            source.0 < graph.nodes@.len(),
            graph.nodes@.len() * graph.edges@.len() * max_abs_weight(
                weighted_arcs(*graph),
                graph.edges@.len() as int,
            ) < i64::MAX,
        ensures
            r matches Ok(d) ==> {
                &&& d@.len() == graph.nodes@.len()
                &&& d@[source.0 as int] == Some(0i64)
                &&& shortest_distances(weighted_arcs(*graph), source.0 as int, d@)
            },
            r matches Err(msg) ==> msg@ == "cycle found"@,
            no_negative_cycle_from(weighted_arcs(*graph), source.0 as int) ==> r is Ok,
    {
        self.csr.build(graph);
        let run = bellman_ford_rows(
            self.csr.num_nodes,
            &self.csr.start,
            &self.csr.to,
            &self.csr.weight,
            source.index(),
            Ghost(weighted_arcs(*graph)),
            self.csr.arc_edge,
            self.csr.edge_arc,
        );
        if !run.settled {
            return Err("cycle found".to_owned());
        }
        let d = to_options(&run.dist);
        Ok(d)
    }
}

/// The distances of `dist`, with `i64::MAX` read as "not reached".
pub fn to_options(dist: &Vec<i64>) -> (r: Vec<Option<i64>>)
    ensures
        r@ == opt_dist(dist@),
{
    let mut r: Vec<Option<i64>> = Vec::new();
    let mut i: usize = 0;
    while i < dist.len()
        invariant
            i <= dist@.len(),
            r@ == opt_dist(dist@.subrange(0, i as int)),
        decreases dist@.len() - i,
    {
        let x = dist[i];
        if x == i64::MAX {
            r.push(None);
        } else {
            r.push(Some(x));
        }
        assert(dist@.subrange(0, i + 1) == dist@.subrange(0, i as int).push(x));
        i = i + 1;
    }
    assert(dist@.subrange(0, dist@.len() as int) == dist@);
    r
}

} // verus!
