use crate::graph::direction::Directed;
use crate::graph::graph::Graph;
use crate::graph::ids::NodeId;
use crate::maximum_flow::edge::CapEdge;
use crate::maximum_flow::flow::{cap_into, excess, is_flow, residual_arcs, same_shape};
use crate::maximum_flow::status::Status;
use crate::shortest_path::walk::reachable;
use vstd::prelude::*;

verus! {

/// The source or sink is not a node, they are the same node, or some edge
/// has a negative capacity.
pub open spec fn bad_input(g: Graph<Directed, (), CapEdge>, source: NodeId, sink: NodeId) -> bool {
    ||| source.0 >= g.nodes@.len()
    ||| sink.0 >= g.nodes@.len()
    ||| source == sink
    ||| exists|e: int| 0 <= e < g.edges@.len() && (#[trigger] g.edges@[e]).data.upper < 0
}

/// A solver that writes a maximum flow from `source` to `sink` into the
/// edges of a graph and returns its value.
pub trait MaximumFlowSolver {
    /// Replaces the flows of `graph` with a flow from `source` to `sink` and
    /// returns its value. Unless `upper` stops it first, no residual path
    /// is left from `source` to `sink`.
    fn solve(
        &mut self,
        graph: &mut Graph<Directed, (), CapEdge>,
        source: NodeId,
        sink: NodeId,
        upper: Option<i64>,
    ) -> (r: Result<i64, Status>)
        requires
            old(graph).endpoints_valid(),
            cap_into(old(graph).edges@, old(graph).edges@.len() as int, sink.0 as int) <= i64::MAX,
        ensures
            final(graph).nodes@ == old(graph).nodes@,
            same_shape(old(graph).edges@, final(graph).edges@),
            r is Err <==> bad_input(*old(graph), source, sink),
            r is Err ==> r == Err::<i64, Status>(Status::BadInput) && final(graph).edges@ == old(graph).edges@,
            r matches Ok(f) ==> {
                &&& is_flow(final(graph).edges@, source.0 as int, sink.0 as int)
                &&& f == excess(final(graph).edges@, sink.0 as int)
                &&& 0 <= f
                &&& (upper matches Some(l) ==> f <= if l < 0 { 0 } else { l })
                &&& (upper is None || f < upper->0) ==> !reachable(
                    residual_arcs(final(graph).edges@, final(graph).edges@.len() as int),
                    source.0 as int,
                    sink.0 as int,
                )
            },
    ;
}

} // verus!
