use crate::graph::direction::Directed;
use crate::graph::graph::Graph;
use crate::graph::ids::NodeId;
use crate::shortest_path::csr::{weighted_arcs, WeightEdge};
use crate::shortest_path::status::Status;
use crate::shortest_path::walk::{is_shortest, reachable};
use vstd::prelude::*;

verus! {

/// A single-source shortest path solver built once for a graph and run
/// from any source.
pub trait ShortestPathSolver: Sized {
    /// The arcs `(u, v, weight)` of the graph, in edge order.
    spec fn arcs(&self) -> Seq<(usize, usize, i64)>;

    /// The number of nodes of the graph.
    spec fn node_count(&self) -> nat;

    /// The distance the last run recorded for node `u`, if any.
    spec fn distance_of(&self, u: int) -> Option<i64>;

    /// The solver's own invariant.
    spec fn well_formed(&self) -> bool;

    /// The weights are small enough for a run to stay within `i64`.
    spec fn fits(&self) -> bool;

    fn new(graph: &Graph<Directed, (), WeightEdge>) -> (s: Self)
        requires
            graph.endpoints_valid(),
            graph.nodes@.len() < usize::MAX,
        ensures
            s.well_formed(),
            s.arcs() == weighted_arcs(*graph),
            s.node_count() == graph.nodes@.len(),
            forall|u: int| 0 <= u < s.node_count() ==> #[trigger] s.distance_of(u) is None,
    ;

    /// Computes the distances from `source`. On success every recorded
    /// distance is a shortest walk length, and a node other than the source
    /// with no distance cannot be reached.
    fn solve(&mut self, source: NodeId) -> (r: Result<(), Status>)
        requires
            old(self).well_formed(),
            old(self).fits(),
            source.0 < old(self).node_count(),
        ensures
            final(self).well_formed(),
            final(self).fits(),
            final(self).arcs() == old(self).arcs(),
            final(self).node_count() == old(self).node_count(),
            r is Ok ==> forall|v: int|
                0 <= v < final(self).node_count() ==> match #[trigger] final(self).distance_of(v) {
                    Some(d) => is_shortest(final(self).arcs(), source.0 as int, v, d as int),
                    None => v == source.0 || !reachable(final(self).arcs(), source.0 as int, v),
                },
            r matches Err(st) ==> st == Status::BadInput || st == Status::NegativeCycle,
    ;

    /// The distance recorded for `u`, if any.
    fn distance(&self, u: NodeId) -> (d: Option<i64>)
        requires
            self.well_formed(),
            u.0 < self.node_count(),
        ensures
            d == self.distance_of(u.0 as int),
    ;

    /// Whether a distance is recorded for `u`.
    fn reached(&self, u: NodeId) -> (b: bool)
        requires
            self.well_formed(),
            u.0 < self.node_count(),
        ensures
            b == self.distance_of(u.0 as int) is Some,
    ;
}

} // verus!
