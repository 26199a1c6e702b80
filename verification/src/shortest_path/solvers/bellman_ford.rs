use crate::data_structures::bit_vector::BitVector;
use crate::graph::direction::Directed;
use crate::graph::graph::{Edge, Graph};
use crate::graph::ids::NodeId;
use crate::shortest_path::csr::{weighted_arcs, WeightEdge};
use crate::shortest_path::internal_graph::InternalGraph;
use crate::shortest_path::relax::{bellman_ford_rows, opt_dist};
use crate::shortest_path::solvers::solver::ShortestPathSolver;
use crate::shortest_path::status::Status;
use crate::shortest_path::walk::{is_shortest, max_abs_weight, reachable};
use crate::shortest_path::closed_walks::no_negative_cycle_from;
use vstd::prelude::*;

verus! {

/// Bellman-Ford built once for a graph: at most as many rounds of relaxing
/// every arc as there are nodes.
pub struct BellmanFord {
    ig: InternalGraph,
    reached: BitVector,
    distances: Vec<i64>,
}

impl BellmanFord {
    closed spec fn inv(&self) -> bool {
        &&& self.ig.wf()
        &&& self.reached.wf()
        &&& self.reached@.len() == self.ig.num_nodes
        &&& self.distances@.len() == self.ig.num_nodes
    }

    pub fn new(graph: &Graph<Directed, (), WeightEdge>) -> (s: Self)
        requires
            graph.endpoints_valid(),
            graph.nodes@.len() < usize::MAX,
        ensures
            s.well_formed(),
            s.arcs() == weighted_arcs(*graph),
            s.node_count() == graph.nodes@.len(),
            forall|u: int| 0 <= u < s.node_count() ==> #[trigger] s.distance_of(u) is None,
    {
        let ig = InternalGraph::new(graph);
        Self::new_with_internal_graph(ig)
    }

    /// A solver for `graph` where edge `i` weighs `weight_fn(&edges[i])`.
    pub fn new_graph_with<N, E, WF>(graph: &Graph<Directed, N, E>, weight_fn: WF) -> (s: Self)
        where
            WF: Fn(&Edge<E>) -> i64,
        requires
            graph.endpoints_valid(),
            graph.nodes@.len() < usize::MAX,
            forall|i: int| 0 <= i < graph.edges@.len() ==> #[trigger] weight_fn.requires((&graph.edges@[i],)),
        ensures
            s.well_formed(),
            s.node_count() == graph.nodes@.len(),
            s.arcs().len() == graph.edges@.len(),
            forall|i: int|
                0 <= i < graph.edges@.len() ==> {
                    &&& (#[trigger] s.arcs()[i]).0 == graph.edges@[i].u.0
                    &&& s.arcs()[i].1 == graph.edges@[i].v.0
                    &&& weight_fn.ensures((&graph.edges@[i],), s.arcs()[i].2)
                },
            forall|u: int| 0 <= u < s.node_count() ==> #[trigger] s.distance_of(u) is None,
    {
        let ws = edge_weights_with(graph, weight_fn);
        let ig = InternalGraph::build(graph.nodes.len(), graph.edges.as_slice(), ws);
        Self::new_with_internal_graph(ig)
    }

    /// A run fits in `i64` when the number of nodes times the number of
    /// arcs times the greatest absolute weight stays below `i64::MAX`.
    pub proof fn lemma_fits(&self)
        ensures
            self.fits() <==> self.node_count() * self.arcs().len() * max_abs_weight(
                self.arcs(),
                self.arcs().len() as int,
            ) < i64::MAX,
    {
    }

    fn new_with_internal_graph(ig: InternalGraph) -> (s: Self)
        requires
            ig.wf(),
        ensures
            s.inv(),
            s.ig == ig,
            forall|u: int| 0 <= u < ig.num_nodes ==> !(#[trigger] s.reached@[u]),
    {
        let num_nodes = ig.num_nodes;
        Self { ig, reached: BitVector::new(num_nodes), distances: vec![i64::MAX; num_nodes] }
    }

    fn run(&mut self, source: NodeId) -> (r: Result<(), Status>)
        requires
            old(self).inv(),
            source.0 < old(self).ig.num_nodes,
            old(self).ig.num_nodes * old(self).ig.arcs@.len() * max_abs_weight(
                old(self).ig.arcs@,
                old(self).ig.arcs@.len() as int,
            ) < i64::MAX,
        ensures
            final(self).inv(),
            final(self).ig == old(self).ig,
            r is Ok || r == Err::<(), Status>(Status::NegativeCycle),
            no_negative_cycle_from(old(self).ig.arcs@, source.0 as int) ==> r is Ok,
            r is Ok ==> forall|v: int|
                0 <= v < final(self).ig.num_nodes ==> {
                    &&& (#[trigger] final(self).reached@[v]) == (v != source.0 && reachable(
                        final(self).ig.arcs@,
                        source.0 as int,
                        v,
                    ))
                    &&& final(self).reached@[v] ==> is_shortest(
                        final(self).ig.arcs@,
                        source.0 as int,
                        v,
                        final(self).distances@[v] as int,
                    )
                },
    {
        let n = self.ig.num_nodes;
        let heads = self.ig.heads();
        let run = bellman_ford_rows(
            n,
            &self.ig.start,
            &heads,
            &self.ig.weight,
            source.index(),
            self.ig.arcs,
            self.ig.arc_edge,
            self.ig.edge_arc,
        );
        let mut reached = BitVector::new(n);
        let mut i: usize = 0;
        while i < n
            invariant
                i <= n,
                run.lowered@.len() == n,
                reached.wf(),
                reached@.len() == n,
                forall|j: int| 0 <= j < i ==> #[trigger] reached@[j] == run.lowered@[j],
                forall|j: int| i <= j < n ==> !(#[trigger] reached@[j]),
            decreases n - i,
        {
            if run.lowered[i] {
                reached.set(i, true);
            }
            i = i + 1;
        }
        self.reached = reached;
        self.distances = run.dist;
        if !run.settled {
            return Err(Status::NegativeCycle);
        }
        proof {
            let es = self.ig.arcs@;
            let s = source.0 as int;
            assert forall|v: int| 0 <= v < n && #[trigger] self.reached@[v] implies is_shortest(
                es,
                s,
                v,
                self.distances@[v] as int,
            ) by {
                assert(opt_dist(self.distances@)[v] is Some);
            }
        }
        Ok(())
    }
}

/// The weights `weight_fn` gives the edges of `graph`, in edge order.
pub fn edge_weights_with<N, E, WF>(graph: &Graph<Directed, N, E>, weight_fn: WF) -> (ws: Vec<i64>)
    where
        WF: Fn(&Edge<E>) -> i64,
    requires
        forall|i: int| 0 <= i < graph.edges@.len() ==> #[trigger] weight_fn.requires((&graph.edges@[i],)),
    ensures
        ws@.len() == graph.edges@.len(),
        forall|i: int| 0 <= i < graph.edges@.len() ==> weight_fn.ensures((&graph.edges@[i],), #[trigger] ws@[i]),
{
    let mut ws: Vec<i64> = Vec::new();
    let mut i: usize = 0;
    while i < graph.edges.len()
        invariant
            i <= graph.edges@.len(),
            ws@.len() == i,
            forall|j: int| 0 <= j < graph.edges@.len() ==> #[trigger] weight_fn.requires((&graph.edges@[j],)),
            forall|j: int| 0 <= j < i ==> weight_fn.ensures((&graph.edges@[j],), #[trigger] ws@[j]),
        decreases graph.edges@.len() - i,
    {
        let w = weight_fn(&graph.edges[i]);
        ws.push(w);
        i = i + 1;
    }
    ws
}

impl ShortestPathSolver for BellmanFord {
    closed spec fn arcs(&self) -> Seq<(usize, usize, i64)> {
        self.ig.arcs@
    }

    closed spec fn node_count(&self) -> nat {
        self.ig.num_nodes as nat
    }

    closed spec fn distance_of(&self, u: int) -> Option<i64> {
        if self.reached@[u] {
            Some(self.distances@[u])
        } else {
            None
        }
    }

    closed spec fn well_formed(&self) -> bool {
        self.inv()
    }

    closed spec fn fits(&self) -> bool {
        self.ig.num_nodes * self.ig.arcs@.len() * max_abs_weight(self.ig.arcs@, self.ig.arcs@.len() as int)
            < i64::MAX
    }

    fn new(graph: &Graph<Directed, (), WeightEdge>) -> (s: Self) {
        BellmanFord::new(graph)
    }

    fn solve(&mut self, source: NodeId) -> (r: Result<(), Status>)
        ensures
            r is Ok ==> forall|v: int|
                0 <= v < final(self).node_count() ==> ((#[trigger] final(self).distance_of(v)) is Some <==> (v
                    != source.0 && reachable(final(self).arcs(), source.0 as int, v))),
            r is Err ==> r == Err::<(), Status>(Status::NegativeCycle),
            no_negative_cycle_from(old(self).arcs(), source.0 as int) ==> r is Ok,
    {
        self.run(source)
    }

    fn distance(&self, u: NodeId) -> (d: Option<i64>) {
        if self.reached.get(u.index()) {
            Some(self.distances[u.index()])
        } else {
            None
        }
    }

    fn reached(&self, u: NodeId) -> (b: bool) {
        self.reached.get(u.index())
    }
}

} // verus!
