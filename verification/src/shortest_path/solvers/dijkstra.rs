use crate::data_structures::bit_vector::BitVector;
use crate::graph::direction::Directed;
use crate::graph::graph::{Edge, Graph};
use crate::graph::ids::NodeId;
use crate::shortest_path::csr::{lemma_arc_row, weighted_arcs, WeightEdge};
use crate::shortest_path::internal_graph::InternalGraph;
use crate::shortest_path::relax::{dijkstra_rows, nonneg_weights, opt_dist};
use crate::shortest_path::solvers::bellman_ford::edge_weights_with;
use crate::shortest_path::solvers::solver::ShortestPathSolver;
use crate::shortest_path::status::Status;
use crate::shortest_path::walk::{is_shortest, max_abs_weight, reachable};
use vstd::prelude::*;

verus! {

/// Dijkstra's algorithm built once for a graph; refuses negative weights.
pub struct Dijkstra {
    ig: InternalGraph,
    reached: BitVector,
    distances: Vec<i64>,
}

impl Dijkstra {
    closed spec fn inv(&self) -> bool {
        &&& self.ig.wf()
        &&& self.reached.wf()
        &&& self.reached@.len() == self.ig.num_nodes
        &&& self.distances@.len() == self.ig.num_nodes
    }

    /// A run fits in `i64` when the number of nodes times the greatest
    /// absolute weight stays below `i64::MAX`.
    pub proof fn lemma_fits(&self)
        ensures
            self.fits() <==> self.node_count() * max_abs_weight(self.arcs(), self.arcs().len() as int) < i64::MAX,
    {
    }

    pub fn new(graph: &Graph<Directed, (), WeightEdge>) -> (s: Self)
        requires
            graph.endpoints_valid(),
            graph.nodes@.len() < usize::MAX,
        ensures
            s.well_formed(),
            s.arcs() == weighted_arcs(*graph),
            s.node_count() == graph.nodes@.len(),
            forall|u: int| 0 <= u < s.node_count() ==> #[trigger] s.distance_of(u) is None,
    {
        let ig = InternalGraph::new(graph);
        Self::new_with_internal_graph(ig)
    }

    /// A solver for `graph` where edge `i` weighs `weight_fn(&edges[i])`.
    pub fn new_graph_with<N, E, WF>(graph: &Graph<Directed, N, E>, weight_fn: WF) -> (s: Self)
        where
            WF: Fn(&Edge<E>) -> i64,
        requires
            graph.endpoints_valid(),
            graph.nodes@.len() < usize::MAX,
            forall|i: int| 0 <= i < graph.edges@.len() ==> #[trigger] weight_fn.requires((&graph.edges@[i],)),
        ensures
            s.well_formed(),
            s.node_count() == graph.nodes@.len(),
            s.arcs().len() == graph.edges@.len(),
            forall|i: int|
                0 <= i < graph.edges@.len() ==> {
                    &&& (#[trigger] s.arcs()[i]).0 == graph.edges@[i].u.0
                    &&& s.arcs()[i].1 == graph.edges@[i].v.0
                    &&& weight_fn.ensures((&graph.edges@[i],), s.arcs()[i].2)
                },
            forall|u: int| 0 <= u < s.node_count() ==> #[trigger] s.distance_of(u) is None,
    {
        let ws = edge_weights_with(graph, weight_fn);
        let ig = InternalGraph::build(graph.nodes.len(), graph.edges.as_slice(), ws);
        Self::new_with_internal_graph(ig)
    }

    fn new_with_internal_graph(ig: InternalGraph) -> (s: Self)
        requires
            ig.wf(),
        ensures
            s.inv(),
            s.ig == ig,
            forall|u: int| 0 <= u < ig.num_nodes ==> !(#[trigger] s.reached@[u]),
    {
        let num_nodes = ig.num_nodes;
        Self { ig, reached: BitVector::new(num_nodes), distances: vec![i64::MAX; num_nodes] }
    }

    /// Whether every arc weighs at least zero.
    fn weights_nonneg(&self) -> (b: bool)
        requires
            self.ig.wf(),
        ensures
            b == nonneg_weights(self.ig.arcs@),
    {
        let ghost es = self.ig.arcs@;
        let ghost n = self.ig.num_nodes as int;
        let m = self.ig.weight.len();
        let mut i: usize = 0;
        while i < m
            invariant
                self.ig.wf(),
                es == self.ig.arcs@,
                n == self.ig.num_nodes,
                m == es.len(),
                i <= m,
                forall|j: int| 0 <= j < i ==> #[trigger] self.ig.weight@[j] >= 0,
            decreases m - i,
        {
            if self.ig.weight[i] < 0 {
                proof {
                    let start = self.ig.start@;
                    let u = lemma_arc_row(start, n, i as int, 0);
                    let e = self.ig.arc_edge@[i as int];
                    assert(start[u] <= i < start[u + 1]);
                    assert(es[e].2 < 0);
                }
                return false;
            }
            i = i + 1;
        }
        proof {
            assert forall|e: int| 0 <= e < es.len() implies (#[trigger] es[e]).2 >= 0 by {
                let a = self.ig.edge_arc@[e];
                let u = es[e].0 as int;
                assert(self.ig.start@[u] <= a < self.ig.start@[u + 1]);
                assert(self.ig.weight@[a] >= 0);
            }
        }
        true
    }

    #[verifier::rlimit(60)]
    #[verifier::spinoff_prover]
    fn run(&mut self, source: NodeId) -> (r: Result<(), Status>)
        requires
            old(self).inv(),
            source.0 < old(self).ig.num_nodes,
            old(self).ig.num_nodes * max_abs_weight(old(self).ig.arcs@, old(self).ig.arcs@.len() as int)
                < i64::MAX,
        ensures
            final(self).inv(),
            final(self).ig == old(self).ig,
            r is Ok <==> nonneg_weights(old(self).ig.arcs@),
            r is Err ==> r == Err::<(), Status>(Status::BadInput) && *final(self) == *old(self),
            r is Ok ==> forall|v: int|
                0 <= v < final(self).ig.num_nodes ==> {
                    &&& (#[trigger] final(self).reached@[v]) == reachable(final(self).ig.arcs@, source.0 as int, v)
                    &&& final(self).reached@[v] ==> is_shortest(
                        final(self).ig.arcs@,
                        source.0 as int,
                        v,
                        final(self).distances@[v] as int,
                    )
                },
    {
        if !self.weights_nonneg() {
            return Err(Status::BadInput);
        }
        let n = self.ig.num_nodes;
        let heads = self.ig.heads();
        let run = dijkstra_rows(
            n,
            &self.ig.start,
            &heads,
            &self.ig.weight,
            source.index(),
            self.ig.arcs,
            self.ig.arc_edge,
            self.ig.edge_arc,
        );
        let mut reached = BitVector::new(n);
        let mut i: usize = 0;
        while i < n
            invariant
                i <= n,
                run.visited@.len() == n,
                reached.wf(),
                reached@.len() == n,
                forall|j: int| 0 <= j < i ==> #[trigger] reached@[j] == run.visited@[j],
                forall|j: int| i <= j < n ==> !(#[trigger] reached@[j]),
            decreases n - i,
        {
            if run.visited[i] {
                reached.set(i, true);
            }
            i = i + 1;
        }
        self.reached = reached;
        self.distances = run.dist;
        proof {
            let es = self.ig.arcs@;
            let s = source.0 as int;
            assert forall|v: int| 0 <= v < n && #[trigger] self.reached@[v] implies is_shortest(
                es,
                s,
                v,
                self.distances@[v] as int,
            ) by {
                assert(opt_dist(self.distances@)[v] is Some);
            }
        }
        Ok(())
    }
}

impl ShortestPathSolver for Dijkstra {
    closed spec fn arcs(&self) -> Seq<(usize, usize, i64)> {
        self.ig.arcs@
    }

    closed spec fn node_count(&self) -> nat {
        self.ig.num_nodes as nat
    }

    closed spec fn distance_of(&self, u: int) -> Option<i64> {
        if self.reached@[u] {
            Some(self.distances@[u])
        } else {
            None
        }
    }

    closed spec fn well_formed(&self) -> bool {
        self.inv()
    }

    closed spec fn fits(&self) -> bool {
        self.ig.num_nodes * max_abs_weight(self.ig.arcs@, self.ig.arcs@.len() as int) < i64::MAX
    }

    fn new(graph: &Graph<Directed, (), WeightEdge>) -> (s: Self) {
        Dijkstra::new(graph)
    }

    fn solve(&mut self, source: NodeId) -> (r: Result<(), Status>)
        ensures
            r is Ok <==> nonneg_weights(old(self).arcs()),
            r is Err ==> r == Err::<(), Status>(Status::BadInput) && *final(self) == *old(self),
            r is Ok ==> forall|v: int|
                0 <= v < final(self).node_count() ==> ((#[trigger] final(self).distance_of(v)) is Some
                    <==> reachable(final(self).arcs(), source.0 as int, v)),
    {
        self.run(source)
    }

    fn distance(&self, u: NodeId) -> (d: Option<i64>) {
        if self.reached.get(u.index()) {
            Some(self.distances[u.index()])
        } else {
            None
        }
    }

    fn reached(&self, u: NodeId) -> (b: bool) {
        self.reached.get(u.index())
    }
}

} // verus!
