use crate::graph::direction::Directed;
use crate::graph::graph::{Edge, Graph};
use crate::graph::ids::{EdgeId, NodeId};
use crate::shortest_path::csr::{
    arcs_of, csr_ok, edge_weights, group_by_tail, in_edge_order, weighted_arcs, WeightEdge,
};
use crate::shortest_path::walk::arcs_in;
use vstd::prelude::*;

verus! {

/// The arcs of a graph grouped by tail, with the tails of the arcs as
/// `NodeId`s; built from a shortest path graph or from any graph with a
/// weight function.
pub struct InternalGraph {
    pub num_nodes: usize,
    pub _num_edges: usize,
    pub start: Vec<usize>,
    pub to: Vec<NodeId>,
    pub weight: Vec<i64>,
    /// The arcs `(u, v, w)` of the graph the rows were built from, in edge order.
    pub arcs: Ghost<Seq<(usize, usize, i64)>>,
    pub arc_edge: Ghost<Seq<int>>,
    pub edge_arc: Ghost<Seq<int>>,
}

impl InternalGraph {
    /// The heads of the arcs as indices.
    pub open spec fn to_indices(&self) -> Seq<usize> {
        self.to@.map_values(|v: NodeId| v.0)
    }

    pub open spec fn wf(&self) -> bool {
        &&& self.num_nodes + 1 == self.start@.len()
        &&& self._num_edges == self.arcs@.len()
        &&& self.num_nodes < usize::MAX
        &&& arcs_in(self.arcs@, self.num_nodes as int)
        &&& csr_ok(self.arcs@, self.num_nodes as int, self.start@, self.to_indices(), self.weight@, self.arc_edge@, self.edge_arc@)
    }

    /// The rows of the arcs `es` of a graph of `n` nodes, out of the column of indices `to`.
    fn from_rows(n: usize, m: usize, start: Vec<usize>, to: Vec<usize>, weight: Vec<i64>, Ghost(es): Ghost<Seq<(usize, usize, i64)>>, Ghost(arc_edge): Ghost<Seq<int>>, Ghost(edge_arc): Ghost<Seq<int>>) -> (ig: Self)
        requires
            n < usize::MAX,
            m == es.len(),
            arcs_in(es, n as int),
            csr_ok(es, n as int, start@, to@, weight@, arc_edge, edge_arc),
        ensures
            ig.wf(),
            ig.arcs@ == es,
            ig.num_nodes == n,
            ig.edge_arc@ == edge_arc,
    {
        let mut ids: Vec<NodeId> = Vec::new();
        let mut i: usize = 0;
        while i < to.len()
            invariant
                i <= to@.len(),
                ids@.len() == i,
                forall|j: int| 0 <= j < i ==> (#[trigger] ids@[j]).0 == to@[j],
            decreases to@.len() - i,
        {
            ids.push(NodeId(to[i]));
            i = i + 1;
        }
        let ig = InternalGraph {
            num_nodes: n,
            _num_edges: m,
            start,
            to: ids,
            weight,
            arcs: Ghost(es),
            arc_edge: Ghost(arc_edge),
            edge_arc: Ghost(edge_arc),
        };
        assert(ig.to_indices() =~= to@);
        ig
    }

    /// The rows of a shortest path graph.
    pub fn new(graph: &Graph<Directed, (), WeightEdge>) -> (ig: Self)
        requires
            graph.endpoints_valid(),
            graph.nodes@.len() < usize::MAX,
        ensures
            ig.wf(),
            ig.arcs@ == weighted_arcs(*graph),
            ig.num_nodes == graph.nodes@.len(),
            in_edge_order(ig.arcs@, ig.edge_arc@),
    {
        let ws = edge_weights(graph);
        Self::build(graph.num_nodes(), graph.edges(), ws)
    }

    /// Groups the edges of `edges`, weighed by `ws`, by tail.
    pub fn build<E>(n: usize, edges: &[Edge<E>], ws: Vec<i64>) -> (ig: Self)
        requires
            ws@.len() == edges@.len(),
            n < usize::MAX,
            forall|i: int| 0 <= i < edges@.len() ==> (#[trigger] edges@[i]).u.0 < n && edges@[i].v.0 < n,
        ensures
            ig.wf(),
            ig.arcs@ == arcs_of(edges@, ws@),
            ig.num_nodes == n,
            in_edge_order(ig.arcs@, ig.edge_arc@),
    {
        proof {
            assert(arcs_in(arcs_of(edges@, ws@), n as int)) by {
                assert forall|e: int| 0 <= e < arcs_of(edges@, ws@).len() implies (#[trigger] arcs_of(edges@, ws@)[e]).0
                    < n && arcs_of(edges@, ws@)[e].1 < n by {
                    assert(edges@[e].u.0 < n);
                }
            }
        }
        let rows = group_by_tail(n, edges, &ws);
        Self::from_rows(n, edges.len(), rows.start, rows.to, rows.weight, Ghost(arcs_of(edges@, ws@)), rows.arc_edge, rows.edge_arc)
    }

    /// The rows of any directed graph whose edge `i` weighs `weight_fn(EdgeId(i), &edges[i])`.
    pub fn new_graph_with<N, E, WF>(graph: &Graph<Directed, N, E>, weight_fn: WF) -> (ig: Self)
        where
            WF: Fn(EdgeId, &Edge<E>) -> i64,
        requires
            graph.endpoints_valid(),
            graph.nodes@.len() < usize::MAX,
            forall|i: usize| i < graph.edges@.len() ==> #[trigger] weight_fn.requires((EdgeId(i), &graph.edges@[i as int])),
        ensures
            ig.wf(),
            ig.num_nodes == graph.nodes@.len(),
            ig.arcs@.len() == graph.edges@.len(),
            forall|i: int|
                0 <= i < graph.edges@.len() ==> #[trigger] ig.arcs@[i].0 == graph.edges@[i].u.0 && ig.arcs@[i].1 == graph.edges@[i].v.0
                    && weight_fn.ensures((EdgeId(i as usize), &graph.edges@[i]), ig.arcs@[i].2),
            in_edge_order(ig.arcs@, ig.edge_arc@),
    {
        let ws = Self::build_graph_with(graph, weight_fn);
        Self::build(graph.nodes.len(), graph.edges.as_slice(), ws)
    }

    /// The weights `weight_fn` gives the edges of `graph`, in edge order.
    fn build_graph_with<N, E, WF>(graph: &Graph<Directed, N, E>, weight_fn: WF) -> (ws: Vec<i64>)
        where
            WF: Fn(EdgeId, &Edge<E>) -> i64,
        requires
            forall|i: usize| i < graph.edges@.len() ==> #[trigger] weight_fn.requires((EdgeId(i), &graph.edges@[i as int])),
        ensures
            ws@.len() == graph.edges@.len(),
            forall|i: int| 0 <= i < graph.edges@.len() ==> weight_fn.ensures((EdgeId(i as usize), &graph.edges@[i]), #[trigger] ws@[i]),
    {
        let mut ws: Vec<i64> = Vec::new();
        let mut i: usize = 0;
        while i < graph.edges.len()
            invariant
                i <= graph.edges@.len(),
                ws@.len() == i,
                forall|j: usize| j < graph.edges@.len() ==> #[trigger] weight_fn.requires((EdgeId(j), &graph.edges@[j as int])),
                forall|j: int| 0 <= j < i ==> weight_fn.ensures((EdgeId(j as usize), &graph.edges@[j]), #[trigger] ws@[j]),
            decreases graph.edges@.len() - i,
        {
            let w = weight_fn(EdgeId(i), &graph.edges[i]);
            ws.push(w);
            i = i + 1;
        }
        ws
    }

    /// The heads of the arcs as indices, in row order.
    pub fn heads(&self) -> (r: Vec<usize>)
        ensures
            r@ == self.to_indices(),
    {
        let mut r: Vec<usize> = Vec::new();
        let mut i: usize = 0;
        while i < self.to.len()
            invariant
                i <= self.to@.len(),
                r@ == self.to_indices().subrange(0, i as int),
            decreases self.to@.len() - i,
        {
            r.push(self.to[i].index());
            i = i + 1;
        }
        r
    }

    /// The positions of the arcs of `u`.
    #[inline]
    pub fn neighbors(&self, u: NodeId) -> (r: std::ops::Range<usize>)
        requires
            self.wf(),
            u.0 < self.num_nodes,
        ensures
            r.start == self.start@[u.0 as int],
            r.end == self.start@[u.0 + 1],
    {
        self.start[u.index()]..self.start[u.index() + 1]
    }
}

} // verus!
