//! The residual network of a normalized network: each edge becomes a
//! forward arc and a backward arc, grouped by tail.
use crate::graph::graph::Edge;
use crate::graph::ids::{ArcId, EdgeId, NodeId};
use crate::maximum_flow::edge::CapEdge;
use crate::maximum_flow::flow::{balance, lemma_balance_update, lemma_balance_zero};
use crate::minimum_cost_flow::graph::VALUE_LIMIT;
use crate::minimum_cost_flow::normalized_network::{NormalizedEdge, NormalizedNetwork, SUPPLY_LIMIT};
use crate::shortest_path::csr::{arcs_of, csr_ok, group_by_tail, Rows};
use crate::shortest_path::walk::arcs_in;
use vstd::prelude::*;

verus! {

/// The most edges, original and added, a residual network holds.
pub const EDGE_LIMIT: usize = 0x20_0000;

/// The largest magnitude of a supply or of a sum of capacities in a
/// residual network.
pub const TOTAL_LIMIT: i64 = 0x1000_0400_0000_0000;

/// Arc `2e` is edge `e` from `u` to `v` at its cost, arc `2e + 1` the same
/// edge from `v` to `u` at minus its cost.
pub open spec fn doubled_arcs(es: Seq<NormalizedEdge>) -> Seq<(usize, usize, i64)> {
    Seq::new(
        2 * es.len(),
        |d: int|
            if d % 2 == 0 {
                (es[d / 2].u.0, es[d / 2].v.0, es[d / 2].cost)
            } else {
                (es[d / 2].v.0, es[d / 2].u.0, (-es[d / 2].cost) as i64)
            },
    )
}

/// The sum of the capacities of the first `k` edges.
pub open spec fn capacity_sum(es: Seq<NormalizedEdge>, k: int) -> int
    decreases k,
{
    if k <= 0 {
        0
    } else {
        capacity_sum(es, k - 1) + es[k - 1].upper
    }
}

/// The residual network: `residual_capacity[a]` is what arc `a` can still
/// carry; the flow on edge `e` is what its backward arc can carry.
pub struct ResidualNetwork {
    pub num_nodes: usize,
    pub num_edges: usize,
    pub edge_id_to_arc_id: Vec<ArcId>,
    pub start: Vec<usize>,
    pub to: Vec<NodeId>,
    pub upper: Vec<i64>,
    pub cost: Vec<i64>,
    pub rev: Vec<ArcId>,
    pub residual_capacity: Vec<i64>,
    pub excesses: Vec<i64>,
    pub potentials: Vec<i64>,
    pub num_nodes_original_graph: usize,
    pub num_edges_original_graph: usize,
    pub b: Vec<i64>,
    pub is_reversed_in_original_graph: Vec<bool>,
    pub lower_in_original_graph: Vec<i64>,
    /// The edges, original then added, in edge order.
    pub edges: Ghost<Seq<NormalizedEdge>>,
    /// The doubled arc at each position, and the position of each doubled arc.
    pub arc_edge: Ghost<Seq<int>>,
    pub edge_arc: Ghost<Seq<int>>,
    /// The balance of each node under the flow the network was built with.
    pub base_balance: Ghost<Seq<int>>,
}

impl ResidualNetwork {
    pub open spec fn to_indices(&self) -> Seq<usize> {
        self.to@.map_values(|v: NodeId| v.0)
    }

    /// The position of the forward arc of edge `e`.
    pub open spec fn fwd(&self, e: int) -> int {
        self.edge_arc@[2 * e]
    }

    /// The position of the backward arc of edge `e`.
    pub open spec fn bwd(&self, e: int) -> int {
        self.edge_arc@[2 * e + 1]
    }

    /// The flow on edge `e`.
    pub open spec fn flow(&self, e: int) -> int {
        self.residual_capacity@[self.bwd(e)] as int
    }

    /// The edges with their flows.
    pub open spec fn flow_edges(&self) -> Seq<Edge<CapEdge>> {
        Seq::new(
            self.edges@.len(),
            |e: int|
                Edge {
                    u: self.edges@[e].u,
                    v: self.edges@[e].v,
                    data: CapEdge { flow: self.flow(e) as i64, upper: self.edges@[e].upper },
                },
        )
    }

    /// The arcs, their rows and their pairing.
    #[verifier::opaque]
    pub open spec fn structure_ok(&self) -> bool {
        let n = self.num_nodes as int;
        let m = self.num_edges as int;
        let es = self.edges@;
        &&& m == es.len()
        &&& m <= EDGE_LIMIT
        &&& n < usize::MAX
        &&& self.start@.len() == n + 1
        &&& self.to@.len() == 2 * m
        &&& self.upper@.len() == 2 * m
        &&& self.cost@.len() == 2 * m
        &&& self.rev@.len() == 2 * m
        &&& self.residual_capacity@.len() == 2 * m
        &&& self.edge_id_to_arc_id@.len() == m
        &&& self.is_reversed_in_original_graph@.len() == m
        &&& self.lower_in_original_graph@.len() == m
        &&& self.excesses@.len() == n
        &&& self.potentials@.len() == n
        &&& self.b@.len() == n
        &&& self.base_balance@.len() == n
        &&& self.num_nodes_original_graph <= n
        &&& self.num_edges_original_graph <= m
        &&& arcs_in(doubled_arcs(es), n)
        &&& csr_ok(doubled_arcs(es), n, self.start@, self.to_indices(), self.cost@, self.arc_edge@, self.edge_arc@)
        &&& capacity_sum(es, m) <= TOTAL_LIMIT
        &&& forall|e: int|
            0 <= e < m ==> {
                let a = #[trigger] self.fwd(e);
                let r = self.bwd(e);
                &&& self.edge_id_to_arc_id@[e].0 == a
                &&& self.rev@[a].0 == r
                &&& self.rev@[r].0 == a
                &&& self.upper@[a] == es[e].upper
                &&& self.upper@[r] == es[e].upper
                &&& 0 <= es[e].upper
                &&& 0 <= es[e].cost
                &&& self.lower_in_original_graph@[e] == es[e].lower
                &&& self.is_reversed_in_original_graph@[e] == es[e].is_reversed
            }
        &&& forall|x: int| 0 <= x < n ==> -TOTAL_LIMIT <= #[trigger] self.b@[x] <= TOTAL_LIMIT
        &&& forall|x: int| 0 <= x < n ==> -TOTAL_LIMIT <= #[trigger] self.base_balance@[x] <= TOTAL_LIMIT
    }

    /// Each pair of arcs shares the capacity of its edge.
    #[verifier::opaque]
    pub open spec fn capacity_ok(&self) -> bool {
        forall|e: int|
            0 <= e < self.num_edges ==> {
                let a = #[trigger] self.fwd(e);
                let r = self.bwd(e);
                &&& 0 <= self.residual_capacity@[a]
                &&& 0 <= self.residual_capacity@[r]
                &&& self.residual_capacity@[a] + self.residual_capacity@[r] == self.edges@[e].upper
            }
    }

    /// The excess of each node is its supply plus what the flow brought it
    /// since the network was built.
    #[verifier::opaque]
    pub open spec fn excess_ok(&self) -> bool {
        forall|x: int|
            0 <= x < self.num_nodes ==> #[trigger] self.excesses@[x] == self.b@[x] + balance(
                self.flow_edges(),
                self.num_edges as int,
                x,
            ) - self.base_balance@[x]
    }

    /// Everything but the residual capacities and excesses is as in `other`.
    pub open spec fn same_except_flow(&self, other: ResidualNetwork) -> bool {
        &&& self.num_nodes == other.num_nodes
        &&& self.num_edges == other.num_edges
        &&& self.edge_id_to_arc_id == other.edge_id_to_arc_id
        &&& self.start == other.start
        &&& self.to == other.to
        &&& self.upper == other.upper
        &&& self.cost == other.cost
        &&& self.rev == other.rev
        &&& self.potentials == other.potentials
        &&& self.num_nodes_original_graph == other.num_nodes_original_graph
        &&& self.num_edges_original_graph == other.num_edges_original_graph
        &&& self.b == other.b
        &&& self.is_reversed_in_original_graph == other.is_reversed_in_original_graph
        &&& self.lower_in_original_graph == other.lower_in_original_graph
        &&& self.edges == other.edges
        &&& self.arc_edge == other.arc_edge
        &&& self.edge_arc == other.edge_arc
        &&& self.base_balance == other.base_balance
    }

    /// Everything but the potentials is as in `other`.
    pub open spec fn same_except_potentials(&self, other: ResidualNetwork) -> bool {
        &&& self.num_nodes == other.num_nodes
        &&& self.num_edges == other.num_edges
        &&& self.edge_id_to_arc_id == other.edge_id_to_arc_id
        &&& self.start == other.start
        &&& self.to == other.to
        &&& self.upper == other.upper
        &&& self.cost == other.cost
        &&& self.rev == other.rev
        &&& self.residual_capacity == other.residual_capacity
        &&& self.excesses == other.excesses
        &&& self.potentials@.len() == other.potentials@.len()
        &&& self.num_nodes_original_graph == other.num_nodes_original_graph
        &&& self.num_edges_original_graph == other.num_edges_original_graph
        &&& self.b == other.b
        &&& self.is_reversed_in_original_graph == other.is_reversed_in_original_graph
        &&& self.lower_in_original_graph == other.lower_in_original_graph
        &&& self.edges == other.edges
        &&& self.arc_edge == other.arc_edge
        &&& self.edge_arc == other.edge_arc
        &&& self.base_balance == other.base_balance
    }

    pub open spec fn wf(&self) -> bool {
        &&& self.structure_ok()
        &&& self.capacity_ok()
        &&& self.excess_ok()
    }
}


/// The sum of the capacities of the first `k` edges of a flow.
pub open spec fn cap_total(es: Seq<Edge<CapEdge>>, k: int) -> int
    decreases k,
{
    if k <= 0 {
        0
    } else {
        cap_total(es, k - 1) + es[k - 1].data.upper
    }
}

/// Within the capacities, no node gains or loses more than all capacities together.
pub proof fn lemma_balance_bound(es: Seq<Edge<CapEdge>>, k: int, x: int)
    requires
        0 <= k <= es.len(),
        forall|e: int| 0 <= e < es.len() ==> 0 <= (#[trigger] es[e]).data.flow <= es[e].data.upper,
    ensures
        -cap_total(es, k) <= balance(es, k, x) <= cap_total(es, k),
        0 <= cap_total(es, k),
    decreases k,
{
    if k > 0 {
        lemma_balance_bound(es, k - 1, x);
        assert(0 <= es[k - 1].data.flow <= es[k - 1].data.upper);
    }
}

proof fn lemma_cap_total(rn: ResidualNetwork, k: int)
    requires
        0 <= k <= rn.edges@.len(),
    ensures
        cap_total(rn.flow_edges(), k) == capacity_sum(rn.edges@, k),
    decreases k,
{
    if k > 0 {
        lemma_cap_total(rn, k - 1);
    }
}

/// The edges of `graph` followed by `extra`.
pub(crate) fn all_edges(graph: &NormalizedNetwork, extra: &[NormalizedEdge]) -> (r: Vec<NormalizedEdge>)
    ensures
        r@ == graph.normalized_edges() + extra@,
{
    let mut r = graph.iter_edges();
    let ghost first = r@;
    let mut i: usize = 0;
    while i < extra.len()
        invariant
            i <= extra@.len(),
            first == graph.normalized_edges(),
            r@ == first + extra@.subrange(0, i as int),
        decreases extra@.len() - i,
    {
        r.push(extra[i]);
        proof {
            assert(extra@.subrange(0, i + 1) =~= extra@.subrange(0, i as int).push(extra@[i as int]));
        }
        i = i + 1;
    }
    proof {
        assert(extra@.subrange(0, extra@.len() as int) =~= extra@);
    }
    r
}

/// The doubled arcs of `es` as edges and weights.
fn doubled_list(es: &Vec<NormalizedEdge>) -> (r: (Vec<Edge<()>>, Vec<i64>))
    requires
        forall|e: int| 0 <= e < es@.len() ==> 0 <= (#[trigger] es@[e]).cost,
        2 * es@.len() <= usize::MAX,
    ensures
        r.1@.len() == r.0@.len(),
        arcs_of(r.0@, r.1@) == doubled_arcs(es@),
{
    let mut dbl: Vec<Edge<()>> = Vec::new();
    let mut ws: Vec<i64> = Vec::new();
    let mut k: usize = 0;
    while k < es.len()
        invariant
            k <= es@.len(),
            forall|e: int| 0 <= e < es@.len() ==> 0 <= (#[trigger] es@[e]).cost,
            dbl@.len() == 2 * k,
            ws@.len() == 2 * k,
            forall|d: int| 0 <= d < 2 * k ==> (#[trigger] arcs_of(dbl@, ws@)[d]) == doubled_arcs(es@)[d],
        decreases es@.len() - k,
    {
        let e = es[k];
        proof {
            assert(0 <= es@[k as int].cost);
        }
        let ghost old_dbl = dbl@;
        let ghost old_ws = ws@;
        dbl.push(Edge { u: e.u, v: e.v, data: () });
        ws.push(e.cost);
        dbl.push(Edge { u: e.v, v: e.u, data: () });
        ws.push(-e.cost);
        proof {
            assert forall|d: int| 0 <= d < 2 * (k + 1) implies (#[trigger] arcs_of(dbl@, ws@)[d]) == doubled_arcs(
                es@,
            )[d] by {
                if d == 2 * k {
                    assert(d / 2 == k && d % 2 == 0);
                } else if d == 2 * k + 1 {
                    assert(d / 2 == k && d % 2 == 1);
                } else {
                    assert(arcs_of(old_dbl, old_ws)[d] == doubled_arcs(es@)[d]);
                    assert(dbl@[d] == old_dbl[d]);
                    assert(ws@[d] == old_ws[d]);
                }
            }
        }
        k = k + 1;
    }
    proof {
        assert(arcs_of(dbl@, ws@) =~= doubled_arcs(es@));
    }
    (dbl, ws)
}


/// The entries of `s`, or nothing.
pub open spec fn opt_seq<T>(s: Option<&[T]>) -> Seq<T> {
    match s {
        Some(x) => x@,
        None => Seq::empty(),
    }
}

/// The flow edge `e` starts with.
pub open spec fn initial_flow(init: Option<&[i64]>, e: int) -> i64 {
    match init {
        Some(f) => f@[e],
        None => 0,
    }
}

/// The extra supply of node `x`.
pub open spec fn fix_of(fix: Option<&[i64]>, x: int) -> int {
    match fix {
        Some(f) => f@[x] as int,
        None => 0,
    }
}

/// The per-arc and per-edge columns of a residual network.
struct ArcColumns {
    upper: Vec<i64>,
    rev: Vec<ArcId>,
    rc: Vec<i64>,
    edge_id_to_arc_id: Vec<ArcId>,
    lower: Vec<i64>,
    is_reversed: Vec<bool>,
}

/// Fills the columns of the arcs placed at `pos`.
#[verifier::rlimit(60)]
#[verifier::spinoff_prover]
fn fill_arcs(
    es: &Vec<NormalizedEdge>,
    pos: &Vec<usize>,
    init: Option<&[i64]>,
    n: usize,
    Ghost(start): Ghost<Seq<usize>>,
    Ghost(to): Ghost<Seq<usize>>,
    Ghost(w): Ghost<Seq<i64>>,
    Ghost(arc_edge): Ghost<Seq<int>>,
    Ghost(edge_arc): Ghost<Seq<int>>,
) -> (c: ArcColumns)
    requires
        csr_ok(doubled_arcs(es@), n as int, start, to, w, arc_edge, edge_arc),
        arcs_in(doubled_arcs(es@), n as int),
        pos@.len() == 2 * es@.len(),
        forall|d: int| 0 <= d < 2 * es@.len() ==> #[trigger] pos@[d] == edge_arc[d],
        init is Some ==> opt_seq(init).len() == es@.len(),
        forall|e: int|
            0 <= e < es@.len() ==> 0 <= #[trigger] initial_flow(init, e) <= es@[e].upper,
    ensures
        c.upper@.len() == 2 * es@.len(),
        c.rev@.len() == 2 * es@.len(),
        c.rc@.len() == 2 * es@.len(),
        c.edge_id_to_arc_id@.len() == es@.len(),
        c.lower@.len() == es@.len(),
        c.is_reversed@.len() == es@.len(),
        forall|e: int|
            0 <= e < es@.len() ==> {
                let a = #[trigger] edge_arc[2 * e];
                let r = edge_arc[2 * e + 1];
                &&& c.edge_id_to_arc_id@[e].0 == a
                &&& c.rev@[a].0 == r
                &&& c.rev@[r].0 == a
                &&& c.upper@[a] == es@[e].upper
                &&& c.upper@[r] == es@[e].upper
                &&& c.rc@[a] == es@[e].upper - initial_flow(init, e)
                &&& c.rc@[r] == initial_flow(init, e)
                &&& c.lower@[e] == es@[e].lower
                &&& c.is_reversed@[e] == es@[e].is_reversed
            },
{
    let m = es.len();
    let mut upper: Vec<i64> = vec![0i64; 2 * m];
    let mut rev: Vec<ArcId> = vec![ArcId(0); 2 * m];
    let mut rc: Vec<i64> = vec![0i64; 2 * m];
    let mut eid: Vec<ArcId> = Vec::new();
    let mut lower: Vec<i64> = Vec::new();
    let mut is_reversed: Vec<bool> = Vec::new();
    let mut e: usize = 0;
    while e < m
        invariant
            m == es@.len(),
            e <= m,
            csr_ok(doubled_arcs(es@), n as int, start, to, w, arc_edge, edge_arc),
            arcs_in(doubled_arcs(es@), n as int),
            pos@.len() == 2 * m,
            forall|d: int| 0 <= d < 2 * m ==> #[trigger] pos@[d] == edge_arc[d],
            init is Some ==> opt_seq(init).len() == m,
            forall|k: int| 0 <= k < m ==> 0 <= #[trigger] initial_flow(init, k) <= es@[k].upper,
            upper@.len() == 2 * m,
            rev@.len() == 2 * m,
            rc@.len() == 2 * m,
            eid@.len() == e,
            lower@.len() == e,
            is_reversed@.len() == e,
            forall|k: int|
                0 <= k < e ==> {
                    let a = #[trigger] edge_arc[2 * k];
                    let r = edge_arc[2 * k + 1];
                    &&& eid@[k].0 == a
                    &&& rev@[a].0 == r
                    &&& rev@[r].0 == a
                    &&& upper@[a] == es@[k].upper
                    &&& upper@[r] == es@[k].upper
                    &&& rc@[a] == es@[k].upper - initial_flow(init, k)
                    &&& rc@[r] == initial_flow(init, k)
                    &&& lower@[k] == es@[k].lower
                    &&& is_reversed@[k] == es@[k].is_reversed
                },
        decreases m - e,
    {
        let a = pos[2 * e];
        let r = pos[2 * e + 1];
        let ed = es[e];
        let f0: i64 = match init {
            Some(f) => f[e],
            None => 0,
        };
        proof {
            assert(0 <= initial_flow(init, e as int) <= es@[e as int].upper);
            assert(f0 == initial_flow(init, e as int));
            assert(arc_edge[a as int] == 2 * e);
            assert(arc_edge[r as int] == 2 * e + 1);
            let ds = doubled_arcs(es@);
            let ua = ds[2 * e].0 as int;
            let ur = ds[2 * e + 1].0 as int;
            assert(ua < n && ur < n);
            assert(start[ua + 1] <= start[n as int]);
            assert(start[ur + 1] <= start[n as int]);
        }
        upper.set(a, ed.upper);
        upper.set(r, ed.upper);
        rev.set(a, ArcId(r));
        rev.set(r, ArcId(a));
        rc.set(a, ed.upper - f0);
        rc.set(r, f0);
        eid.push(ArcId(a));
        lower.push(ed.lower);
        is_reversed.push(ed.is_reversed);
        proof {
            assert forall|k: int| 0 <= k < e + 1 implies {
                let a2 = #[trigger] edge_arc[2 * k];
                let r2 = edge_arc[2 * k + 1];
                &&& eid@[k].0 == a2
                &&& rev@[a2].0 == r2
                &&& rev@[r2].0 == a2
                &&& upper@[a2] == es@[k].upper
                &&& upper@[r2] == es@[k].upper
                &&& rc@[a2] == es@[k].upper - initial_flow(init, k)
                &&& rc@[r2] == initial_flow(init, k)
                &&& lower@[k] == es@[k].lower
                &&& is_reversed@[k] == es@[k].is_reversed
            } by {
                if k < e {
                    let a2 = edge_arc[2 * k];
                    let r2 = edge_arc[2 * k + 1];
                    assert(arc_edge[a2] == 2 * k);
                    assert(arc_edge[r2] == 2 * k + 1);
                }
            }
        }
        e = e + 1;
    }
    ArcColumns { upper, rev, rc, edge_id_to_arc_id: eid, lower, is_reversed }
}


/// The nodes of the residual network: those of `graph` and the added ones.
pub open spec fn total_nodes(graph: NormalizedNetwork, artificial_nodes: Option<&[NodeId]>) -> nat {
    graph.node_count() + opt_seq(artificial_nodes).len()
}

/// The edges of the residual network: those of `graph`, then the added ones.
pub open spec fn all_of(graph: NormalizedNetwork, artificial_edges: Option<&[NormalizedEdge]>) -> Seq<NormalizedEdge> {
    graph.normalized_edges() + opt_seq(artificial_edges)
}

/// The supply node `x` starts with.
pub open spec fn start_supply(graph: NormalizedNetwork, fix: Option<&[i64]>, x: int) -> int {
    (if x < graph.node_count() {
        graph.supplies()[x] as int
    } else {
        0
    }) + fix_of(fix, x)
}

fn to_node_ids(to: &Vec<usize>) -> (r: Vec<NodeId>)
    ensures
        r@.map_values(|v: NodeId| v.0) == to@,
{
    let mut r: Vec<NodeId> = Vec::new();
    let mut i: usize = 0;
    while i < to.len()
        invariant
            i <= to@.len(),
            r@.len() == i,
            forall|j: int| 0 <= j < i ==> (#[trigger] r@[j]).0 == to@[j],
        decreases to@.len() - i,
    {
        r.push(NodeId(to[i]));
        i = i + 1;
    }
    proof {
        assert(r@.map_values(|v: NodeId| v.0) =~= to@);
    }
    r
}

impl ResidualNetwork {
    /// Builds the residual network of `graph` with `artificial_nodes` more
    /// nodes and the `artificial_edges` after its own, each edge carrying
    /// its flow from `initial_flows` (zero by default) and each node its
    /// normalized supply plus its entry of `fix_excesses`.
    #[verifier::rlimit(100)]
    #[verifier::spinoff_prover]
    pub fn new(
        graph: &NormalizedNetwork,
        artificial_nodes: Option<&[NodeId]>,
        artificial_edges: Option<&[NormalizedEdge]>,
        initial_flows: Option<&[i64]>,
        fix_excesses: Option<&[i64]>,
    ) -> (rn: Self)
        requires
            graph.bounded(),
            total_nodes(*graph, artificial_nodes) <= EDGE_LIMIT,
            all_of(*graph, artificial_edges).len() <= EDGE_LIMIT,
            forall|e: int|
                0 <= e < opt_seq(artificial_edges).len() ==> {
                    let ne = #[trigger] opt_seq(artificial_edges)[e];
                    &&& ne.u.0 < total_nodes(*graph, artificial_nodes)
                    &&& ne.v.0 < total_nodes(*graph, artificial_nodes)
                    &&& 0 <= ne.cost
                    &&& 0 <= ne.upper
                },
            capacity_sum(all_of(*graph, artificial_edges), all_of(*graph, artificial_edges).len() as int)
                <= TOTAL_LIMIT,
            initial_flows is Some ==> opt_seq(initial_flows).len() == all_of(*graph, artificial_edges).len(),
            forall|e: int|
                0 <= e < all_of(*graph, artificial_edges).len() ==> 0 <= #[trigger] initial_flow(initial_flows, e)
                    <= all_of(*graph, artificial_edges)[e].upper,
            fix_excesses is Some ==> opt_seq(fix_excesses).len() >= total_nodes(*graph, artificial_nodes),
            forall|x: int|
                0 <= x < total_nodes(*graph, artificial_nodes) ==> -TOTAL_LIMIT <= #[trigger] start_supply(
                    *graph,
                    fix_excesses,
                    x,
                ) <= TOTAL_LIMIT,
        ensures
            rn.wf(),
            rn.edges@ == all_of(*graph, artificial_edges),
            rn.num_nodes == total_nodes(*graph, artificial_nodes),
            rn.num_nodes_original_graph == graph.node_count(),
            rn.num_edges_original_graph == graph.normalized_edges().len(),
            rn.original_ok(),
            forall|x: int|
                0 <= x < rn.num_nodes ==> {
                    &&& #[trigger] rn.b@[x] == start_supply(*graph, fix_excesses, x)
                    &&& rn.excesses@[x] == rn.b@[x]
                    &&& rn.potentials@[x] == 0
                },
            forall|e: int| 0 <= e < rn.num_edges ==> #[trigger] rn.flow(e) == initial_flow(initial_flows, e),
            forall|x: int|
                0 <= x < rn.num_nodes ==> #[trigger] rn.base_balance@[x] == balance(rn.flow_edges(), rn.num_edges as int, x),
    {
        let n = graph.num_nodes();
        let gb = graph.excesses();
        let num_art_nodes: usize = match artificial_nodes {
            Some(a) => a.len(),
            None => 0,
        };
        let nt = n + num_art_nodes;
        let empty: Vec<NormalizedEdge> = Vec::new();
        let extra: &[NormalizedEdge] = match artificial_edges {
            Some(a) => a,
            None => empty.as_slice(),
        };
        proof {
            assert(extra@ == opt_seq(artificial_edges));
        }
        let all = all_edges(graph, extra);
        let ghost es = all@;
        proof {
            assert forall|e: int| 0 <= e < es.len() implies 0 <= (#[trigger] es[e]).cost && 0 <= es[e].upper && es[e].u.0
                < nt && es[e].v.0 < nt by {
                if e < graph.normalized_edges().len() {
                    assert(es[e] == graph.normalized_edges()[e]);
                } else {
                    assert(es[e] == opt_seq(artificial_edges)[e - graph.normalized_edges().len()]);
                }
            }
        }
        let (dbl, ws) = doubled_list(&all);
        proof {
            assert(arcs_in(doubled_arcs(es), nt as int)) by {
                assert forall|d: int| 0 <= d < doubled_arcs(es).len() implies (#[trigger] doubled_arcs(es)[d]).0 < nt
                    && doubled_arcs(es)[d].1 < nt by {
                    assert(es[d / 2].u.0 < nt && es[d / 2].v.0 < nt);
                }
            }
        }
        let rows = group_by_tail(nt, dbl.as_slice(), &ws);
        let cols = fill_arcs(
            &all,
            &rows.pos,
            initial_flows,
            nt,
            Ghost(rows.start@),
            Ghost(rows.to@),
            Ghost(rows.weight@),
            rows.arc_edge,
            rows.edge_arc,
        );
        let to = to_node_ids(&rows.to);
        let mut b: Vec<i64> = Vec::new();
        let mut x: usize = 0;
        while x < nt
            invariant
                x <= nt,
                n == graph.node_count(),
                gb@ == graph.supplies(),
                graph.bounded(),
                nt == total_nodes(*graph, artificial_nodes),
                fix_excesses is Some ==> opt_seq(fix_excesses).len() >= nt,
                forall|y: int|
                    0 <= y < nt ==> -TOTAL_LIMIT <= #[trigger] start_supply(*graph, fix_excesses, y) <= TOTAL_LIMIT,
                b@.len() == x,
                forall|y: int| 0 <= y < x ==> #[trigger] b@[y] == start_supply(*graph, fix_excesses, y),
            decreases nt - x,
        {
            let own: i64 = if x < n {
                gb[x]
            } else {
                0
            };
            let extra_supply: i64 = match fix_excesses {
                Some(f) => f[x],
                None => 0,
            };
            proof {
                assert(-TOTAL_LIMIT <= start_supply(*graph, fix_excesses, x as int) <= TOTAL_LIMIT);
                if x < n {
                    assert(-SUPPLY_LIMIT <= graph.supplies()[x as int] <= SUPPLY_LIMIT);
                }
            }
            b.push(own + extra_supply);
            x = x + 1;
        }
        let rn = assemble(n, graph.num_edges(), all, rows, cols, to, b, Ghost(initial_flows));
        proof {
            assert forall|e: int| 0 <= e < rn.num_edges_original_graph implies {
                let ne = #[trigger] rn.edges@[e];
                &&& 0 <= ne.upper <= 2 * VALUE_LIMIT
                &&& 0 <= ne.cost <= VALUE_LIMIT
                &&& -VALUE_LIMIT <= ne.lower <= VALUE_LIMIT
                &&& ne.lower + ne.upper <= VALUE_LIMIT
            } by {
                assert(rn.edges@[e] == graph.normalized_edges()[e]);
            }
        }
        rn
    }
}

proof fn lemma_structure_ok(rn: ResidualNetwork)
    requires
        ({
            let n = rn.num_nodes as int;
            let m = rn.num_edges as int;
            let es = rn.edges@;
            &&& m == es.len()
            &&& m <= EDGE_LIMIT
            &&& n < usize::MAX
            &&& rn.start@.len() == n + 1
            &&& rn.to@.len() == 2 * m
            &&& rn.upper@.len() == 2 * m
            &&& rn.cost@.len() == 2 * m
            &&& rn.rev@.len() == 2 * m
            &&& rn.residual_capacity@.len() == 2 * m
            &&& rn.edge_id_to_arc_id@.len() == m
            &&& rn.is_reversed_in_original_graph@.len() == m
            &&& rn.lower_in_original_graph@.len() == m
            &&& rn.excesses@.len() == n
            &&& rn.potentials@.len() == n
            &&& rn.b@.len() == n
            &&& rn.base_balance@.len() == n
            &&& rn.num_nodes_original_graph <= n
            &&& rn.num_edges_original_graph <= m
            &&& arcs_in(doubled_arcs(es), n)
            &&& csr_ok(doubled_arcs(es), n, rn.start@, rn.to_indices(), rn.cost@, rn.arc_edge@, rn.edge_arc@)
            &&& capacity_sum(es, m) <= TOTAL_LIMIT
            &&& forall|e: int|
                0 <= e < m ==> {
                    let a = #[trigger] rn.fwd(e);
                    let r = rn.bwd(e);
                    &&& rn.edge_id_to_arc_id@[e].0 == a
                    &&& rn.rev@[a].0 == r
                    &&& rn.rev@[r].0 == a
                    &&& rn.upper@[a] == es[e].upper
                    &&& rn.upper@[r] == es[e].upper
                    &&& 0 <= es[e].upper
                    &&& 0 <= es[e].cost
                    &&& rn.lower_in_original_graph@[e] == es[e].lower
                    &&& rn.is_reversed_in_original_graph@[e] == es[e].is_reversed
                }
            &&& forall|x: int| 0 <= x < n ==> -TOTAL_LIMIT <= #[trigger] rn.b@[x] <= TOTAL_LIMIT
            &&& forall|x: int| 0 <= x < n ==> -TOTAL_LIMIT <= #[trigger] rn.base_balance@[x] <= TOTAL_LIMIT
        }),
    ensures
        rn.structure_ok(),
{
    reveal(ResidualNetwork::structure_ok);
}

/// Puts the columns together and records the balance of the starting flow.
#[verifier::rlimit(100)]
#[verifier::spinoff_prover]
fn assemble(
    n: usize,
    m: usize,
    all: Vec<NormalizedEdge>,
    rows: Rows,
    cols: ArcColumns,
    to: Vec<NodeId>,
    b: Vec<i64>,
    Ghost(init): Ghost<Option<&[i64]>>,
) -> (rn: ResidualNetwork)
    requires
        n <= b@.len(),
        m <= all@.len(),
        all@.len() <= EDGE_LIMIT,
        b@.len() < usize::MAX,
        rows.start@.len() == b@.len() + 1,
        arcs_in(doubled_arcs(all@), b@.len() as int),
        csr_ok(doubled_arcs(all@), b@.len() as int, rows.start@, rows.to@, rows.weight@, rows.arc_edge@, rows.edge_arc@),
        to@.map_values(|v: NodeId| v.0) == rows.to@,
        capacity_sum(all@, all@.len() as int) <= TOTAL_LIMIT,
        forall|e: int| 0 <= e < all@.len() ==> 0 <= (#[trigger] all@[e]).upper,
        forall|e: int| 0 <= e < all@.len() ==> 0 <= (#[trigger] all@[e]).cost,
        forall|e: int| 0 <= e < all@.len() ==> 0 <= #[trigger] initial_flow(init, e) <= all@[e].upper,
        forall|x: int| 0 <= x < b@.len() ==> -TOTAL_LIMIT <= #[trigger] b@[x] <= TOTAL_LIMIT,
        cols.upper@.len() == 2 * all@.len(),
        cols.rev@.len() == 2 * all@.len(),
        cols.rc@.len() == 2 * all@.len(),
        cols.edge_id_to_arc_id@.len() == all@.len(),
        cols.lower@.len() == all@.len(),
        cols.is_reversed@.len() == all@.len(),
        forall|e: int|
            0 <= e < all@.len() ==> {
                let a = #[trigger] rows.edge_arc@[2 * e];
                let r = rows.edge_arc@[2 * e + 1];
                &&& cols.edge_id_to_arc_id@[e].0 == a
                &&& cols.rev@[a].0 == r
                &&& cols.rev@[r].0 == a
                &&& cols.upper@[a] == all@[e].upper
                &&& cols.upper@[r] == all@[e].upper
                &&& cols.rc@[a] == all@[e].upper - initial_flow(init, e)
                &&& cols.rc@[r] == initial_flow(init, e)
                &&& cols.lower@[e] == all@[e].lower
                &&& cols.is_reversed@[e] == all@[e].is_reversed
            },
    ensures
        rn.wf(),
        rn.edges@ == all@,
        rn.num_nodes == b@.len(),
        rn.num_nodes_original_graph == n,
        rn.num_edges_original_graph == m,
        rn.b@ == b@,
        rn.excesses@ == b@,
        forall|x: int| 0 <= x < rn.num_nodes ==> #[trigger] rn.potentials@[x] == 0,
        forall|e: int| 0 <= e < rn.num_edges ==> #[trigger] rn.flow(e) == initial_flow(init, e),
        forall|x: int| 0 <= x < rn.num_nodes ==> #[trigger] rn.base_balance@[x] == balance(rn.flow_edges(), rn.num_edges as int, x),
{
    let nt = b.len();
    let excesses = b.clone();
    let ghost es = all@;
    let mut rn = ResidualNetwork {
        num_nodes: nt,
        num_edges: all.len(),
        edge_id_to_arc_id: cols.edge_id_to_arc_id,
        start: rows.start,
        to,
        upper: cols.upper,
        cost: rows.weight,
        rev: cols.rev,
        residual_capacity: cols.rc,
        excesses,
        potentials: vec![0i64; nt],
        num_nodes_original_graph: n,
        num_edges_original_graph: m,
        b,
        is_reversed_in_original_graph: cols.is_reversed,
        lower_in_original_graph: cols.lower,
        edges: Ghost(es),
        arc_edge: rows.arc_edge,
        edge_arc: rows.edge_arc,
        base_balance: Ghost(Seq::empty()),
    };
    let ghost fe = rn.flow_edges();
    rn.base_balance = Ghost(Seq::new(nt as nat, |y: int| balance(fe, es.len() as int, y)));
    proof {
        assert(rn.flow_edges() =~= fe);
        assert forall|e: int| 0 <= e < es.len() implies #[trigger] rn.flow(e) == initial_flow(init, e) by {
            assert(rn.fwd(e) == rn.edge_arc@[2 * e]);
        }
        assert(rn.capacity_ok()) by {
            reveal(ResidualNetwork::capacity_ok);
            assert forall|e: int| 0 <= e < rn.num_edges implies {
                let a = #[trigger] rn.fwd(e);
                let r = rn.bwd(e);
                &&& 0 <= rn.residual_capacity@[a]
                &&& 0 <= rn.residual_capacity@[r]
                &&& rn.residual_capacity@[a] + rn.residual_capacity@[r] == rn.edges@[e].upper
            } by {
                assert(rn.fwd(e) == rn.edge_arc@[2 * e]);
            }
        }
        assert(rn.excess_ok()) by {
            reveal(ResidualNetwork::excess_ok);
        }
        assert forall|e: int| 0 <= e < fe.len() implies 0 <= (#[trigger] fe[e]).data.flow <= fe[e].data.upper by {
            assert(rn.flow(e) == initial_flow(init, e));
        }
        lemma_cap_total(rn, es.len() as int);
        assert forall|y: int| 0 <= y < nt implies -TOTAL_LIMIT <= #[trigger] rn.base_balance@[y] <= TOTAL_LIMIT by {
            lemma_balance_bound(fe, es.len() as int, y);
        }
        assert(rn.to_indices() =~= rows.to@);
        assert forall|e: int| 0 <= e < es.len() implies {
            let a = #[trigger] rn.fwd(e);
            let r = rn.bwd(e);
            &&& rn.edge_id_to_arc_id@[e].0 == a
            &&& rn.rev@[a].0 == r
            &&& rn.rev@[r].0 == a
            &&& rn.upper@[a] == es[e].upper
            &&& rn.upper@[r] == es[e].upper
            &&& 0 <= es[e].upper
            &&& 0 <= es[e].cost
            &&& rn.lower_in_original_graph@[e] == es[e].lower
            &&& rn.is_reversed_in_original_graph@[e] == es[e].is_reversed
        } by {
            assert(rn.fwd(e) == rn.edge_arc@[2 * e]);
        }
        lemma_structure_ok(rn);
    }
    rn
}


/// The position of the doubled arc `d` is in the row of its tail, and the
/// arc there is `d` again.
pub proof fn lemma_arc_of(rn: ResidualNetwork, d: int)
    requires
        rn.structure_ok(),
        0 <= d < 2 * rn.num_edges,
    ensures
        ({
            let a = rn.edge_arc@[d];
            let t = doubled_arcs(rn.edges@)[d].0 as int;
            &&& 0 <= t < rn.num_nodes
            &&& rn.start@[t] <= a < rn.start@[t + 1]
            &&& rn.arc_edge@[a] == d
            &&& 0 <= a < 2 * rn.num_edges
        }),
{
    reveal(ResidualNetwork::structure_ok);
    let t = doubled_arcs(rn.edges@)[d].0 as int;
    assert(rn.start@[t + 1] <= rn.start@[rn.num_nodes as int]);
}

/// The arc at position `a` in the row of `t` is a doubled arc leaving `t`.
pub proof fn lemma_arc_at(rn: ResidualNetwork, t: int, a: int)
    requires
        rn.structure_ok(),
        0 <= t < rn.num_nodes,
        rn.start@[t] <= a < rn.start@[t + 1],
    ensures
        ({
            let d = rn.arc_edge@[a];
            let e = d / 2;
            &&& 0 <= d < 2 * rn.num_edges
            &&& doubled_arcs(rn.edges@)[d] == (t as usize, rn.to@[a].0, rn.cost@[a])
            &&& rn.edge_arc@[d] == a
            &&& 0 <= e < rn.num_edges
            &&& (d % 2 == 0 ==> a == rn.fwd(e) && rn.rev@[a].0 == rn.bwd(e))
            &&& (d % 2 == 1 ==> a == rn.bwd(e) && rn.rev@[a].0 == rn.fwd(e))
            &&& 0 <= a < 2 * rn.num_edges
            &&& 0 <= rn.to@[a].0 < rn.num_nodes
        }),
{
    reveal(ResidualNetwork::structure_ok);
    let d = rn.arc_edge@[a];
    let e = d / 2;
    assert(rn.to_indices()[a] == rn.to@[a].0);
    assert(rn.start@[t + 1] <= rn.start@[rn.num_nodes as int]);
    if d % 2 == 0 {
        assert(2 * e == d);
    } else {
        assert(2 * e + 1 == d);
    }
    assert(rn.fwd(e) == rn.edge_arc@[2 * e]);
    assert(doubled_arcs(rn.edges@)[d].1 < rn.num_nodes);
}

impl ResidualNetwork {
    /// The positions of the arcs leaving `u`.
    #[inline]
    pub fn neighbors(&self, u: NodeId) -> (r: std::ops::Range<usize>)
        requires
            self.wf(),
            u.0 < self.num_nodes,
        ensures
            r.start == self.start@[u.0 as int],
            r.end == self.start@[u.0 + 1],
    {
        proof {
            reveal(ResidualNetwork::structure_ok);
        }
        self.start[u.0]..self.start[u.0 + 1]
    }

    /// What arc `arc_id` can still carry.
    pub fn residual_capacity(&self, arc_id: ArcId) -> (r: i64)
        requires
            arc_id.0 < self.residual_capacity@.len(),
        ensures
            r == self.residual_capacity@[arc_id.0 as int],
    {
        self.residual_capacity[arc_id.0]
    }

    /// The cost of arc `arc_id` out of `u` less the potential of `u` plus
    /// the potential of its head.
    #[inline]
    pub fn reduced_cost(&self, u: NodeId, arc_id: ArcId) -> (r: i64)
        requires
            self.wf(),
            u.0 < self.num_nodes,
            arc_id.0 < self.cost@.len(),
            self.to@[arc_id.0 as int].0 < self.num_nodes,
            i64::MIN <= self.cost@[arc_id.0 as int] - self.potentials@[u.0 as int] <= i64::MAX,
            i64::MIN <= self.cost@[arc_id.0 as int] - self.potentials@[u.0 as int] + self.potentials@[self.to@[
                arc_id.0 as int].0 as int] <= i64::MAX,
        ensures
            r == self.cost@[arc_id.0 as int] - self.potentials@[u.0 as int] + self.potentials@[self.to@[
                arc_id.0 as int].0 as int],
    {
        proof {
            reveal(ResidualNetwork::structure_ok);
        }
        self.cost[arc_id.0] - self.potentials[u.0] + self.potentials[self.to[arc_id.0].0]
    }

    /// Minus the reduced cost of arc `arc_id` out of `u`.
    #[inline]
    pub fn reduced_cost_rev(&self, u: NodeId, arc_id: ArcId) -> (r: i64)
        requires
            self.wf(),
            u.0 < self.num_nodes,
            arc_id.0 < self.cost@.len(),
            self.to@[arc_id.0 as int].0 < self.num_nodes,
            i64::MIN <= self.cost@[arc_id.0 as int] - self.potentials@[u.0 as int] <= i64::MAX,
            i64::MIN < self.cost@[arc_id.0 as int] - self.potentials@[u.0 as int] + self.potentials@[self.to@[
                arc_id.0 as int].0 as int] <= i64::MAX,
        ensures
            r == -(self.cost@[arc_id.0 as int] - self.potentials@[u.0 as int] + self.potentials@[self.to@[
                arc_id.0 as int].0 as int]),
    {
        proof {
            reveal(ResidualNetwork::structure_ok);
        }
        -(self.cost[arc_id.0] - self.potentials[u.0] + self.potentials[self.to[arc_id.0].0])
    }

    /// `rn1` is `rn0` after `flow` units went along arc `a` out of `u`.
    pub open spec fn pushed(rn0: ResidualNetwork, rn1: ResidualNetwork, u: int, a: int, flow: int) -> bool {
        &&& rn1.same_except_flow(rn0)
        &&& rn1.residual_capacity@ == rn0.residual_capacity@.update(
            a,
            (rn0.residual_capacity@[a] - flow) as i64,
        ).update(rn0.rev@[a].0 as int, (rn0.residual_capacity@[rn0.rev@[a].0 as int] + flow) as i64)
        &&& rn1.excesses@.len() == rn0.excesses@.len()
        &&& forall|x: int|
            0 <= x < rn0.num_nodes ==> #[trigger] rn1.excesses@[x] == rn0.excesses@[x] - (if x == u {
                flow
            } else {
                0int
            }) + (if x == rn0.to@[a].0 {
                flow
            } else {
                0int
            })
    }

    /// Sends `flow` units along arc `arc_id` out of `u`: the arc can carry
    /// `flow` less, its partner `flow` more, `u` loses `flow` units of
    /// excess and the head of the arc gains them.
    pub fn push_flow(&mut self, u: NodeId, arc_id: ArcId, flow: i64)
        requires
            old(self).wf(),
            u.0 < old(self).num_nodes,
            old(self).start@[u.0 as int] <= arc_id.0 < old(self).start@[u.0 + 1],
            0 <= flow <= old(self).residual_capacity@[arc_id.0 as int],
        ensures
            final(self).wf(),
            final(self).same_except_flow(*old(self)),
            final(self).residual_capacity@ == old(self).residual_capacity@.update(
                arc_id.0 as int,
                (old(self).residual_capacity@[arc_id.0 as int] - flow) as i64,
            ).update(
                old(self).rev@[arc_id.0 as int].0 as int,
                (old(self).residual_capacity@[old(self).rev@[arc_id.0 as int].0 as int] + flow) as i64,
            ),
            final(self).excesses@.len() == old(self).excesses@.len(),
            forall|x: int|
                0 <= x < old(self).num_nodes ==> #[trigger] final(self).excesses@[x] == old(self).excesses@[x] - (
                if x == u.0 {
                    flow as int
                } else {
                    0int
                }) + (if x == old(self).to@[arc_id.0 as int].0 {
                    flow as int
                } else {
                    0int
                }),
            ResidualNetwork::pushed(*old(self), *final(self), u.0 as int, arc_id.0 as int, flow as int),
    {
        let ghost old_rn = *self;
        proof {
            lemma_arc_at(old_rn, u.0 as int, arc_id.0 as int);
            lemma_shape(old_rn);
            lemma_push_facts(old_rn, u.0 as int, arc_id.0 as int, flow as int);
        }
        let rev = self.rev[arc_id.0];
        let to = self.to[arc_id.0];
        let rc_a = self.residual_capacity[arc_id.0];
        self.residual_capacity.set(arc_id.0, rc_a - flow);
        let rc_r = self.residual_capacity[rev.0];
        self.residual_capacity.set(rev.0, rc_r + flow);
        let ex_u = self.excesses[u.0];
        self.excesses.set(u.0, ex_u - flow);
        let ex_t = self.excesses[to.0];
        self.excesses.set(to.0, ex_t + flow);
        proof {
            lemma_push_wf(old_rn, *self, u.0 as int, arc_id.0 as int, flow as int);
        }
    }
}

/// The two arcs of edge `e` and how they sit among the arcs of the others.
pub proof fn lemma_pair(rn: ResidualNetwork, e: int)
    requires
        rn.structure_ok(),
        0 <= e < rn.num_edges,
    ensures
        0 <= rn.fwd(e) < 2 * rn.num_edges,
        0 <= rn.bwd(e) < 2 * rn.num_edges,
        rn.fwd(e) != rn.bwd(e),
        rn.arc_edge@[rn.fwd(e)] == 2 * e,
        rn.arc_edge@[rn.bwd(e)] == 2 * e + 1,
        rn.rev@[rn.fwd(e)].0 == rn.bwd(e),
        rn.rev@[rn.bwd(e)].0 == rn.fwd(e),
        rn.upper@[rn.fwd(e)] == rn.edges@[e].upper,
        rn.upper@[rn.bwd(e)] == rn.edges@[e].upper,
        0 <= rn.edges@[e].upper,
        forall|k: int|
            0 <= k < rn.num_edges && k != e ==> #[trigger] rn.fwd(k) != rn.fwd(e) && rn.fwd(k) != rn.bwd(e) && rn.bwd(
                k,
            ) != rn.fwd(e) && rn.bwd(k) != rn.bwd(e),
{
    reveal(ResidualNetwork::structure_ok);
    lemma_arc_of(rn, 2 * e);
    lemma_arc_of(rn, 2 * e + 1);
    assert forall|k: int| 0 <= k < rn.num_edges && k != e implies #[trigger] rn.fwd(k) != rn.fwd(e) && rn.fwd(k) != rn.bwd(
        e,
    ) && rn.bwd(k) != rn.fwd(e) && rn.bwd(k) != rn.bwd(e) by {
        assert(rn.arc_edge@[rn.fwd(k)] == 2 * k);
        assert(rn.arc_edge@[rn.bwd(k)] == 2 * k + 1);
    }
}

/// Lengths and bounds that hold of every well-formed network.
pub proof fn lemma_shape(rn: ResidualNetwork)
    requires
        rn.structure_ok(),
    ensures
        rn.num_edges == rn.edges@.len(),
        rn.num_edges <= EDGE_LIMIT,
        rn.num_nodes < usize::MAX,
        rn.start@.len() == rn.num_nodes + 1,
        rn.to@.len() == 2 * rn.num_edges,
        rn.upper@.len() == 2 * rn.num_edges,
        rn.cost@.len() == 2 * rn.num_edges,
        rn.rev@.len() == 2 * rn.num_edges,
        rn.residual_capacity@.len() == 2 * rn.num_edges,
        rn.edge_id_to_arc_id@.len() == rn.num_edges,
        rn.is_reversed_in_original_graph@.len() == rn.num_edges,
        rn.lower_in_original_graph@.len() == rn.num_edges,
        rn.excesses@.len() == rn.num_nodes,
        rn.potentials@.len() == rn.num_nodes,
        rn.b@.len() == rn.num_nodes,
        rn.base_balance@.len() == rn.num_nodes,
        rn.num_nodes_original_graph <= rn.num_nodes,
        rn.num_edges_original_graph <= rn.num_edges,
        capacity_sum(rn.edges@, rn.num_edges as int) <= TOTAL_LIMIT,
        forall|x: int| 0 <= x < rn.num_nodes ==> -TOTAL_LIMIT <= #[trigger] rn.b@[x] <= TOTAL_LIMIT,
        forall|x: int| 0 <= x < rn.num_nodes ==> -TOTAL_LIMIT <= #[trigger] rn.base_balance@[x] <= TOTAL_LIMIT,
        forall|e: int|
            0 <= e < rn.num_edges ==> #[trigger] rn.edge_id_to_arc_id@[e].0 == rn.fwd(e) && rn.lower_in_original_graph@[e]
                == rn.edges@[e].lower && rn.is_reversed_in_original_graph@[e] == rn.edges@[e].is_reversed,
        forall|e: int| 0 <= e < rn.num_edges ==> 0 <= (#[trigger] rn.edges@[e]).upper && 0 <= rn.edges@[e].cost,
{
    reveal(ResidualNetwork::structure_ok);
    assert forall|e: int| 0 <= e < rn.num_edges implies 0 <= (#[trigger] rn.edges@[e]).upper && 0 <= rn.edges@[e].cost by {
        assert(rn.fwd(e) == rn.edge_arc@[2 * e]);
    }
    assert forall|e: int| 0 <= e < rn.num_edges implies #[trigger] rn.edge_id_to_arc_id@[e].0 == rn.fwd(e)
        && rn.lower_in_original_graph@[e] == rn.edges@[e].lower && rn.is_reversed_in_original_graph@[e]
        == rn.edges@[e].is_reversed by {
        assert(rn.fwd(e) == rn.edge_arc@[2 * e]);
    }
}

/// Every edge carries between zero and its capacity, and no balance
/// exceeds the capacities together.
pub proof fn lemma_flow_bounds(rn: ResidualNetwork)
    requires
        rn.structure_ok(),
        rn.capacity_ok(),
    ensures
        forall|k: int|
            0 <= k < rn.num_edges ==> 0 <= #[trigger] rn.flow(k) <= rn.edges@[k].upper && rn.residual_capacity@[rn.fwd(k)]
                == rn.edges@[k].upper - rn.flow(k),
        forall|x: int|
            -TOTAL_LIMIT <= #[trigger] balance(rn.flow_edges(), rn.num_edges as int, x) <= TOTAL_LIMIT,
{
    lemma_shape(rn);
    reveal(ResidualNetwork::capacity_ok);
    assert forall|k: int| 0 <= k < rn.num_edges implies 0 <= #[trigger] rn.flow(k) <= rn.edges@[k].upper
        && rn.residual_capacity@[rn.fwd(k)] == rn.edges@[k].upper - rn.flow(k) by {
        assert(0 <= rn.residual_capacity@[rn.fwd(k)]);
    }
    let fe = rn.flow_edges();
    assert forall|k: int| 0 <= k < fe.len() implies 0 <= (#[trigger] fe[k]).data.flow <= fe[k].data.upper by {
        assert(0 <= rn.flow(k) <= rn.edges@[k].upper);
    }
    lemma_cap_total(rn, rn.num_edges as int);
    assert forall|x: int| -TOTAL_LIMIT <= #[trigger] balance(fe, rn.num_edges as int, x) <= TOTAL_LIMIT by {
        lemma_balance_bound(fe, rn.num_edges as int, x);
    }
}

/// The excess of `x` in terms of the flow.
pub proof fn lemma_excess_of(rn: ResidualNetwork, x: int)
    requires
        rn.excess_ok(),
        0 <= x < rn.num_nodes,
    ensures
        rn.excesses@[x] == rn.b@[x] + balance(rn.flow_edges(), rn.num_edges as int, x) - rn.base_balance@[x],
{
    reveal(ResidualNetwork::excess_ok);
}

/// The partner of an arc is another position, and the moved amounts fit.
pub(crate) proof fn lemma_push_facts(rn: ResidualNetwork, u: int, a: int, flow: int)
    requires
        rn.wf(),
        0 <= u < rn.num_nodes,
        rn.start@[u] <= a < rn.start@[u + 1],
        0 <= flow <= rn.residual_capacity@[a],
    ensures
        0 <= a < rn.residual_capacity@.len(),
        0 <= rn.rev@[a].0 < rn.residual_capacity@.len(),
        rn.rev@[a].0 != a,
        0 <= rn.to@[a].0 < rn.num_nodes,
        rn.residual_capacity@[rn.rev@[a].0 as int] + flow <= i64::MAX,
        rn.excesses@.len() == rn.num_nodes,
        i64::MIN <= rn.excesses@[u] - flow,
        rn.excesses@[rn.to@[a].0 as int] + flow - (if rn.to@[a].0 == u { flow } else { 0 }) <= i64::MAX,
{
    lemma_arc_at(rn, u, a);
    lemma_shape(rn);
    let d = rn.arc_edge@[a];
    let e = d / 2;
    lemma_pair(rn, e);
    lemma_flow_bounds(rn);
    let t = rn.to@[a].0 as int;
    lemma_excess_of(rn, u);
    lemma_excess_of(rn, t);
    assert(0 <= rn.flow(e) <= rn.edges@[e].upper);
    assert(rn.edges@[e].upper <= capacity_sum(rn.edges@, rn.num_edges as int)) by {
        lemma_capacity_le(rn.edges@, rn.num_edges as int, e);
    }
}

/// One capacity is at most the sum of all, all being at least zero.
proof fn lemma_capacity_le(es: Seq<NormalizedEdge>, k: int, e: int)
    requires
        0 <= e < k <= es.len(),
        forall|i: int| 0 <= i < k ==> 0 <= (#[trigger] es[i]).upper,
    ensures
        es[e].upper <= capacity_sum(es, k),
    decreases k,
{
    if e < k - 1 {
        lemma_capacity_le(es, k - 1, e);
        assert(0 <= es[k - 1].upper);
    } else if k > 1 {
        lemma_capacity_nonneg(es, k - 1);
    }
}

proof fn lemma_capacity_nonneg(es: Seq<NormalizedEdge>, k: int)
    requires
        0 <= k <= es.len(),
        forall|i: int| 0 <= i < k ==> 0 <= (#[trigger] es[i]).upper,
    ensures
        0 <= capacity_sum(es, k),
    decreases k,
{
    if k > 0 {
        lemma_capacity_nonneg(es, k - 1);
        assert(0 <= es[k - 1].upper);
    }
}

/// The arcs and their rows do not depend on the flow.
#[verifier::rlimit(100)]
proof fn lemma_structure_frame(old_rn: ResidualNetwork, rn: ResidualNetwork)
    requires
        old_rn.structure_ok(),
        rn.same_except_flow(old_rn),
        rn.residual_capacity@.len() == old_rn.residual_capacity@.len(),
        rn.excesses@.len() == old_rn.excesses@.len(),
    ensures
        rn.structure_ok(),
{
    reveal(ResidualNetwork::structure_ok);
    assert(rn.to_indices() == old_rn.to_indices());
    let es = rn.edges@;
    assert forall|e: int| 0 <= e < rn.num_edges implies {
        let a = #[trigger] rn.fwd(e);
        let r = rn.bwd(e);
        &&& rn.edge_id_to_arc_id@[e].0 == a
        &&& rn.rev@[a].0 == r
        &&& rn.rev@[r].0 == a
        &&& rn.upper@[a] == es[e].upper
        &&& rn.upper@[r] == es[e].upper
        &&& 0 <= es[e].upper
        &&& 0 <= es[e].cost
        &&& rn.lower_in_original_graph@[e] == es[e].lower
        &&& rn.is_reversed_in_original_graph@[e] == es[e].is_reversed
    } by {
        assert(old_rn.fwd(e) == rn.fwd(e));
    }
}

/// Pushing along an arc keeps the network well formed.
#[verifier::rlimit(60)]
#[verifier::spinoff_prover]
proof fn lemma_push_wf(old_rn: ResidualNetwork, rn: ResidualNetwork, u: int, a: int, flow: int)
    requires
        old_rn.wf(),
        0 <= u < old_rn.num_nodes,
        old_rn.start@[u] <= a < old_rn.start@[u + 1],
        0 <= flow <= old_rn.residual_capacity@[a],
        rn.same_except_flow(old_rn),
        old_rn.rev@[a].0 != a,
        rn.residual_capacity@ == old_rn.residual_capacity@.update(a, (old_rn.residual_capacity@[a] - flow) as i64).update(
            old_rn.rev@[a].0 as int,
            (old_rn.residual_capacity@[old_rn.rev@[a].0 as int] + flow) as i64,
        ),
        rn.excesses@.len() == old_rn.excesses@.len(),
        forall|x: int|
            0 <= x < old_rn.num_nodes ==> #[trigger] rn.excesses@[x] == old_rn.excesses@[x] - (if x == u {
                flow
            } else {
                0int
            }) + (if x == old_rn.to@[a].0 {
                flow
            } else {
                0int
            }),
    ensures
        rn.wf(),
{
    lemma_arc_at(old_rn, u, a);
    lemma_shape(old_rn);
    let d = old_rn.arc_edge@[a];
    let e = d / 2;
    lemma_pair(old_rn, e);
    let m = old_rn.num_edges as int;
    lemma_structure_frame(old_rn, rn);
    let new_flow = if d % 2 == 0 {
        old_rn.flow(e) + flow
    } else {
        old_rn.flow(e) - flow
    };
    let fe0 = old_rn.flow_edges();
    let ed = Edge { u: fe0[e].u, v: fe0[e].v, data: CapEdge { flow: new_flow as i64, upper: fe0[e].data.upper } };
    assert forall|k: int| 0 <= k < m && k != e implies #[trigger] rn.flow(k) == old_rn.flow(k) by {
        lemma_pair(old_rn, k);
        assert(old_rn.fwd(k) != old_rn.fwd(e));
        assert(rn.bwd(k) != old_rn.fwd(e) && rn.bwd(k) != old_rn.bwd(e));
    }
    lemma_push_facts(old_rn, u, a, flow);
    if d % 2 == 0 {
        assert(a == old_rn.fwd(e));
        assert(old_rn.rev@[a].0 == old_rn.bwd(e));
    } else {
        assert(a == old_rn.bwd(e));
        assert(old_rn.rev@[a].0 == old_rn.fwd(e));
    }
    assert(rn.flow(e) == new_flow);
    assert(rn.flow_edges() =~= fe0.update(e, ed));
    assert(rn.capacity_ok()) by {
        reveal(ResidualNetwork::capacity_ok);
        assert forall|k: int| 0 <= k < rn.num_edges implies {
            let a2 = #[trigger] rn.fwd(k);
            let r2 = rn.bwd(k);
            &&& 0 <= rn.residual_capacity@[a2]
            &&& 0 <= rn.residual_capacity@[r2]
            &&& rn.residual_capacity@[a2] + rn.residual_capacity@[r2] == rn.edges@[k].upper
        } by {
            lemma_pair(old_rn, k);
            if k != e {
                assert(old_rn.fwd(k) != old_rn.fwd(e));
                assert(rn.fwd(k) != old_rn.fwd(e) && rn.fwd(k) != old_rn.bwd(e));
                assert(rn.bwd(k) != old_rn.fwd(e) && rn.bwd(k) != old_rn.bwd(e));
            }
        }
    }
    assert(rn.excess_ok()) by {
        reveal(ResidualNetwork::excess_ok);
        assert forall|x: int| 0 <= x < rn.num_nodes implies #[trigger] rn.excesses@[x] == rn.b@[x] + balance(
            rn.flow_edges(),
            m,
            x,
        ) - rn.base_balance@[x] by {
            lemma_balance_update(fe0, m, e, ed, x);
        }
    }
}


impl ResidualNetwork {
    /// The edges of the original graph are within the value limits.
    pub open spec fn original_ok(&self) -> bool {
        &&& self.num_edges_original_graph <= VALUE_LIMIT
        &&& forall|e: int|
            0 <= e < self.num_edges_original_graph ==> {
                let ne = #[trigger] self.edges@[e];
                &&& 0 <= ne.upper <= 2 * VALUE_LIMIT
                &&& 0 <= ne.cost <= VALUE_LIMIT
                &&& -VALUE_LIMIT <= ne.lower <= VALUE_LIMIT
                &&& ne.lower + ne.upper <= VALUE_LIMIT
            }
    }

    /// The flow on original edge `e` in the direction and with the lower
    /// bound of the original graph.
    pub open spec fn original_flow(&self, e: int) -> int {
        let ne = self.edges@[e];
        if ne.is_reversed {
            ne.upper + ne.lower - self.flow(e)
        } else {
            self.flow(e) + ne.lower
        }
    }

    /// The cost of original edge `e` in the original graph.
    pub open spec fn original_cost(&self, e: int) -> int {
        let ne = self.edges@[e];
        if ne.is_reversed {
            -ne.cost
        } else {
            ne.cost as int
        }
    }

    /// The cost of the flow on the first `k` original edges.
    pub open spec fn objective(&self, k: int) -> int
        decreases k,
    {
        if k <= 0 {
            0
        } else {
            self.objective(k - 1) + self.original_cost(k - 1) * self.original_flow(k - 1)
        }
    }

    /// The flow on original edge `edge_id` in the original graph.
    pub(crate) fn flow_original_graph(&self, edge_id: EdgeId) -> (f: i64)
        requires
            self.wf(),
            self.original_ok(),
            edge_id.0 < self.num_edges_original_graph,
        ensures
            f == self.original_flow(edge_id.0 as int),
            -VALUE_LIMIT <= f <= VALUE_LIMIT,
    {
        let ghost e = edge_id.0 as int;
        proof {
            lemma_shape(*self);
            lemma_pair(*self, e);
            lemma_flow_bounds(*self);
            assert(0 <= self.edges@[e].upper <= 2 * VALUE_LIMIT);
            assert(self.edge_id_to_arc_id@[e].0 == self.fwd(e));
            assert(0 <= self.flow(e) <= self.edges@[e].upper);
        }
        let arc_id = self.edge_id_to_arc_id[edge_id.0];
        let flow = self.upper[arc_id.0] - self.residual_capacity[arc_id.0];
        if self.is_reversed_in_original_graph[edge_id.0] {
            self.upper[arc_id.0] + self.lower_in_original_graph[edge_id.0] - flow
        } else {
            flow + self.lower_in_original_graph[edge_id.0]
        }
    }

    /// The flows on the original edges, in edge order.
    pub(crate) fn flows_original_graph(&self) -> (fs: Vec<i64>)
        requires
            self.wf(),
            self.original_ok(),
        ensures
            fs@.len() == self.num_edges_original_graph,
            forall|e: int| 0 <= e < fs@.len() ==> #[trigger] fs@[e] == self.original_flow(e),
    {
        let mut fs: Vec<i64> = Vec::new();
        let mut e: usize = 0;
        while e < self.num_edges_original_graph
            invariant
                self.wf(),
                self.original_ok(),
                e <= self.num_edges_original_graph,
                fs@.len() == e,
                forall|k: int| 0 <= k < e ==> #[trigger] fs@[k] == self.original_flow(k),
            decreases self.num_edges_original_graph - e,
        {
            fs.push(self.flow_original_graph(EdgeId(e)));
            e = e + 1;
        }
        fs
    }

    /// The cost of the flow in the original graph.
    pub fn calculate_objective_value_original_graph(&self) -> (v: i64)
        requires
            self.wf(),
            self.original_ok(),
        ensures
            v == self.objective(self.num_edges_original_graph as int),
    {
        let mut objective_value: i64 = 0;
        let mut e: usize = 0;
        while e < self.num_edges_original_graph
            invariant
                self.wf(),
                self.original_ok(),
                e <= self.num_edges_original_graph,
                objective_value == self.objective(e as int),
                -e * (VALUE_LIMIT * VALUE_LIMIT) <= objective_value <= e * (VALUE_LIMIT * VALUE_LIMIT),
            decreases self.num_edges_original_graph - e,
        {
            proof {
                lemma_shape(*self);
                lemma_pair(*self, e as int);
                assert(0 <= self.edges@[e as int].cost <= VALUE_LIMIT);
                assert(self.edge_id_to_arc_id@[e as int].0 == self.fwd(e as int));
                lemma_cost_of_fwd(*self, e as int);
            }
            let arc_id = self.edge_id_to_arc_id[e];
            let cost: i64 = if self.is_reversed_in_original_graph[e] {
                -self.cost[arc_id.0]
            } else {
                self.cost[arc_id.0]
            };
            let f = self.flow_original_graph(EdgeId(e));
            proof {
                assert(cost == self.original_cost(e as int));
                assert(-VALUE_LIMIT * VALUE_LIMIT <= cost * f <= VALUE_LIMIT * VALUE_LIMIT) by (nonlinear_arith)
                    requires
                        -VALUE_LIMIT <= cost <= VALUE_LIMIT,
                        -VALUE_LIMIT <= f <= VALUE_LIMIT,
                ;
                assert(e * (VALUE_LIMIT * VALUE_LIMIT) + VALUE_LIMIT * VALUE_LIMIT == (e + 1) * (VALUE_LIMIT
                    * VALUE_LIMIT)) by (nonlinear_arith);
                assert((e + 1) * (VALUE_LIMIT * VALUE_LIMIT) <= VALUE_LIMIT * (VALUE_LIMIT * VALUE_LIMIT))
                    by (nonlinear_arith)
                    requires
                        e + 1 <= VALUE_LIMIT,
                ;
                assert(-(e + 1) * (VALUE_LIMIT * VALUE_LIMIT) == -e * (VALUE_LIMIT * VALUE_LIMIT) - VALUE_LIMIT * VALUE_LIMIT)
                    by (nonlinear_arith);
            }
            objective_value = objective_value + cost * f;
            e = e + 1;
        }
        objective_value
    }

    /// Whether some node still has a non-zero excess.
    pub fn have_excess(&self) -> (r: bool)
        requires
            self.wf(),
        ensures
            r == exists|x: int| 0 <= x < self.num_nodes && #[trigger] self.excesses@[x] != 0,
    {
        proof {
            lemma_shape(*self);
        }
        let mut x: usize = 0;
        while x < self.num_nodes
            invariant
                self.wf(),
                self.excesses@.len() == self.num_nodes,
                x <= self.num_nodes,
                forall|y: int| 0 <= y < x ==> #[trigger] self.excesses@[y] == 0,
            decreases self.num_nodes - x,
        {
            if self.excesses[x] != 0 {
                return true;
            }
            x = x + 1;
        }
        false
    }

    /// Whether some added edge carries flow.
    pub fn have_flow_in_artificial_arc(&self) -> (r: bool)
        requires
            self.wf(),
        ensures
            r == exists|e: int|
                self.num_edges_original_graph <= e < self.num_edges && #[trigger] self.flow(e) != 0,
    {
        proof {
            lemma_shape(*self);
            lemma_flow_bounds(*self);
        }
        let mut e: usize = self.num_edges_original_graph;
        while e < self.num_edges
            invariant
                self.wf(),
                self.num_edges_original_graph <= e <= self.num_edges,
                self.edge_id_to_arc_id@.len() == self.num_edges,
                forall|k: int| self.num_edges_original_graph <= k < e ==> #[trigger] self.flow(k) == 0,
            decreases self.num_edges - e,
        {
            proof {
                lemma_shape(*self);
                lemma_pair(*self, e as int);
                lemma_flow_bounds(*self);
            }
            let arc_id = self.edge_id_to_arc_id[e];
            if self.residual_capacity[arc_id.0] != self.upper[arc_id.0] {
                proof {
                    assert(self.edge_id_to_arc_id@[e as int].0 == self.fwd(e as int));
                    assert(self.flow(e as int) != 0);
                }
                return true;
            }
            proof {
                assert(self.edge_id_to_arc_id@[e as int].0 == self.fwd(e as int));
                assert(self.flow(e as int) == 0);
            }
            e = e + 1;
        }
        false
    }

    /// The potential of node `node_id`.
    pub(crate) fn potential_original_graph(&self, node_id: NodeId) -> (p: i64)
        requires
            self.wf(),
            node_id.0 < self.num_nodes,
        ensures
            p == self.potentials@[node_id.0 as int],
    {
        proof {
            lemma_shape(*self);
        }
        self.potentials[node_id.0]
    }

    /// The potentials of the nodes of the original graph.
    pub(crate) fn potentials_original_graph(&self) -> (ps: Vec<i64>)
        requires
            self.wf(),
        ensures
            ps@ == self.potentials@.subrange(0, self.num_nodes_original_graph as int),
    {
        proof {
            lemma_shape(*self);
        }
        let mut ps: Vec<i64> = Vec::new();
        let mut x: usize = 0;
        while x < self.num_nodes_original_graph
            invariant
                self.wf(),
                self.potentials@.len() == self.num_nodes,
                self.num_nodes_original_graph <= self.num_nodes,
                x <= self.num_nodes_original_graph,
                ps@ == self.potentials@.subrange(0, x as int),
            decreases self.num_nodes_original_graph - x,
        {
            ps.push(self.potentials[x]);
            proof {
                assert(ps@ =~= self.potentials@.subrange(0, x + 1));
            }
            x = x + 1;
        }
        ps
    }
}

/// The forward arc of an edge has the edge's cost.
pub proof fn lemma_cost_of_fwd(rn: ResidualNetwork, e: int)
    requires
        rn.structure_ok(),
        0 <= e < rn.num_edges,
    ensures
        rn.cost@[rn.fwd(e)] == rn.edges@[e].cost,
        rn.cost@[rn.bwd(e)] == (-rn.edges@[e].cost) as i64,
{
    lemma_shape(rn);
    lemma_pair(rn, e);
    lemma_arc_of(rn, 2 * e);
    lemma_arc_of(rn, 2 * e + 1);
    let ds = doubled_arcs(rn.edges@);
    let t = ds[2 * e].0 as int;
    let t2 = ds[2 * e + 1].0 as int;
    lemma_arc_at(rn, t, rn.fwd(e));
    lemma_arc_at(rn, t2, rn.bwd(e));
    assert((2 * e) / 2 == e && (2 * e) % 2 == 0);
    assert((2 * e + 1) / 2 == e && (2 * e + 1) % 2 == 1);
    assert(ds[2 * e].2 == rn.edges@[e].cost);
    assert(ds[2 * e + 1].2 == (-rn.edges@[e].cost) as i64);
    assert(ds[rn.arc_edge@[rn.fwd(e)]] == (t as usize, rn.to@[rn.fwd(e)].0, rn.cost@[rn.fwd(e)]));
    assert(ds[rn.arc_edge@[rn.bwd(e)]] == (t2 as usize, rn.to@[rn.bwd(e)].0, rn.cost@[rn.bwd(e)]));
}


/// Changing only the potentials keeps the network well formed.
pub proof fn lemma_potentials_frame(old_rn: ResidualNetwork, rn: ResidualNetwork)
    requires
        old_rn.wf(),
        rn.num_nodes == old_rn.num_nodes,
        rn.num_edges == old_rn.num_edges,
        rn.edge_id_to_arc_id == old_rn.edge_id_to_arc_id,
        rn.start == old_rn.start,
        rn.to == old_rn.to,
        rn.upper == old_rn.upper,
        rn.cost == old_rn.cost,
        rn.rev == old_rn.rev,
        rn.residual_capacity == old_rn.residual_capacity,
        rn.excesses == old_rn.excesses,
        rn.potentials@.len() == old_rn.potentials@.len(),
        rn.num_nodes_original_graph == old_rn.num_nodes_original_graph,
        rn.num_edges_original_graph == old_rn.num_edges_original_graph,
        rn.b == old_rn.b,
        rn.is_reversed_in_original_graph == old_rn.is_reversed_in_original_graph,
        rn.lower_in_original_graph == old_rn.lower_in_original_graph,
        rn.edges == old_rn.edges,
        rn.arc_edge == old_rn.arc_edge,
        rn.edge_arc == old_rn.edge_arc,
        rn.base_balance == old_rn.base_balance,
    ensures
        rn.wf(),
{
    assert(rn.flow_edges() =~= old_rn.flow_edges());
    assert(rn.structure_ok()) by {
        reveal(ResidualNetwork::structure_ok);
        assert(rn.to_indices() == old_rn.to_indices());
        let es = rn.edges@;
        assert forall|e: int| 0 <= e < rn.num_edges implies {
            let a = #[trigger] rn.fwd(e);
            let r = rn.bwd(e);
            &&& rn.edge_id_to_arc_id@[e].0 == a
            &&& rn.rev@[a].0 == r
            &&& rn.rev@[r].0 == a
            &&& rn.upper@[a] == es[e].upper
            &&& rn.upper@[r] == es[e].upper
            &&& 0 <= es[e].upper
            &&& 0 <= es[e].cost
            &&& rn.lower_in_original_graph@[e] == es[e].lower
            &&& rn.is_reversed_in_original_graph@[e] == es[e].is_reversed
        } by {
            assert(old_rn.fwd(e) == rn.fwd(e));
        }
    }
    assert(rn.capacity_ok()) by {
        reveal(ResidualNetwork::capacity_ok);
        assert forall|e: int| 0 <= e < rn.num_edges implies {
            let a = #[trigger] rn.fwd(e);
            let r = rn.bwd(e);
            &&& 0 <= rn.residual_capacity@[a]
            &&& 0 <= rn.residual_capacity@[r]
            &&& rn.residual_capacity@[a] + rn.residual_capacity@[r] == rn.edges@[e].upper
        } by {
            assert(old_rn.fwd(e) == rn.fwd(e));
        }
    }
    assert(rn.excess_ok()) by {
        reveal(ResidualNetwork::excess_ok);
    }
}


/// An arc in the row of `t` is one of the two arcs of its edge, and its
/// ends are the ends of that edge.
pub proof fn lemma_arc_edge(rn: ResidualNetwork, t: int, a: int)
    requires
        rn.structure_ok(),
        0 <= t < rn.num_nodes,
        rn.start@[t] <= a < rn.start@[t + 1],
    ensures
        ({
            let k = rn.arc_edge@[a] / 2;
            let e = rn.edges@[k];
            &&& 0 <= k < rn.num_edges
            &&& (a == rn.fwd(k) && rn.rev@[a].0 == rn.bwd(k) && t == e.u.0 && rn.to@[a].0 == e.v.0)
                || (a == rn.bwd(k) && rn.rev@[a].0 == rn.fwd(k) && t == e.v.0 && rn.to@[a].0 == e.u.0)
        }),
{
    lemma_arc_at(rn, t, a);
    lemma_shape(rn);
    let d = rn.arc_edge@[a];
    let k = d / 2;
    let ds = doubled_arcs(rn.edges@);
    if d % 2 == 0 {
        assert(ds[d] == (rn.edges@[k].u.0, rn.edges@[k].v.0, rn.edges@[k].cost));
    } else {
        assert(ds[d] == (rn.edges@[k].v.0, rn.edges@[k].u.0, (-rn.edges@[k].cost) as i64));
    }
}

/// A network without nodes has no edges.
pub proof fn lemma_no_nodes(rn: ResidualNetwork)
    requires
        rn.structure_ok(),
        rn.num_nodes == 0,
    ensures
        rn.num_edges == 0,
{
    reveal(ResidualNetwork::structure_ok);
    if rn.num_edges > 0 {
        assert(doubled_arcs(rn.edges@)[0].0 < rn.num_nodes);
    }
}

} // verus!
