//! The network with every cost made non-negative and every lower bound
//! moved into the supplies.
use crate::graph::direction::Directed;
use crate::graph::graph::{Edge, Graph};
use crate::graph::ids::NodeId;
use crate::minimum_cost_flow::edge::{MinimumCostFlowEdge, MinimumCostFlowNode};
use crate::minimum_cost_flow::graph::{network_ok, VALUE_LIMIT};
use vstd::prelude::*;

verus! {

/// The largest magnitude of a supply after normalization.
pub const SUPPLY_LIMIT: i64 = 0x100_0010_0000;

/// An edge of the normalized network: it carries between 0 and `upper`
/// units at a non-negative `cost`; `lower` is the lower bound of the edge it
/// comes from, and `is_reversed` says it points the other way.
#[derive(Clone, Copy, Debug, PartialEq, Eq, Structural)]
pub struct NormalizedEdge {
    pub u: NodeId,
    pub v: NodeId,
    pub lower: i64,
    pub upper: i64,
    pub cost: i64,
    pub is_reversed: bool,
}

/// The normalized form of `e`: an edge of negative cost is turned around
/// and its cost negated; the capacity becomes `upper - lower`.
pub open spec fn normalize(e: Edge<MinimumCostFlowEdge>) -> NormalizedEdge {
    if e.data.cost < 0 {
        NormalizedEdge {
            u: e.v,
            v: e.u,
            lower: e.data.lower,
            upper: (e.data.upper - e.data.lower) as i64,
            cost: (-e.data.cost) as i64,
            is_reversed: true,
        }
    } else {
        NormalizedEdge {
            u: e.u,
            v: e.v,
            lower: e.data.lower,
            upper: (e.data.upper - e.data.lower) as i64,
            cost: e.data.cost,
            is_reversed: false,
        }
    }
}

/// What the normalization of `e` moves into the supply of `x`: the lower
/// bound, or for a turned edge the upper bound, is sent from `u` to `v` in advance.
pub open spec fn supply_shift(e: Edge<MinimumCostFlowEdge>, x: int) -> int {
    let amount = if e.data.cost >= 0 {
        e.data.lower as int
    } else {
        e.data.upper as int
    };
    (if e.v.0 == x {
        amount
    } else {
        0
    }) - (if e.u.0 == x {
        amount
    } else {
        0
    })
}

/// The supply of `x` after normalizing the first `k` edges.
pub open spec fn normalized_b(g: Graph<Directed, MinimumCostFlowNode, MinimumCostFlowEdge>, k: int, x: int) -> int
    decreases k,
{
    if k <= 0 {
        g.nodes@[x].b as int
    } else {
        normalized_b(g, k - 1, x) + supply_shift(g.edges@[k - 1], x)
    }
}

proof fn lemma_normalized_b_bound(g: Graph<Directed, MinimumCostFlowNode, MinimumCostFlowEdge>, k: int, x: int)
    requires
        network_ok(g),
        0 <= k <= g.edges@.len(),
        0 <= x < g.nodes@.len(),
    ensures
        -VALUE_LIMIT * (k + 1) <= normalized_b(g, k, x) <= VALUE_LIMIT * (k + 1),
    decreases k,
{
    if k > 0 {
        lemma_normalized_b_bound(g, k - 1, x);
        let d = g.edges@[k - 1].data;
        assert(-VALUE_LIMIT <= d.lower <= d.upper <= VALUE_LIMIT);
    }
}

/// The normalized network of a graph: its supplies and edges.
pub struct NormalizedNetwork {
    num_nodes: usize,
    b: Vec<i64>,
    edges: Vec<NormalizedEdge>,
}

impl NormalizedNetwork {
    pub closed spec fn node_count(&self) -> nat {
        self.num_nodes as nat
    }

    /// The supplies after normalization.
    pub closed spec fn supplies(&self) -> Seq<i64> {
        self.b@
    }

    /// The normalized edges, in edge order.
    pub closed spec fn normalized_edges(&self) -> Seq<NormalizedEdge> {
        self.edges@
    }

    /// Sizes and values are small enough for the sums the solvers form.
    pub open spec fn bounded(&self) -> bool {
        &&& self.node_count() <= VALUE_LIMIT
        &&& self.normalized_edges().len() <= VALUE_LIMIT
        &&& self.supplies().len() == self.node_count()
        &&& forall|x: int|
            0 <= x < self.node_count() ==> -SUPPLY_LIMIT <= #[trigger] self.supplies()[x] <= SUPPLY_LIMIT
        &&& forall|e: int|
            0 <= e < self.normalized_edges().len() ==> {
                let ne = #[trigger] self.normalized_edges()[e];
                &&& ne.u.0 < self.node_count()
                &&& ne.v.0 < self.node_count()
                &&& 0 <= ne.upper <= 2 * VALUE_LIMIT
                &&& 0 <= ne.cost <= VALUE_LIMIT
                &&& -VALUE_LIMIT <= ne.lower <= VALUE_LIMIT
                &&& ne.lower + ne.upper <= VALUE_LIMIT
            }
    }

    /// Normalizes `base`.
    pub fn from(base: &Graph<Directed, MinimumCostFlowNode, MinimumCostFlowEdge>) -> (nn: Self)
        requires
            network_ok(*base),
        ensures
            nn.node_count() == base.nodes@.len(),
            nn.supplies().len() == base.nodes@.len(),
            forall|x: int|
                0 <= x < base.nodes@.len() ==> #[trigger] nn.supplies()[x] == normalized_b(
                    *base,
                    base.edges@.len() as int,
                    x,
                ),
            nn.normalized_edges() == base.edges@.map_values(|e: Edge<MinimumCostFlowEdge>| normalize(e)),
            nn.bounded(),
    {
        let n = base.nodes.len();
        let m = base.edges.len();
        let mut b: Vec<i64> = Vec::new();
        let mut u: usize = 0;
        while u < n
            invariant
                n == base.nodes@.len(),
                u <= n,
                b@.len() == u,
                forall|x: int| 0 <= x < u ==> #[trigger] b@[x] == normalized_b(*base, 0, x),
            decreases n - u,
        {
            b.push(base.nodes[u].b);
            u = u + 1;
        }
        let mut edges: Vec<NormalizedEdge> = Vec::new();
        let mut k: usize = 0;
        while k < m
            invariant
                network_ok(*base),
                n == base.nodes@.len(),
                m == base.edges@.len(),
                k <= m,
                b@.len() == n,
                forall|x: int| 0 <= x < n ==> #[trigger] b@[x] == normalized_b(*base, k as int, x),
                edges@ == base.edges@.subrange(0, k as int).map_values(|e: Edge<MinimumCostFlowEdge>| normalize(e)),
            decreases m - k,
        {
            let e = base.edges[k];
            proof {
                assert(-VALUE_LIMIT <= e.data.lower <= e.data.upper <= VALUE_LIMIT);
                assert(-VALUE_LIMIT <= e.data.cost <= VALUE_LIMIT);
                lemma_normalized_b_bound(*base, k as int, e.u.0 as int);
                lemma_normalized_b_bound(*base, k as int, e.v.0 as int);
            }
            let amount = if e.data.cost >= 0 {
                e.data.lower
            } else {
                e.data.upper
            };
            let ghost before = b@;
            if e.u.0 != e.v.0 {
                let bu = b[e.u.0];
                b.set(e.u.0, bu - amount);
                let bv = b[e.v.0];
                b.set(e.v.0, bv + amount);
            }
            proof {
                assert forall|x: int| 0 <= x < n implies #[trigger] b@[x] == normalized_b(*base, k + 1, x) by {
                    assert(normalized_b(*base, k + 1, x) == normalized_b(*base, k as int, x) + supply_shift(e, x));
                }
            }
            let ne = if e.data.cost < 0 {
                NormalizedEdge {
                    u: e.v,
                    v: e.u,
                    lower: e.data.lower,
                    upper: e.data.upper - e.data.lower,
                    cost: -e.data.cost,
                    is_reversed: true,
                }
            } else {
                NormalizedEdge {
                    u: e.u,
                    v: e.v,
                    lower: e.data.lower,
                    upper: e.data.upper - e.data.lower,
                    cost: e.data.cost,
                    is_reversed: false,
                }
            };
            edges.push(ne);
            proof {
                assert(base.edges@.subrange(0, k + 1) =~= base.edges@.subrange(0, k as int).push(e));
                assert(edges@ =~= base.edges@.subrange(0, k + 1).map_values(
                    |e: Edge<MinimumCostFlowEdge>| normalize(e),
                ));
            }
            k = k + 1;
        }
        proof {
            assert(base.edges@.subrange(0, m as int) =~= base.edges@);
            assert forall|x: int| 0 <= x < n implies -SUPPLY_LIMIT <= #[trigger] b@[x] <= SUPPLY_LIMIT by {
                lemma_normalized_b_bound(*base, m as int, x);
                assert(VALUE_LIMIT * (m + 1) <= VALUE_LIMIT * (VALUE_LIMIT + 1)) by (nonlinear_arith)
                    requires
                        m <= VALUE_LIMIT,
                ;
            }
            assert forall|e: int| 0 <= e < edges@.len() implies {
                let ne = #[trigger] edges@[e];
                &&& ne.u.0 < n
                &&& ne.v.0 < n
                &&& 0 <= ne.upper <= 2 * VALUE_LIMIT
                &&& 0 <= ne.cost <= VALUE_LIMIT
                &&& -VALUE_LIMIT <= ne.lower <= VALUE_LIMIT
                &&& ne.lower + ne.upper <= VALUE_LIMIT
            } by {
                assert(base.edges@[e].u.0 < n);
            }
        }
        NormalizedNetwork { num_nodes: n, b, edges }
    }

    pub fn num_nodes(&self) -> (n: usize)
        ensures
            n == self.node_count(),
    {
        self.num_nodes
    }

    pub fn num_edges(&self) -> (m: usize)
        ensures
            m == self.normalized_edges().len(),
    {
        self.edges.len()
    }

    /// The supplies after normalization.
    pub fn excesses(&self) -> (b: &[i64])
        ensures
            b@ == self.supplies(),
    {
        self.b.as_slice()
    }

    /// The normalized edges, in edge order.
    pub fn iter_edges(&self) -> (es: Vec<NormalizedEdge>)
        ensures
            es@ == self.normalized_edges(),
    {
        self.edges.clone()
    }
}

} // verus!
