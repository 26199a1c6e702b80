//! Potentials as a certificate that a flow is of least cost.
use crate::graph::graph::Edge;
use crate::graph::ids::NodeId;
use crate::maximum_flow::edge::CapEdge;
use crate::maximum_flow::flow::balance;
use crate::minimum_cost_flow::edge::MinimumCostFlowEdge;
use crate::minimum_cost_flow::normalized_network::{normalize, normalized_b, NormalizedEdge};
use crate::minimum_cost_flow::edge::MinimumCostFlowNode;
use crate::minimum_cost_flow::error::MinimumCostFlowError;
use crate::graph::graph::Graph;
use crate::graph::direction::Directed;
use crate::minimum_cost_flow::residual_network::{
    doubled_arcs, lemma_arc_edge, lemma_flow_bounds, lemma_pair, lemma_shape, ResidualNetwork,
};
use crate::minimum_cost_flow::residual_network::lemma_cost_of_fwd;
use crate::shortest_path::csr::lemma_arc_row;
use crate::minimum_cost_flow::primal_dual::touched;
use vstd::prelude::*;

verus! {

/// The reduced cost of edge `e`: its cost less the potential of its tail
/// plus the potential of its head.
pub open spec fn reduced(rn: ResidualNetwork, e: int) -> int {
    let ne = rn.edges@[e];
    ne.cost - rn.potentials@[ne.u.0 as int] + rn.potentials@[ne.v.0 as int]
}

/// Complementary slackness on edge `e`: an edge with room left has a
/// reduced cost of at least zero, an edge with flow one of at most zero.
pub open spec fn slack_ok(rn: ResidualNetwork, e: int) -> bool {
    &&& rn.flow(e) < rn.edges@[e].upper ==> reduced(rn, e) >= 0
    &&& rn.flow(e) > 0 ==> reduced(rn, e) <= 0
}

/// Every edge satisfies complementary slackness.
pub open spec fn slackness(rn: ResidualNetwork) -> bool {
    forall|e: int| 0 <= e < rn.num_edges ==> #[trigger] slack_ok(rn, e)
}

/// The edges of `rn` carrying the flows `g`.
pub open spec fn with_flows(rn: ResidualNetwork, g: Seq<i64>) -> Seq<Edge<CapEdge>> {
    Seq::new(
        rn.edges@.len(),
        |e: int| Edge { u: rn.edges@[e].u, v: rn.edges@[e].v, data: CapEdge { flow: g[e], upper: rn.edges@[e].upper } },
    )
}

/// The flows of `rn`.
pub open spec fn flows_of(rn: ResidualNetwork) -> Seq<i64> {
    Seq::new(rn.edges@.len(), |e: int| rn.flow(e) as i64)
}

/// The cost of the flows `g` on the first `k` edges.
pub open spec fn flow_cost(rn: ResidualNetwork, g: Seq<i64>, k: int) -> int
    decreases k,
{
    if k <= 0 {
        0
    } else {
        flow_cost(rn, g, k - 1) + rn.edges@[k - 1].cost * g[k - 1]
    }
}

/// The sum over the first `j` nodes of the potential times the change of
/// balance from `f` to `g` over the first `k` edges.
spec fn node_sum(rn: ResidualNetwork, f: Seq<i64>, g: Seq<i64>, j: int, k: int) -> int
    decreases j,
{
    if j <= 0 {
        0
    } else {
        node_sum(rn, f, g, j - 1, k) + rn.potentials@[j - 1] * (balance(with_flows(rn, g), k, j - 1) - balance(
            with_flows(rn, f),
            k,
            j - 1,
        ))
    }
}

/// The sum over the first `k` edges of the potential difference of their
/// ends times the change of flow from `f` to `g`.
spec fn edge_sum(rn: ResidualNetwork, f: Seq<i64>, g: Seq<i64>, k: int) -> int
    decreases k,
{
    if k <= 0 {
        0
    } else {
        let ne = rn.edges@[k - 1];
        edge_sum(rn, f, g, k - 1) + (rn.potentials@[ne.u.0 as int] - rn.potentials@[ne.v.0 as int]) * (g[k - 1]
            - f[k - 1])
    }
}

/// The sum over the first `k` edges of the reduced cost times the change of flow.
spec fn reduced_sum(rn: ResidualNetwork, f: Seq<i64>, g: Seq<i64>, k: int) -> int
    decreases k,
{
    if k <= 0 {
        0
    } else {
        reduced_sum(rn, f, g, k - 1) + reduced(rn, k - 1) * (g[k - 1] - f[k - 1])
    }
}

proof fn lemma_node_sum_step(rn: ResidualNetwork, f: Seq<i64>, g: Seq<i64>, j: int, k: int)
    requires
        0 <= j,
        0 <= k < rn.edges@.len(),
        f.len() == rn.edges@.len(),
        g.len() == rn.edges@.len(),
    ensures
        ({
            let ne = rn.edges@[k];
            let d = g[k] - f[k];
            node_sum(rn, f, g, j, k + 1) == node_sum(rn, f, g, j, k) + (if ne.v.0 < j {
                rn.potentials@[ne.v.0 as int] * d
            } else {
                0
            }) - (if ne.u.0 < j {
                rn.potentials@[ne.u.0 as int] * d
            } else {
                0
            })
        }),
    decreases j,
{
    if j > 0 {
        lemma_node_sum_step(rn, f, g, j - 1, k);
        let x = j - 1;
        let ne = rn.edges@[k];
        let d = g[k] - f[k];
        let p = rn.potentials@[x];
        let bg = balance(with_flows(rn, g), k + 1, x);
        let bf = balance(with_flows(rn, f), k + 1, x);
        assert(with_flows(rn, g)[k].data.flow == g[k]);
        assert(with_flows(rn, f)[k].data.flow == f[k]);
        let dv: int = if ne.v.0 == x { d } else { 0 };
        let du: int = if ne.u.0 == x { d } else { 0 };
        let q = balance(with_flows(rn, g), k, x) - balance(with_flows(rn, f), k, x);
        assert(bg - bf == q + dv - du);
        assert(p * (q + dv - du) == p * q + p * dv - p * du) by (nonlinear_arith);
    }
}

proof fn lemma_edge_node(rn: ResidualNetwork, f: Seq<i64>, g: Seq<i64>, k: int)
    requires
        0 <= k <= rn.edges@.len(),
        f.len() == rn.edges@.len(),
        g.len() == rn.edges@.len(),
        forall|e: int| 0 <= e < rn.edges@.len() ==> (#[trigger] rn.edges@[e]).u.0 < rn.num_nodes && rn.edges@[e].v.0
            < rn.num_nodes,
    ensures
        edge_sum(rn, f, g, k) == -node_sum(rn, f, g, rn.num_nodes as int, k),
    decreases k,
{
    if k == 0 {
        lemma_node_sum_zero(rn, f, g, rn.num_nodes as int);
    } else {
        lemma_edge_node(rn, f, g, k - 1);
        lemma_node_sum_step(rn, f, g, rn.num_nodes as int, k - 1);
        let ne = rn.edges@[k - 1];
        let d = g[k - 1] - f[k - 1];
        assert((rn.potentials@[ne.u.0 as int] - rn.potentials@[ne.v.0 as int]) * d == rn.potentials@[ne.u.0 as int] * d
            - rn.potentials@[ne.v.0 as int] * d) by (nonlinear_arith);
    }
}

proof fn lemma_node_sum_zero(rn: ResidualNetwork, f: Seq<i64>, g: Seq<i64>, j: int)
    requires
        0 <= j,
    ensures
        node_sum(rn, f, g, j, 0) == 0,
    decreases j,
{
    if j > 0 {
        lemma_node_sum_zero(rn, f, g, j - 1);
        let x = j - 1;
        assert(balance(with_flows(rn, g), 0, x) == 0);
        assert(balance(with_flows(rn, f), 0, x) == 0);
        assert(rn.potentials@[x] * (0int - 0int) == 0) by (nonlinear_arith);
    }
}

proof fn lemma_node_sum_equal(rn: ResidualNetwork, f: Seq<i64>, g: Seq<i64>, j: int, k: int)
    requires
        0 <= j <= rn.num_nodes,
        forall|x: int|
            0 <= x < rn.num_nodes ==> #[trigger] balance(with_flows(rn, g), k, x) == balance(with_flows(rn, f), k, x),
    ensures
        node_sum(rn, f, g, j, k) == 0,
    decreases j,
{
    if j > 0 {
        lemma_node_sum_equal(rn, f, g, j - 1, k);
        assert(balance(with_flows(rn, g), k, j - 1) == balance(with_flows(rn, f), k, j - 1));
    }
}

proof fn lemma_cost_split(rn: ResidualNetwork, f: Seq<i64>, g: Seq<i64>, k: int)
    requires
        0 <= k <= rn.edges@.len(),
        f.len() == rn.edges@.len(),
        g.len() == rn.edges@.len(),
    ensures
        flow_cost(rn, g, k) - flow_cost(rn, f, k) == reduced_sum(rn, f, g, k) + edge_sum(rn, f, g, k),
    decreases k,
{
    if k > 0 {
        lemma_cost_split(rn, f, g, k - 1);
        let ne = rn.edges@[k - 1];
        let c = ne.cost as int;
        let pu = rn.potentials@[ne.u.0 as int] as int;
        let pv = rn.potentials@[ne.v.0 as int] as int;
        let a = g[k - 1] as int;
        let b = f[k - 1] as int;
        assert(c * a - c * b == (c - pu + pv) * (a - b) + (pu - pv) * (a - b)) by (nonlinear_arith);
    }
}

proof fn lemma_reduced_sum_nonneg(rn: ResidualNetwork, f: Seq<i64>, g: Seq<i64>, k: int)
    requires
        0 <= k <= rn.edges@.len(),
        f == flows_of(rn),
        g.len() == rn.edges@.len(),
        slackness(rn),
        rn.num_edges == rn.edges@.len(),
        forall|e: int| 0 <= e < rn.edges@.len() ==> 0 <= #[trigger] g[e] <= rn.edges@[e].upper,
        forall|e: int| 0 <= e < rn.edges@.len() ==> 0 <= #[trigger] rn.flow(e) <= rn.edges@[e].upper,
    ensures
        reduced_sum(rn, f, g, k) >= 0,
    decreases k,
{
    if k > 0 {
        lemma_reduced_sum_nonneg(rn, f, g, k - 1);
        let e = k - 1;
        assert(slack_ok(rn, e));
        let r = reduced(rn, e);
        let d = g[e] - f[e];
        assert(0 <= g[e] <= rn.edges@[e].upper);
        assert(0 <= rn.flow(e) <= rn.edges@[e].upper);
        assert(f[e] == rn.flow(e));
        assert(r * d >= 0) by (nonlinear_arith)
            requires
                r > 0 ==> d >= 0,
                r < 0 ==> d <= 0,
        ;
    }
}

/// A flow on the residual network's edges that satisfies complementary
/// slackness costs no more than any other flow within the capacities that
/// leaves every node with the same balance.
pub proof fn lemma_slackness_optimal(rn: ResidualNetwork, g: Seq<i64>)
    requires
        rn.wf(),
        slackness(rn),
        g.len() == rn.num_edges,
        forall|e: int| 0 <= e < rn.num_edges ==> 0 <= #[trigger] g[e] <= rn.edges@[e].upper,
        forall|x: int|
            0 <= x < rn.num_nodes ==> #[trigger] balance(with_flows(rn, g), rn.num_edges as int, x) == balance(
                rn.flow_edges(),
                rn.num_edges as int,
                x,
            ),
    ensures
        flow_cost(rn, flows_of(rn), rn.num_edges as int) <= flow_cost(rn, g, rn.num_edges as int),
{
    lemma_shape(rn);
    lemma_flow_bounds(rn);
    let f = flows_of(rn);
    let m = rn.num_edges as int;
    assert(with_flows(rn, f) =~= rn.flow_edges());
    assert forall|e: int| 0 <= e < rn.edges@.len() implies (#[trigger] rn.edges@[e]).u.0 < rn.num_nodes
        && rn.edges@[e].v.0 < rn.num_nodes by {
        lemma_edge_ends(rn, e);
    }
    lemma_cost_split(rn, f, g, m);
    lemma_edge_node(rn, f, g, m);
    lemma_node_sum_equal(rn, f, g, rn.num_nodes as int, m);
    lemma_reduced_sum_nonneg(rn, f, g, m);
}

/// Both ends of every edge are nodes.
pub proof fn lemma_edge_ends(rn: ResidualNetwork, e: int)
    requires
        rn.structure_ok(),
        0 <= e < rn.num_edges,
    ensures
        rn.edges@[e].u.0 < rn.num_nodes,
        rn.edges@[e].v.0 < rn.num_nodes,
{
    crate::minimum_cost_flow::residual_network::lemma_arc_of(rn, 2 * e);
    lemma_shape(rn);
    let ds = doubled_arcs(rn.edges@);
    assert((2 * e) / 2 == e && (2 * e) % 2 == 0);
    assert(ds[2 * e] == (rn.edges@[e].u.0, rn.edges@[e].v.0, rn.edges@[e].cost));
    crate::minimum_cost_flow::residual_network::lemma_arc_at(rn, rn.edges@[e].u.0 as int, rn.fwd(e));
}

} // verus!

verus! {

/// Complementary slackness on arc `a` out of `t`, as the arc sees it.
pub open spec fn arc_ok(rn: ResidualNetwork, t: int, a: int) -> bool {
    let u = rn.upper@[a] as int;
    let f = u - rn.residual_capacity@[a];
    let r = rn.cost@[a] - rn.potentials@[t] + rn.potentials@[rn.to@[a].0 as int];
    u == 0 || {
        &&& f == 0 ==> r >= 0
        &&& 0 < f < u ==> r == 0
        &&& f == u ==> r <= 0
    }
}

/// An arc satisfies slackness exactly when its edge does.
proof fn lemma_arc_ok(rn: ResidualNetwork, t: int, a: int)
    requires
        rn.wf(),
        0 <= t < rn.num_nodes,
        rn.start@[t] <= a < rn.start@[t + 1],
    ensures
        arc_ok(rn, t, a) == slack_ok(rn, rn.arc_edge@[a] / 2),
        0 <= rn.arc_edge@[a] / 2 < rn.num_edges,
{
    lemma_arc_edge(rn, t, a);
    let k = rn.arc_edge@[a] / 2;
    lemma_pair(rn, k);
    lemma_shape(rn);
    lemma_flow_bounds(rn);
    crate::minimum_cost_flow::residual_network::lemma_cost_of_fwd(rn, k);
    assert(0 <= rn.flow(k) <= rn.edges@[k].upper);
    assert(rn.residual_capacity@[rn.fwd(k)] == rn.edges@[k].upper - rn.flow(k));
}

impl ResidualNetwork {
    /// Whether every arc satisfies complementary slackness for the current
    /// potentials.
    pub(crate) fn check_optimality(&self) -> (ok: bool)
        requires
            self.wf(),
        ensures
            ok == slackness(*self),
    {
        proof {
            lemma_shape(*self);
        }
        let n = self.num_nodes;
        let mut ok = true;
        let mut u: usize = 0;
        while u < n
            invariant
                self.wf(),
                n == self.num_nodes,
                self.start@.len() == n + 1,
                u <= n,
                ok == forall|t: int, a: int|
                    #![trigger self.start@[t], arc_ok(*self, t, a)]
                    0 <= t < u && self.start@[t] <= a < self.start@[t + 1] ==> arc_ok(*self, t, a),
            decreases n - u,
        {
            let range = self.neighbors(NodeId(u));
            let mut a = range.start;
            let ghost ok0 = ok;
            while a < range.end
                invariant
                    self.wf(),
                    n == self.num_nodes,
                    self.start@.len() == n + 1,
                    u < n,
                    range.start == self.start@[u as int],
                    range.end == self.start@[u + 1],
                    range.start <= a,
                    a <= range.end || a == range.start,
                    ok0 == forall|t: int, b: int|
                        #![trigger self.start@[t], arc_ok(*self, t, b)]
                        0 <= t < u && self.start@[t] <= b < self.start@[t + 1] ==> arc_ok(*self, t, b),
                    ok == (ok0 && forall|b: int| #![trigger arc_ok(*self, u as int, b)]
                        range.start <= b < a ==> arc_ok(*self, u as int, b)),
                decreases range.end - a,
            {
                proof {
                    crate::minimum_cost_flow::residual_network::lemma_arc_at(*self, u as int, a as int);
                    lemma_shape(*self);
                }
                let ghost prev = ok;
                let upper = self.upper[a];
                if upper != 0 {
                    let f: i128 = upper as i128 - self.residual_capacity[a] as i128;
                    let r: i128 = self.cost[a] as i128 - self.potentials[u] as i128
                        + self.potentials[self.to[a].0] as i128;
                    let this_ok = if f == 0 {
                        r >= 0
                    } else if 0 < f && f < upper as i128 {
                        r == 0
                    } else {
                        r <= 0
                    };
                    proof {
                        lemma_flow_arc(*self, u as int, a as int);
                        assert(this_ok == arc_ok(*self, u as int, a as int));
                    }
                    ok = ok && this_ok;
                }
                proof {
                    assert(ok == (prev && arc_ok(*self, u as int, a as int)));
                    assert((forall|b: int| #![trigger arc_ok(*self, u as int, b)]
                        range.start <= b < a + 1 ==> arc_ok(*self, u as int, b)) == ((forall|b: int| #![trigger arc_ok(*self, u as int, b)]
                        range.start <= b < a ==> arc_ok(*self, u as int, b)) && arc_ok(*self, u as int, a as int)));
                }
                a = a + 1;
            }
            proof {
                let ghost s0 = self.start@[u as int];
                let ghost s1 = self.start@[u + 1];
                assert(ok == forall|t: int, b: int|
                    #![trigger self.start@[t], arc_ok(*self, t, b)]
                    0 <= t < u + 1 && self.start@[t] <= b < self.start@[t + 1] ==> arc_ok(*self, t, b)) by {
                    if ok {
                        assert forall|t: int, b: int|
                            0 <= t < u + 1 && #[trigger] self.start@[t] <= b < self.start@[t + 1] implies #[trigger] arc_ok(*self, t, b) by {
                            if t < u {
                            } else {
                                assert(t == u);
                            }
                        }
                    } else if !ok0 {
                        let (t, b) = choose|t: int, b: int|
                            #![trigger self.start@[t], arc_ok(*self, t, b)]
                            !(0 <= t < u && self.start@[t] <= b < self.start@[t + 1] ==> arc_ok(*self, t, b));
                        assert(self.start@[t] <= b && !arc_ok(*self, t, b));
                    } else {
                        let b = choose|b: int| #![trigger arc_ok(*self, u as int, b)]
                            !(range.start <= b < a ==> arc_ok(*self, u as int, b));
                        assert(s0 <= b < s1 && !arc_ok(*self, u as int, b));
                    }
                }
            }
            u = u + 1;
        }
        proof {
            assert(ok == slackness(*self)) by {
                if ok {
                    assert forall|e: int| 0 <= e < self.num_edges implies #[trigger] slack_ok(*self, e) by {
                        lemma_fwd_row(*self, e);
                        let t = self.edges@[e].u.0 as int;
                        lemma_arc_ok(*self, t, self.fwd(e));
                        lemma_pair(*self, e);
                    }
                } else {
                    let (t, a) = choose|t: int, a: int|
                        #![trigger self.start@[t], arc_ok(*self, t, a)]
                        0 <= t < n && self.start@[t] <= a < self.start@[t + 1] && !arc_ok(*self, t, a);
                    lemma_arc_ok(*self, t, a);
                }
            }
        }
        ok
    }
}

/// The flow through arc `a` is at most its capacity.
proof fn lemma_flow_arc(rn: ResidualNetwork, t: int, a: int)
    requires
        rn.wf(),
        0 <= t < rn.num_nodes,
        rn.start@[t] <= a < rn.start@[t + 1],
    ensures
        0 <= rn.residual_capacity@[a] <= rn.upper@[a],
{
    lemma_arc_edge(rn, t, a);
    let k = rn.arc_edge@[a] / 2;
    lemma_pair(rn, k);
    lemma_flow_bounds(rn);
    lemma_shape(rn);
    assert(0 <= rn.flow(k) <= rn.edges@[k].upper);
}

/// The forward arc of edge `e` is in the row of its tail.
proof fn lemma_fwd_row(rn: ResidualNetwork, e: int)
    requires
        rn.structure_ok(),
        0 <= e < rn.num_edges,
    ensures
        rn.edges@[e].u.0 < rn.num_nodes,
        rn.start@[rn.edges@[e].u.0 as int] <= rn.fwd(e) < rn.start@[rn.edges@[e].u.0 + 1],
{
    crate::minimum_cost_flow::residual_network::lemma_arc_of(rn, 2 * e);
    lemma_shape(rn);
    let ds = doubled_arcs(rn.edges@);
    assert((2 * e) / 2 == e && (2 * e) % 2 == 0);
    assert(ds[2 * e] == (rn.edges@[e].u.0, rn.edges@[e].v.0, rn.edges@[e].cost));
}

/// The reduced cost of arc `a` under the potentials of `rn`.
pub open spec fn arc_reduced(rn: ResidualNetwork, t: int, a: int) -> int {
    rn.cost@[a] - rn.potentials@[t] + rn.potentials@[rn.to@[a].0 as int]
}

/// Every arc that can carry flow has a reduced cost between zero and `w`.
pub open spec fn reduced_costs_within(rn: ResidualNetwork, w: int) -> bool {
    forall|u: int, a: int|
        0 <= u < rn.num_nodes && rn.start@[u] <= a < rn.start@[u + 1] && rn.residual_capacity@[a] > 0 ==> 0
            <= #[trigger] arc_reduced(rn, u, a) <= w
}

/// Every arc that can carry flow has a reduced cost in the range of `i64`.
pub open spec fn reduced_costs_fit(rn: ResidualNetwork) -> bool {
    forall|u: int, a: int|
        0 <= u < rn.num_nodes && rn.start@[u] <= a < rn.start@[u + 1] && rn.residual_capacity@[a] > 0 ==> i64::MIN
            <= #[trigger] arc_reduced(rn, u, a) <= i64::MAX
}

/// An arc is one of the two arcs of its edge, and its reduced cost is that
/// of the edge, or minus it for the backward arc; it has room exactly when
/// the edge has room forward, or flow to give back.
/// The partner of arc `a` out of `t` leaves the head of `a`, enters `t`,
/// and has minus the reduced cost of `a`.
pub proof fn lemma_reduced_antisymmetric(rn: ResidualNetwork, t: int, a: int)
    requires
        rn.wf(),
        0 <= t < rn.num_nodes,
        rn.start@[t] <= a < rn.start@[t + 1],
    ensures
        ({
            let b = rn.rev@[a].0 as int;
            let v = rn.to@[a].0 as int;
            &&& 0 <= v < rn.num_nodes
            &&& rn.start@[v] <= b < rn.start@[v + 1]
            &&& rn.to@[b].0 == t
            &&& rn.rev@[b].0 == a
            &&& b != a
            &&& arc_reduced(rn, v, b) == -arc_reduced(rn, t, a)
        }),
{
    crate::minimum_cost_flow::residual_network::lemma_arc_at(rn, t, a);
    lemma_shape(rn);
    let d = rn.arc_edge@[a];
    let e = d / 2;
    let v = rn.to@[a].0 as int;
    let b = rn.rev@[a].0 as int;
    lemma_pair(rn, e);
    let ds = doubled_arcs(rn.edges@);
    let d2 = if d % 2 == 0 { 2 * e + 1 } else { 2 * e };
    assert(d2 / 2 == e);
    assert(d == 2 * e || d == 2 * e + 1);
    crate::minimum_cost_flow::residual_network::lemma_arc_of(rn, d2);
    assert(rn.edge_arc@[d2] == b);
    assert(ds[d2].0 as int == v);
    crate::minimum_cost_flow::residual_network::lemma_arc_at(rn, v, b);
    assert(rn.arc_edge@[b] == d2);
}

/// Sending flow along an arc and then as much back along its partner
/// leaves every residual capacity and every excess as it was.
pub proof fn lemma_push_round_trip(rn0: ResidualNetwork, rn1: ResidualNetwork, rn2: ResidualNetwork, u: int, a: int, flow: int)
    requires
        rn0.wf(),
        0 <= u < rn0.num_nodes,
        rn0.start@[u] <= a < rn0.start@[u + 1],
        0 <= flow <= rn0.residual_capacity@[a],
        ResidualNetwork::pushed(rn0, rn1, u, a, flow),
        ResidualNetwork::pushed(rn1, rn2, rn0.to@[a].0 as int, rn0.rev@[a].0 as int, flow),
    ensures
        rn2.residual_capacity@ == rn0.residual_capacity@,
        rn2.excesses@ == rn0.excesses@,
        rn2.same_except_flow(rn0),
{
    lemma_reduced_antisymmetric(rn0, u, a);
    lemma_shape(rn0);
    let b = rn0.rev@[a].0 as int;
    let v = rn0.to@[a].0 as int;
    assert(0 <= a < rn0.residual_capacity@.len()) by {
        crate::minimum_cost_flow::residual_network::lemma_arc_at(rn0, u, a);
    }
    crate::minimum_cost_flow::residual_network::lemma_arc_at(rn0, v, b);
    crate::minimum_cost_flow::residual_network::lemma_push_facts(rn0, u, a, flow);
    assert(rn1.rev@[b].0 == a);
    assert(rn1.to@[b].0 == u);
    assert(rn1.residual_capacity@[b] == rn0.residual_capacity@[b] + flow);
    assert(rn1.residual_capacity@[a] == rn0.residual_capacity@[a] - flow);
    assert(rn2.residual_capacity@ =~= rn0.residual_capacity@);
    assert(rn2.excesses@ =~= rn0.excesses@);
}

pub proof fn lemma_arc_reduced(rn: ResidualNetwork, t: int, a: int)
    requires
        rn.wf(),
        0 <= t < rn.num_nodes,
        rn.start@[t] <= a < rn.start@[t + 1],
    ensures
        ({
            let k = rn.arc_edge@[a] / 2;
            &&& 0 <= k < rn.num_edges
            &&& (a == rn.fwd(k) && arc_reduced(rn, t, a) == reduced(rn, k) && (rn.residual_capacity@[a] > 0
                <==> rn.flow(k) < rn.edges@[k].upper)) || (a == rn.bwd(k) && arc_reduced(rn, t, a) == -reduced(
                rn,
                k,
            ) && (rn.residual_capacity@[a] > 0 <==> rn.flow(k) > 0))
        }),
{
    lemma_arc_edge(rn, t, a);
    let k = rn.arc_edge@[a] / 2;
    lemma_pair(rn, k);
    lemma_shape(rn);
    lemma_flow_bounds(rn);
    lemma_cost_of_fwd(rn, k);
    assert(0 <= rn.flow(k) <= rn.edges@[k].upper);
}

/// Under complementary slackness every arc with room has a reduced cost of
/// at least zero.
pub proof fn lemma_arc_nonneg(rn: ResidualNetwork, t: int, a: int)
    requires
        rn.wf(),
        slackness(rn),
        0 <= t < rn.num_nodes,
        rn.start@[t] <= a < rn.start@[t + 1],
        rn.residual_capacity@[a] > 0,
    ensures
        arc_reduced(rn, t, a) >= 0,
{
    lemma_arc_reduced(rn, t, a);
    let k = rn.arc_edge@[a] / 2;
    assert(slack_ok(rn, k));
}

/// Where every arc with room has a reduced cost of at least zero,
/// complementary slackness holds.
pub proof fn lemma_slackness_from_arcs(rn: ResidualNetwork)
    requires
        rn.wf(),
        forall|t: int, a: int|
            0 <= t < rn.num_nodes && rn.start@[t] <= a < rn.start@[t + 1] && #[trigger] rn.residual_capacity@[a] > 0
                && #[trigger] rn.start@[t] <= a ==> arc_reduced(rn, t, a) >= 0,
    ensures
        slackness(rn),
{
    assert forall|e: int| 0 <= e < rn.num_edges implies #[trigger] slack_ok(rn, e) by {
        lemma_fwd_row(rn, e);
        lemma_pair(rn, e);
        let u = rn.edges@[e].u.0 as int;
        let f = rn.fwd(e);
        lemma_arc_reduced(rn, u, f);
        crate::minimum_cost_flow::residual_network::lemma_arc_of(rn, 2 * e + 1);
        let ds = doubled_arcs(rn.edges@);
        let t2 = ds[2 * e + 1].0 as int;
        let b = rn.bwd(e);
        assert(rn.edge_arc@[2 * e + 1] == b);
        lemma_arc_reduced(rn, t2, b);
        if rn.flow(e) < rn.edges@[e].upper {
            assert(rn.residual_capacity@[f] > 0);
            assert(rn.start@[u] <= f);
        }
        if rn.flow(e) > 0 {
            assert(rn.residual_capacity@[b] > 0);
            assert(rn.start@[t2] <= b);
        }
    }
}

/// Pushing flow only along edges of reduced cost zero keeps
/// complementary slackness.
pub proof fn lemma_push_step(rn1: ResidualNetwork, rn2: ResidualNetwork)
    requires
        rn1.wf(),
        rn2.wf(),
        slackness(rn1),
        rn2.same_except_flow(rn1),
        forall|q: int| 0 <= q < rn1.num_edges && #[trigger] touched(rn2, rn1, q) ==> reduced(rn1, q) == 0,
    ensures
        slackness(rn2),
{
    assert forall|e: int| 0 <= e < rn2.num_edges implies #[trigger] slack_ok(rn2, e) by {
        assert(slack_ok(rn1, e));
        if !touched(rn2, rn1, e) {
            assert(rn2.flow(e) == rn1.flow(e));
        }
    }
}

/// Flow into `x` minus flow out of `x` under the flows `h` on the first
/// `k` edges of a graph.
pub open spec fn graph_balance(es: Seq<Edge<MinimumCostFlowEdge>>, h: Seq<i64>, k: int, x: int) -> int
    decreases k,
{
    if k <= 0 {
        0
    } else {
        graph_balance(es, h, k - 1, x) + (if es[k - 1].v.0 == x { h[k - 1] as int } else { 0 }) - (if es[k - 1].u.0
            == x {
            h[k - 1] as int
        } else {
            0
        })
    }
}

/// The cost of the flows `h` on the first `k` edges of a graph.
pub open spec fn graph_cost(es: Seq<Edge<MinimumCostFlowEdge>>, h: Seq<i64>, k: int) -> int
    decreases k,
{
    if k <= 0 {
        0
    } else {
        graph_cost(es, h, k - 1) + es[k - 1].data.cost * h[k - 1]
    }
}

/// The flows `h` respect every edge's bounds.
pub open spec fn within_graph_bounds(es: Seq<Edge<MinimumCostFlowEdge>>, h: Seq<i64>) -> bool {
    &&& h.len() == es.len()
    &&& forall|e: int| 0 <= e < es.len() ==> (#[trigger] es[e]).data.lower <= h[e] <= es[e].data.upper
}

/// The flows of the network read on the edges of the graph.
pub open spec fn graph_flows(rn: ResidualNetwork) -> Seq<i64> {
    Seq::new(rn.num_edges_original_graph as nat, |e: int| rn.original_flow(e) as i64)
}

/// Graph flows `h` read on the normalized edges.
pub open spec fn to_normalized(rn: ResidualNetwork, h: Seq<i64>) -> Seq<i64> {
    Seq::new(
        h.len(),
        |e: int|
            if rn.edges@[e].is_reversed {
                (rn.edges@[e].upper + rn.edges@[e].lower - h[e]) as i64
            } else {
                (h[e] - rn.edges@[e].lower) as i64
            },
    )
}

/// What normalizing moves out of the cost of the first `k` edges.
pub open spec fn cost_shift(rn: ResidualNetwork, k: int) -> int
    decreases k,
{
    if k <= 0 {
        0
    } else {
        let ne = rn.edges@[k - 1];
        cost_shift(rn, k - 1) + if ne.is_reversed {
            -(ne.cost * (ne.upper + ne.lower))
        } else {
            ne.cost * ne.lower
        }
    }
}

/// What normalizing moves into the balance of `x` over the first `k` edges.
pub open spec fn balance_shift(es: Seq<NormalizedEdge>, k: int, x: int) -> int
    decreases k,
{
    if k <= 0 {
        0
    } else {
        let ne = es[k - 1];
        let c = if ne.is_reversed { -(ne.upper + ne.lower) } else { ne.lower as int };
        balance_shift(es, k - 1, x) + (if ne.v.0 == x { c } else { 0 }) - (if ne.u.0 == x { c } else { 0 })
    }
}

/// The first edges of the network are the normalized edges of the graph.
pub open spec fn normalizes(rn: ResidualNetwork, es: Seq<Edge<MinimumCostFlowEdge>>) -> bool {
    &&& rn.edges@.len() >= es.len()
    &&& forall|e: int| 0 <= e < es.len() ==> #[trigger] rn.edges@[e] == normalize(es[e])
    &&& forall|e: int|
        0 <= e < es.len() ==> -0x10_0000 <= (#[trigger] es[e]).data.lower <= es[e].data.upper <= 0x10_0000
            && -0x10_0000 <= es[e].data.cost <= 0x10_0000
}

/// Read on the normalized edges, a graph flow costs the same less a
/// constant of the graph.
proof fn lemma_cost_normalized(rn: ResidualNetwork, es: Seq<Edge<MinimumCostFlowEdge>>, h: Seq<i64>, k: int)
    requires
        normalizes(rn, es),
        within_graph_bounds(es, h),
        0 <= k <= es.len(),
    ensures
        graph_cost(es, h, k) == flow_cost(rn, to_normalized(rn, h), k) + cost_shift(rn, k),
    decreases k,
{
    if k > 0 {
        lemma_cost_normalized(rn, es, h, k - 1);
        let e = k - 1;
        let ne = rn.edges@[e];
        let g = to_normalized(rn, h);
        assert(ne == normalize(es[e]));
        assert(es[e].data.lower <= h[e] <= es[e].data.upper);
        if ne.is_reversed {
            assert(g[e] == ne.upper + ne.lower - h[e]);
            assert(es[e].data.cost * h[e] == ne.cost * g[e] - (ne.cost * (ne.upper + ne.lower))) by (nonlinear_arith)
                requires
                    ne.cost == -es[e].data.cost,
                    g[e] == ne.upper + ne.lower - h[e],
            ;
        } else {
            assert(g[e] == h[e] - ne.lower);
            assert(es[e].data.cost * h[e] == ne.cost * g[e] + ne.cost * ne.lower) by (nonlinear_arith)
                requires
                    ne.cost == es[e].data.cost,
                    g[e] == h[e] - ne.lower,
            ;
        }
    }
}

/// Read on the normalized edges, a graph flow leaves each node the same
/// balance less a constant of the graph.
pub(crate) proof fn lemma_balance_normalized(
    rn: ResidualNetwork,
    es: Seq<Edge<MinimumCostFlowEdge>>,
    h: Seq<i64>,
    k: int,
    x: int,
)
    requires
        normalizes(rn, es),
        within_graph_bounds(es, h),
        0 <= k <= es.len(),
    ensures
        graph_balance(es, h, k, x) == balance(with_flows(rn, to_normalized(rn, h)), k, x) + balance_shift(rn.edges@, k, x),
    decreases k,
{
    if k > 0 {
        lemma_balance_normalized(rn, es, h, k - 1, x);
        let e = k - 1;
        let ne = rn.edges@[e];
        let g = to_normalized(rn, h);
        let wf = with_flows(rn, g);
        assert(ne == normalize(es[e]));
        assert(wf[e].u == ne.u && wf[e].v == ne.v && wf[e].data.flow == g[e]);
        if ne.is_reversed {
            assert(g[e] == ne.upper + ne.lower - h[e]);
        } else {
            assert(g[e] == h[e] - ne.lower);
        }
    }
}

/// The network's own flows, read on the graph and back, are its flows;
/// their cost on the graph is the network's objective.
proof fn lemma_graph_flows(rn: ResidualNetwork, es: Seq<Edge<MinimumCostFlowEdge>>)
    requires
        rn.wf(),
        normalizes(rn, es),
        rn.num_edges_original_graph == es.len(),
    ensures
        within_graph_bounds(es, graph_flows(rn)),
        forall|e: int| 0 <= e < es.len() ==> #[trigger] to_normalized(rn, graph_flows(rn))[e] == flows_of(rn)[e],
        forall|k: int| 0 <= k <= es.len() ==> #[trigger] graph_cost(es, graph_flows(rn), k) == rn.objective(k),
{
    lemma_shape(rn);
    lemma_flow_bounds(rn);
    let h = graph_flows(rn);
    assert forall|e: int| 0 <= e < es.len() implies (#[trigger] es[e]).data.lower <= h[e] <= es[e].data.upper by {
        assert(rn.edges@[e] == normalize(es[e]));
        assert(0 <= rn.flow(e) <= rn.edges@[e].upper);
    }
    assert forall|e: int| 0 <= e < es.len() implies #[trigger] to_normalized(rn, h)[e] == flows_of(rn)[e] by {
        assert(rn.edges@[e] == normalize(es[e]));
        assert(0 <= rn.flow(e) <= rn.edges@[e].upper);
    }
    assert forall|k: int| 0 <= k <= es.len() implies #[trigger] graph_cost(es, h, k) == rn.objective(k) by {
        lemma_graph_cost_objective(rn, es, k);
    }
}

/// The cost of the network's flows on the graph is its objective.
proof fn lemma_graph_cost_objective(rn: ResidualNetwork, es: Seq<Edge<MinimumCostFlowEdge>>, k: int)
    requires
        rn.wf(),
        normalizes(rn, es),
        rn.num_edges_original_graph == es.len(),
        0 <= k <= es.len(),
    ensures
        graph_cost(es, graph_flows(rn), k) == rn.objective(k),
    decreases k,
{
    if k > 0 {
        lemma_graph_cost_objective(rn, es, k - 1);
        let e = k - 1;
        lemma_shape(rn);
        lemma_flow_bounds(rn);
        assert(rn.edges@[e] == normalize(es[e]));
        assert(0 <= rn.flow(e) <= rn.edges@[e].upper);
        assert(graph_flows(rn)[e] == rn.original_flow(e));
        assert(rn.original_cost(e) == es[e].data.cost);
    }
}

/// Two edge lists that agree from `lo` on, with equal balances over the
/// first `lo` edges, have equal balances over the first `k`.
proof fn lemma_balance_agree(a: Seq<Edge<CapEdge>>, b: Seq<Edge<CapEdge>>, lo: int, k: int, x: int)
    requires
        0 <= lo <= k <= a.len(),
        k <= b.len(),
        forall|e: int| lo <= e < k ==> #[trigger] a[e] == b[e],
        balance(a, lo, x) == balance(b, lo, x),
    ensures
        balance(a, k, x) == balance(b, k, x),
    decreases k,
{
    if k > lo {
        lemma_balance_agree(a, b, lo, k - 1, x);
        assert(a[k - 1] == b[k - 1]);
    }
}

/// Flows that agree on the first `k` edges cost the same there.
proof fn lemma_flow_cost_agree(rn: ResidualNetwork, g1: Seq<i64>, g2: Seq<i64>, lo: int, k: int)
    requires
        0 <= lo <= k,
        forall|e: int| lo <= e < k ==> #[trigger] g1[e] == g2[e],
    ensures
        flow_cost(rn, g1, k) - flow_cost(rn, g1, lo) == flow_cost(rn, g2, k) - flow_cost(rn, g2, lo),
    decreases k,
{
    if k > lo {
        lemma_flow_cost_agree(rn, g1, g2, lo, k - 1);
        assert(g1[k - 1] == g2[k - 1]);
    }
}

/// A network whose flow satisfies complementary slackness and whose first
/// edges are the normalized edges of a graph holds, read on the graph, a
/// flow that costs no more than any flow within the graph's bounds that
/// leaves every node with the same balance.
pub proof fn lemma_graph_optimal(rn: ResidualNetwork, es: Seq<Edge<MinimumCostFlowEdge>>, h: Seq<i64>)
    requires
        rn.wf(),
        slackness(rn),
        normalizes(rn, es),
        rn.num_edges_original_graph == es.len(),
        within_graph_bounds(es, h),
        forall|x: int|
            0 <= x < rn.num_nodes ==> #[trigger] graph_balance(es, h, es.len() as int, x) == graph_balance(
                es,
                graph_flows(rn),
                es.len() as int,
                x,
            ),
    ensures
        rn.objective(es.len() as int) <= graph_cost(es, h, es.len() as int),
{
    let m = es.len() as int;
    let mm = rn.num_edges as int;
    let gn = to_normalized(rn, h);
    let f = graph_flows(rn);
    let fl = flows_of(rn);
    let g = Seq::new(mm as nat, |e: int| if e < m { gn[e] } else { fl[e] });
    lemma_graph_flows(rn, es);
    lemma_shape(rn);
    lemma_flow_bounds(rn);
    assert forall|e: int| 0 <= e < mm implies 0 <= #[trigger] g[e] <= rn.edges@[e].upper by {
        if e < m {
            assert(rn.edges@[e] == normalize(es[e]));
            assert(es[e].data.lower <= h[e] <= es[e].data.upper);
        } else {
            assert(0 <= rn.flow(e) <= rn.edges@[e].upper);
        }
    }
    assert(with_flows(rn, fl) =~= rn.flow_edges());
    assert forall|x: int| 0 <= x < rn.num_nodes implies #[trigger] balance(with_flows(rn, g), mm, x) == balance(
        rn.flow_edges(),
        mm,
        x,
    ) by {
        lemma_balance_normalized(rn, es, h, m, x);
        lemma_balance_normalized(rn, es, f, m, x);
        assert(graph_balance(es, h, m, x) == graph_balance(es, f, m, x));
        lemma_balance_agree(with_flows(rn, g), with_flows(rn, gn), 0, m, x);
        lemma_balance_agree(with_flows(rn, to_normalized(rn, f)), rn.flow_edges(), 0, m, x);
        lemma_balance_agree(with_flows(rn, g), rn.flow_edges(), m, mm, x);
    }
    lemma_slackness_optimal(rn, g);
    lemma_flow_cost_agree(rn, g, gn, 0, m);
    lemma_flow_cost_agree(rn, g, fl, m, mm);
    lemma_flow_cost_agree(rn, to_normalized(rn, f), fl, 0, m);
    lemma_cost_normalized(rn, es, h, m);
    lemma_cost_normalized(rn, es, f, m);
}

/// What normalizing moves into the balance of a node is what it moves into
/// its supply.
pub proof fn lemma_shift_supply(
    rn: ResidualNetwork,
    g: Graph<Directed, MinimumCostFlowNode, MinimumCostFlowEdge>,
    k: int,
    x: int,
)
    requires
        normalizes(rn, g.edges@),
        0 <= k <= g.edges@.len(),
    ensures
        balance_shift(rn.edges@, k, x) == normalized_b(g, k, x) - g.nodes@[x].b,
    decreases k,
{
    if k > 0 {
        lemma_shift_supply(rn, g, k - 1, x);
        let e = g.edges@[k - 1];
        assert(rn.edges@[k - 1] == normalize(e));
    }
}

/// What normalizing moves into the supply of `x`, read off the normalized
/// edges `es` of the graph.
pub proof fn lemma_shift_normalized(
    g: Graph<Directed, MinimumCostFlowNode, MinimumCostFlowEdge>,
    es: Seq<NormalizedEdge>,
    k: int,
    x: int,
)
    requires
        0 <= k <= g.edges@.len(),
        forall|i: int| 0 <= i < k ==> #[trigger] es[i] == normalize(g.edges@[i]),
        forall|i: int|
            0 <= i < k ==> -0x10_0000 <= (#[trigger] g.edges@[i]).data.lower <= g.edges@[i].data.upper <= 0x10_0000
                && -0x10_0000 <= g.edges@[i].data.cost <= 0x10_0000,
    ensures
        balance_shift(es, k, x) == normalized_b(g, k, x) - g.nodes@[x].b,
    decreases k,
{
    if k > 0 {
        lemma_shift_normalized(g, es, k - 1, x);
        assert(es[k - 1] == normalize(g.edges@[k - 1]));
        let d = g.edges@[k - 1].data;
        assert(-0x10_0000 <= d.lower <= d.upper <= 0x10_0000);
    }
}

/// What normalizing moves over the first `k` edges depends on those edges
/// only.
pub proof fn lemma_shift_prefix(a: Seq<NormalizedEdge>, b: Seq<NormalizedEdge>, k: int, x: int)
    requires
        forall|i: int| 0 <= i < k ==> #[trigger] a[i] == b[i],
    ensures
        balance_shift(a, k, x) == balance_shift(b, k, x),
    decreases k,
{
    if k > 0 {
        lemma_shift_prefix(a, b, k - 1, x);
        assert(a[k - 1] == b[k - 1]);
    }
}

/// `h` is a flow of the graph within its bounds that meets every supply:
/// what enters each node less what leaves it is minus its supply.
pub open spec fn feasible_flow(es: Seq<Edge<MinimumCostFlowEdge>>, nodes: Seq<MinimumCostFlowNode>, h: Seq<i64>) -> bool {
    &&& within_graph_bounds(es, h)
    &&& forall|x: int| 0 <= x < nodes.len() ==> #[trigger] graph_balance(es, h, es.len() as int, x) == -nodes[x].b
}

/// The flow an edge of the graph carries before any is sent: its lower
/// bound, or its upper bound when its cost is negative.
pub open spec fn resting_flow(e: Edge<MinimumCostFlowEdge>) -> int {
    if e.data.cost < 0 {
        e.data.upper as int
    } else {
        e.data.lower as int
    }
}

/// A graph with no edges whose nodes have no supply: nothing is to be moved.
pub open spec fn nothing_to_move(es: Seq<Edge<MinimumCostFlowEdge>>, nodes: Seq<MinimumCostFlowNode>) -> bool {
    &&& es.len() == 0
    &&& forall|x: int| 0 <= x < nodes.len() ==> #[trigger] nodes[x].b == 0
}

/// What a solver answers for a graph without edges: `Unbalanced` when the
/// supplies do not sum to zero, else `Infeasible` when a node has a supply,
/// else a flow of cost zero.
pub open spec fn edgeless_answer(nodes: Seq<MinimumCostFlowNode>) -> Result<i64, MinimumCostFlowError> {
    if supply_sum(nodes, nodes.len() as int) != 0 {
        Err(MinimumCostFlowError::Unbalanced)
    } else if exists|x: int| 0 <= x < nodes.len() && #[trigger] nodes[x].b != 0 {
        Err(MinimumCostFlowError::Infeasible)
    } else {
        Ok(0)
    }
}

/// With no supply among the first `k` nodes, their supplies sum to zero.
pub proof fn lemma_supply_sum_zero(nodes: Seq<MinimumCostFlowNode>, k: int)
    requires
        k <= nodes.len(),
        forall|x: int| 0 <= x < nodes.len() ==> #[trigger] nodes[x].b == 0,
    ensures
        supply_sum(nodes, k) == 0,
    decreases k,
{
    if k > 0 {
        lemma_supply_sum_zero(nodes, k - 1);
        assert(nodes[k - 1].b == 0);
    }
}

/// The supplies of the first `k` nodes together.
pub open spec fn supply_sum(nodes: Seq<MinimumCostFlowNode>, k: int) -> int
    decreases k,
{
    if k <= 0 {
        0
    } else {
        supply_sum(nodes, k - 1) + nodes[k - 1].b
    }
}

/// What normalizing the first `m` edges moves into the first `k` nodes,
/// together.
pub open spec fn shift_sum(es: Seq<NormalizedEdge>, m: int, k: int) -> int
    decreases k,
{
    if k <= 0 {
        0
    } else {
        shift_sum(es, m, k - 1) + balance_shift(es, m, k - 1)
    }
}

/// Before any edge, nothing has moved.
proof fn lemma_shift_sum_none(es: Seq<NormalizedEdge>, k: int)
    ensures
        shift_sum(es, 0, k) == 0,
    decreases k,
{
    if k > 0 {
        lemma_shift_sum_none(es, k - 1);
    }
}

/// One more edge moves its amount into its head and out of its tail, as
/// far as they are among the first `k` nodes.
proof fn lemma_shift_sum_step(es: Seq<NormalizedEdge>, m: int, k: int)
    requires
        m > 0,
    ensures
        ({
            let ne = es[m - 1];
            let c = if ne.is_reversed {
                -(ne.upper + ne.lower)
            } else {
                ne.lower as int
            };
            shift_sum(es, m, k) == shift_sum(es, m - 1, k) + (if ne.v.0 < k {
                c
            } else {
                0
            }) - (if ne.u.0 < k {
                c
            } else {
                0
            })
        }),
    decreases k,
{
    if k > 0 {
        lemma_shift_sum_step(es, m, k - 1);
    }
}

/// Over edges between the first `n` nodes, normalizing moves nothing in
/// total.
pub proof fn lemma_shift_sum_zero(es: Seq<NormalizedEdge>, m: int, n: int)
    requires
        0 <= m,
        forall|e: int| 0 <= e < m ==> (#[trigger] es[e]).u.0 < n && es[e].v.0 < n,
    ensures
        shift_sum(es, m, n) == 0,
    decreases m,
{
    if m == 0 {
        lemma_shift_sum_none(es, n);
    } else {
        lemma_shift_sum_zero(es, m - 1, n);
        lemma_shift_sum_step(es, m, n);
        assert(es[m - 1].u.0 < n && es[m - 1].v.0 < n);
    }
}

/// Supplies that are the graph's plus what normalizing moved add up to the
/// graph's supplies plus the total moved.
pub proof fn lemma_total_split(b: Seq<i64>, nodes: Seq<MinimumCostFlowNode>, es: Seq<NormalizedEdge>, m: int, k: int)
    requires
        forall|x: int| 0 <= x < k ==> #[trigger] b[x] == nodes[x].b + balance_shift(es, m, x),
    ensures
        crate::minimum_cost_flow::extend_network::total(b, k) == supply_sum(nodes, k) + shift_sum(es, m, k),
    decreases k,
{
    if k > 0 {
        lemma_total_split(b, nodes, es, m, k - 1);
        assert(b[k - 1] == nodes[k - 1].b + balance_shift(es, m, k - 1));
    }
}

/// A flow read on the graph leaves each node the balance it leaves there
/// on the normalized edges, plus what normalizing moved.
pub proof fn lemma_graph_balance_of(rn: ResidualNetwork, es: Seq<Edge<MinimumCostFlowEdge>>, x: int)
    requires
        rn.wf(),
        normalizes(rn, es),
        rn.num_edges_original_graph == es.len(),
    ensures
        graph_balance(es, graph_flows(rn), es.len() as int, x) == balance(rn.flow_edges(), es.len() as int, x)
            + balance_shift(rn.edges@, es.len() as int, x),
{
    let m = es.len() as int;
    let f = graph_flows(rn);
    lemma_graph_flows(rn, es);
    lemma_shape(rn);
    lemma_balance_normalized(rn, es, f, m, x);
    lemma_balance_agree(with_flows(rn, to_normalized(rn, f)), rn.flow_edges(), 0, m, x);
}

/// The balances of the first `j` nodes over the first `k` edges, added up.
pub open spec fn balance_total(es: Seq<Edge<MinimumCostFlowEdge>>, h: Seq<i64>, k: int, j: int) -> int
    decreases j,
{
    if j <= 0 {
        0
    } else {
        balance_total(es, h, k, j - 1) + graph_balance(es, h, k, j - 1)
    }
}

/// One more edge adds its flow to the total where its head is counted and
/// takes it where its tail is.
proof fn lemma_balance_total_step(es: Seq<Edge<MinimumCostFlowEdge>>, h: Seq<i64>, k: int, j: int)
    requires
        0 < k,
        0 <= j,
    ensures
        balance_total(es, h, k, j) == balance_total(es, h, k - 1, j) + (if es[k - 1].v.0 < j {
            h[k - 1] as int
        } else {
            0
        }) - (if es[k - 1].u.0 < j {
            h[k - 1] as int
        } else {
            0
        }),
    decreases j,
{
    if j > 0 {
        lemma_balance_total_step(es, h, k, j - 1);
    }
}

/// Over edges between the first `n` nodes, the balances of those nodes add
/// up to zero.
proof fn lemma_balance_total_zero(es: Seq<Edge<MinimumCostFlowEdge>>, h: Seq<i64>, k: int, n: int)
    requires
        0 <= k <= es.len(),
        0 <= n,
        forall|e: int| 0 <= e < es.len() ==> (#[trigger] es[e]).u.0 < n && es[e].v.0 < n,
    ensures
        balance_total(es, h, k, n) == 0,
    decreases k,
{
    if k > 0 {
        lemma_balance_total_zero(es, h, k - 1, n);
        lemma_balance_total_step(es, h, k, n);
        assert(es[k - 1].u.0 < n && es[k - 1].v.0 < n);
    } else {
        lemma_balance_total_none(es, h, n);
    }
}

/// Over no edges every balance is zero.
proof fn lemma_balance_total_none(es: Seq<Edge<MinimumCostFlowEdge>>, h: Seq<i64>, j: int)
    requires
        0 <= j,
    ensures
        balance_total(es, h, 0, j) == 0,
    decreases j,
{
    if j > 0 {
        lemma_balance_total_none(es, h, j - 1);
    }
}

/// Balances that meet the supplies add up to minus the supplies.
proof fn lemma_balance_total_supplies(
    es: Seq<Edge<MinimumCostFlowEdge>>,
    nodes: Seq<MinimumCostFlowNode>,
    h: Seq<i64>,
    j: int,
)
    requires
        0 <= j <= nodes.len(),
        forall|x: int| 0 <= x < nodes.len() ==> #[trigger] graph_balance(es, h, es.len() as int, x) == -nodes[x].b,
    ensures
        balance_total(es, h, es.len() as int, j) == -supply_sum(nodes, j),
    decreases j,
{
    if j > 0 {
        lemma_balance_total_supplies(es, nodes, h, j - 1);
        assert(graph_balance(es, h, es.len() as int, j - 1) == -nodes[j - 1].b);
    }
}

/// A network with a flow within its bounds that meets its supplies has
/// supplies that add up to zero.
pub proof fn lemma_feasible_balanced(es: Seq<Edge<MinimumCostFlowEdge>>, nodes: Seq<MinimumCostFlowNode>, h: Seq<i64>)
    requires
        forall|e: int| 0 <= e < es.len() ==> (#[trigger] es[e]).u.0 < nodes.len() && es[e].v.0 < nodes.len(),
        feasible_flow(es, nodes, h),
    ensures
        supply_sum(nodes, nodes.len() as int) == 0,
{
    lemma_balance_total_zero(es, h, es.len() as int, nodes.len() as int);
    lemma_balance_total_supplies(es, nodes, h, nodes.len() as int);
}

} // verus!
