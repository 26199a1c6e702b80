//! When a node still has supply left and no node with a demand can be
//! reached from it along arcs with room, no flow within the bounds meets
//! the supplies: the nodes it reaches form a cut that its supply cannot
//! cross.
use crate::graph::graph::Edge;
use crate::maximum_flow::cut::{
    cut_capacity, ends_below, flow_in, flow_out, lemma_cut_bounds, lemma_no_crossing, lemma_side_balance, side_balance,
};
use crate::minimum_cost_flow::extend_network::total;
use crate::maximum_flow::edge::CapEdge;
use crate::maximum_flow::flow::{balance, within_bounds};
use crate::minimum_cost_flow::edge::MinimumCostFlowEdge;
use crate::minimum_cost_flow::normalized_network::normalize;
use crate::minimum_cost_flow::optimality::{
    balance_shift, graph_balance, lemma_arc_reduced, lemma_balance_normalized, lemma_edge_ends, normalizes,
    to_normalized, with_flows, within_graph_bounds,
};
use crate::minimum_cost_flow::residual_network::{
    doubled_arcs, lemma_arc_at, lemma_arc_of, lemma_excess_of, lemma_flow_bounds, lemma_pair, lemma_shape,
    ResidualNetwork,
};
use crate::minimum_cost_flow::residual_paths::{residual_end, residual_reachable, residual_walk};
use vstd::prelude::*;

verus! {

/// The sum of `vals` over the nodes below `j` that `side` marks.
pub open spec fn side_sum(vals: Seq<i64>, side: Seq<bool>, j: int) -> int
    decreases j,
{
    if j <= 0 {
        0
    } else {
        side_sum(vals, side, j - 1) + if side[j - 1] {
            vals[j - 1] as int
        } else {
            0
        }
    }
}

/// Values that are supplies plus balances sum, over the side, to the
/// supplies plus the balance of the side.
proof fn lemma_side_sum_split(
    ex: Seq<i64>,
    b: Seq<i64>,
    es: Seq<Edge<CapEdge>>,
    m: int,
    side: Seq<bool>,
    j: int,
)
    requires
        forall|x: int| 0 <= x < j ==> #[trigger] ex[x] == b[x] + balance(es, m, x),
    ensures
        side_sum(ex, side, j) == side_sum(b, side, j) + side_balance(es, m, side, j),
    decreases j,
{
    if j > 0 {
        lemma_side_sum_split(ex, b, es, m, side, j - 1);
        assert(ex[j - 1] == b[j - 1] + balance(es, m, j - 1));
    }
}

/// Nonnegative values on the side sum to at least the value at `s`.
proof fn lemma_side_sum_at_least(vals: Seq<i64>, side: Seq<bool>, j: int, s: int)
    requires
        forall|x: int| 0 <= x < j && #[trigger] side[x] ==> vals[x] >= 0,
    ensures
        side_sum(vals, side, j) >= if 0 <= s < j && side[s] {
            vals[s] as int
        } else {
            0
        },
    decreases j,
{
    if j > 0 {
        lemma_side_sum_at_least(vals, side, j - 1, s);
        if side[j - 1] {
            assert(vals[j - 1] >= 0);
        }
    }
}

/// Edge lists with the same ends and capacities have the same cut capacities.
proof fn lemma_cap_agree(a: Seq<Edge<CapEdge>>, b: Seq<Edge<CapEdge>>, side: Seq<bool>, k: int)
    requires
        0 <= k <= a.len(),
        k <= b.len(),
        forall|e: int| 0 <= e < k ==> (#[trigger] a[e]).u == b[e].u && a[e].v == b[e].v && a[e].data.upper == b[e].data.upper,
    ensures
        cut_capacity(a, side, k) == cut_capacity(b, side, k),
    decreases k,
{
    if k > 0 {
        lemma_cap_agree(a, b, side, k - 1);
        assert(a[k - 1].u == b[k - 1].u);
    }
}

/// Full edges leaving the side and empty edges entering it: nothing enters,
/// and what leaves is the capacity.
proof fn lemma_tight_cut(es: Seq<Edge<CapEdge>>, side: Seq<bool>, k: int)
    requires
        0 <= k <= es.len(),
        forall|e: int|
            0 <= e < k && side[(#[trigger] es[e]).u.0 as int] && !side[es[e].v.0 as int] ==> es[e].data.flow
                == es[e].data.upper,
        forall|e: int|
            0 <= e < k && !side[(#[trigger] es[e]).u.0 as int] && side[es[e].v.0 as int] ==> es[e].data.flow == 0,
    ensures
        flow_in(es, side, k) == 0,
        flow_out(es, side, k) == cut_capacity(es, side, k),
    decreases k,
{
    if k > 0 {
        lemma_tight_cut(es, side, k - 1);
    }
}

/// Arc `a` out of a node that walks reach, with room, takes the walks on
/// to its head.
proof fn lemma_reach_step(rn: ResidualNetwork, s: int, u: int, a: int)
    requires
        residual_reachable(rn, s, u, false),
        0 <= u < rn.num_nodes,
        rn.start@[u] <= a < rn.start@[u + 1],
        rn.residual_capacity@[a] > 0,
    ensures
        residual_reachable(rn, s, rn.to@[a].0 as int, false),
{
    let q = choose|q: Seq<int>| #[trigger] residual_walk(rn, s, q, false) && residual_end(rn, s, q) == u;
    let q2 = q.push(a);
    assert(q2.drop_last() =~= q);
    assert(residual_walk(rn, s, q2, false));
}

/// Edges leaving the nodes that walks from `s` reach are full; edges
/// entering them are empty.
proof fn lemma_reach_closed(rn: ResidualNetwork, s: int, side: Seq<bool>, e: int)
    requires
        rn.wf(),
        0 <= e < rn.num_edges,
        side.len() == rn.num_nodes,
        forall|v: int| 0 <= v < rn.num_nodes ==> #[trigger] side[v] == residual_reachable(rn, s, v, false),
    ensures
        ({
            let u = rn.edges@[e].u.0 as int;
            let v = rn.edges@[e].v.0 as int;
            &&& 0 <= u < rn.num_nodes
            &&& 0 <= v < rn.num_nodes
            &&& side[u] && !side[v] ==> rn.flow(e) == rn.edges@[e].upper
            &&& !side[u] && side[v] ==> rn.flow(e) == 0
        }),
{
    lemma_shape(rn);
    lemma_edge_ends(rn, e);
    lemma_pair(rn, e);
    lemma_flow_bounds(rn);
    let u = rn.edges@[e].u.0 as int;
    let v = rn.edges@[e].v.0 as int;
    let ds = doubled_arcs(rn.edges@);
    lemma_arc_of(rn, 2 * e);
    lemma_arc_of(rn, 2 * e + 1);
    assert((2 * e) / 2 == e && (2 * e) % 2 == 0);
    assert((2 * e + 1) / 2 == e && (2 * e + 1) % 2 == 1);
    let f = rn.fwd(e);
    let b = rn.bwd(e);
    assert(ds[2 * e].0 as int == u);
    assert(ds[2 * e + 1].0 as int == v);
    lemma_arc_at(rn, u, f);
    lemma_arc_at(rn, v, b);
    assert(rn.to@[f].0 as int == v);
    assert(rn.to@[b].0 as int == u);
    lemma_arc_reduced(rn, u, f);
    lemma_arc_reduced(rn, v, b);
    assert(0 <= rn.flow(e) <= rn.edges@[e].upper);
    if side[u] && !side[v] && rn.residual_capacity@[f] > 0 {
        lemma_reach_step(rn, s, u, f);
    }
    if !side[u] && side[v] && rn.residual_capacity@[b] > 0 {
        lemma_reach_step(rn, s, v, b);
    }
}

/// A node with supply left whose reachable nodes along arcs with room have
/// no demand leaves no flows on the edges of the network, within their
/// capacities, that take from every node exactly its supply.
pub proof fn lemma_cut_blocks(rn: ResidualNetwork, s: int, g: Seq<i64>)
    requires
        rn.wf(),
        forall|x: int| 0 <= x < rn.num_nodes ==> #[trigger] rn.base_balance@[x] == 0,
        0 <= s < rn.num_nodes,
        rn.excesses@[s] > 0,
        forall|v: int| 0 <= v < rn.num_nodes && #[trigger] residual_reachable(rn, s, v, false) ==> rn.excesses@[v] >= 0,
        g.len() == rn.num_edges,
        forall|e: int| 0 <= e < rn.num_edges ==> 0 <= #[trigger] g[e] <= rn.edges@[e].upper,
    ensures
        exists|x: int|
            0 <= x < rn.num_nodes && #[trigger] rn.b@[x] + balance(with_flows(rn, g), rn.num_edges as int, x) != 0,
{
    let n = rn.num_nodes as int;
    let m = rn.num_edges as int;
    lemma_shape(rn);
    lemma_flow_bounds(rn);
    let gw = with_flows(rn, g);
    if forall|x: int| 0 <= x < n ==> #[trigger] rn.b@[x] + balance(gw, m, x) == 0 {
        let side = Seq::new(n as nat, |v: int| residual_reachable(rn, s, v, false));
        assert(residual_walk(rn, s, Seq::<int>::empty(), false));
        assert(side[s]);
        let fe = rn.flow_edges();
        assert forall|e: int| 0 <= e < m implies (#[trigger] fe[e]).u.0 < n && fe[e].v.0 < n by {
            lemma_edge_ends(rn, e);
        }
        assert(ends_below(fe, n));
        assert forall|e: int| 0 <= e < m implies (#[trigger] gw[e]).u.0 < n && gw[e].v.0 < n by {
            lemma_edge_ends(rn, e);
        }
        assert(ends_below(gw, n));
        assert forall|e: int| 0 <= e < m implies 0 <= (#[trigger] gw[e]).data.flow <= gw[e].data.upper by {}
        assert(within_bounds(gw));
        let ex = rn.excesses@;
        let b = rn.b@;
        assert forall|x: int| 0 <= x < n implies #[trigger] ex[x] == b[x] + balance(fe, m, x) by {
            lemma_excess_of(rn, x);
        }
        let z = Seq::new(n as nat, |x: int| 0i64);
        assert forall|x: int| 0 <= x < n implies #[trigger] z[x] == b[x] + balance(gw, m, x) by {}
        lemma_side_sum_split(ex, b, fe, m, side, n);
        lemma_side_sum_split(z, b, gw, m, side, n);
        assert(side_sum(z, side, n) == 0) by {
            lemma_side_sum_zero(z, side, n);
        }
        assert forall|x: int| 0 <= x < n && #[trigger] side[x] implies ex[x] >= 0 by {}
        lemma_side_sum_at_least(ex, side, n, s);
        assert forall|e: int| 0 <= e < m && side[(#[trigger] fe[e]).u.0 as int] && !side[fe[e].v.0 as int] implies fe[e].data.flow
            == fe[e].data.upper by {
            lemma_reach_closed(rn, s, side, e);
        }
        assert forall|e: int| 0 <= e < m && !side[(#[trigger] fe[e]).u.0 as int] && side[fe[e].v.0 as int] implies fe[e].data.flow
            == 0 by {
            lemma_reach_closed(rn, s, side, e);
        }
        lemma_tight_cut(fe, side, m);
        lemma_side_balance(fe, m, side);
        lemma_side_balance(gw, m, side);
        lemma_cut_bounds(gw, side, m);
        lemma_cap_agree(fe, gw, side, m);
        assert(false);
    }
}

/// A node with supply left from which no node with a demand can be reached
/// along arcs with room leaves no flow of the graph within its bounds that
/// meets the supplies.
pub proof fn lemma_stuck_infeasible(
    rn: ResidualNetwork,
    es: Seq<Edge<MinimumCostFlowEdge>>,
    s: int,
    h: Seq<i64>,
)
    requires
        rn.wf(),
        normalizes(rn, es),
        rn.num_edges == es.len(),
        forall|x: int| 0 <= x < rn.num_nodes ==> #[trigger] rn.base_balance@[x] == 0,
        0 <= s < rn.num_nodes,
        rn.excesses@[s] > 0,
        forall|v: int| 0 <= v < rn.num_nodes && #[trigger] residual_reachable(rn, s, v, false) ==> rn.excesses@[v] >= 0,
    ensures
        !meets_supplies(rn, es, h),
{
    if meets_supplies(rn, es, h) {
        let n = rn.num_nodes as int;
        let m = es.len() as int;
        lemma_shape(rn);
        let gn = to_normalized(rn, h);
        assert forall|e: int| 0 <= e < m implies 0 <= #[trigger] gn[e] <= rn.edges@[e].upper by {
            assert(rn.edges@[e] == normalize(es[e]));
            assert(es[e].data.lower <= h[e] <= es[e].data.upper);
        }
        lemma_cut_blocks(rn, s, gn);
        let x = choose|x: int|
            0 <= x < rn.num_nodes && #[trigger] rn.b@[x] + balance(with_flows(rn, gn), rn.num_edges as int, x) != 0;
        lemma_balance_normalized(rn, es, h, m, x);
    }
}

/// `h` is a flow of the graph within its bounds whose balances are what
/// the supplies of the network ask for.
pub open spec fn meets_supplies(rn: ResidualNetwork, es: Seq<Edge<MinimumCostFlowEdge>>, h: Seq<i64>) -> bool {
    &&& within_graph_bounds(es, h)
    &&& forall|x: int|
        0 <= x < rn.num_nodes ==> #[trigger] graph_balance(es, h, es.len() as int, x) == balance_shift(
            rn.edges@,
            es.len() as int,
            x,
        ) - rn.b@[x]
}


/// A side sum of zeros is zero.
proof fn lemma_side_sum_zero(z: Seq<i64>, side: Seq<bool>, j: int)
    requires
        forall|x: int| 0 <= x < j ==> #[trigger] z[x] == 0,
    ensures
        side_sum(z, side, j) == 0,
    decreases j,
{
    if j > 0 {
        lemma_side_sum_zero(z, side, j - 1);
    }
}

/// Over a side that holds every node, a side sum is the plain sum.
proof fn lemma_side_sum_all(vals: Seq<i64>, side: Seq<bool>, j: int)
    requires
        forall|x: int| 0 <= x < j ==> #[trigger] side[x],
    ensures
        side_sum(vals, side, j) == total(vals, j),
    decreases j,
{
    if j > 0 {
        lemma_side_sum_all(vals, side, j - 1);
        assert(side[j - 1]);
    }
}

/// The excesses of a network with no base balance sum to what its supplies
/// sum to.
pub proof fn lemma_excess_total(rn: ResidualNetwork)
    requires
        rn.wf(),
        forall|x: int| 0 <= x < rn.num_nodes ==> #[trigger] rn.base_balance@[x] == 0,
    ensures
        total(rn.excesses@, rn.num_nodes as int) == total(rn.b@, rn.num_nodes as int),
{
    let n = rn.num_nodes as int;
    let m = rn.num_edges as int;
    lemma_shape(rn);
    let fe = rn.flow_edges();
    let all = Seq::new(n as nat, |x: int| true);
    assert forall|e: int| 0 <= e < m implies (#[trigger] fe[e]).u.0 < n && fe[e].v.0 < n by {
        lemma_edge_ends(rn, e);
    }
    assert forall|x: int| 0 <= x < n implies #[trigger] rn.excesses@[x] == rn.b@[x] + balance(fe, m, x) by {
        lemma_excess_of(rn, x);
    }
    lemma_side_sum_split(rn.excesses@, rn.b@, fe, m, all, n);
    lemma_side_balance(fe, m, all);
    lemma_no_crossing(fe, all, m);
    lemma_side_sum_all(rn.excesses@, all, n);
    lemma_side_sum_all(rn.b@, all, n);
}

/// Values that are at most zero and sum to zero are all zero.
pub proof fn lemma_nonpos_total_zero(vals: Seq<i64>, j: int)
    requires
        0 <= j <= vals.len(),
        forall|x: int| 0 <= x < j ==> #[trigger] vals[x] <= 0,
        total(vals, j) == 0,
    ensures
        forall|x: int| 0 <= x < j ==> #[trigger] vals[x] == 0,
    decreases j,
{
    if j > 0 {
        lemma_total_nonpos(vals, j - 1);
        assert(vals[j - 1] <= 0);
        lemma_nonpos_total_zero(vals, j - 1);
    }
}

proof fn lemma_total_nonpos(vals: Seq<i64>, j: int)
    requires
        0 <= j <= vals.len(),
        forall|x: int| 0 <= x < j ==> #[trigger] vals[x] <= 0,
    ensures
        total(vals, j) <= 0,
    decreases j,
{
    if j > 0 {
        lemma_total_nonpos(vals, j - 1);
        assert(vals[j - 1] <= 0);
    }
}

} // verus!
