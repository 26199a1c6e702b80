//! The primal-dual minimum cost flow solver: Dijkstra's algorithm on the
//! reduced costs moves the potentials, then flow is pushed from the source
//! to the sink along arcs of reduced cost zero.
use crate::graph::direction::Directed;
use crate::graph::graph::{Edge, Graph};
use crate::graph::ids::{ArcId, EdgeId, NodeId};
use crate::maximum_flow::edge::CapEdge;
use crate::maximum_flow::flow::{balance, lemma_balance_zero};
use crate::minimum_cost_flow::edge::{MinimumCostFlowEdge, MinimumCostFlowNode};
use crate::minimum_cost_flow::error::MinimumCostFlowError;
use crate::minimum_cost_flow::extend_network::{
    construct_extend_network_one_supply_one_demand, lemma_capacity_bound, lemma_capacity_concat,
    lemma_positive_negative, lemma_sums_bound, lemma_supply_demand_edges, lemma_total_zeros, lemma_zero_supplies, negative_sum,
    positive_sum, supply_demand_edges, total,
};
use crate::minimum_cost_flow::graph::{network_ok, VALUE_LIMIT};
use crate::minimum_cost_flow::normalized_network::{normalize, NormalizedNetwork, SUPPLY_LIMIT};
use crate::minimum_cost_flow::solver::MinimumCostFlowSolver;
use crate::minimum_cost_flow::status::Status;
use crate::minimum_cost_flow::validate::{trivial_solution_if_any, validate_balance, validate_infeasible};
use crate::maximum_flow::bfs::{bfs, tree_ok, BfsTree};
use crate::maximum_flow::residual::{lemma_up, up};
use crate::minimum_cost_flow::residual_network::{
    all_of, initial_flow, lemma_arc_at, lemma_arc_edge, lemma_excess_of, lemma_flow_bounds, lemma_no_nodes, lemma_pair,
    lemma_potentials_frame, lemma_shape, opt_seq, start_supply, total_nodes, ResidualNetwork, TOTAL_LIMIT,
};
use crate::shortest_path::csr::{arcs_of, group_by_tail};
use crate::shortest_path::relax::{dijkstra_rows, nonneg_weights, opt_dist};
use crate::shortest_path::walk::{is_shortest, is_walk, lemma_walk_push, reachable, shortest_distances, walk_end, walk_len};
use crate::minimum_cost_flow::optimality::{
    arc_reduced, flow_cost, flows_of, lemma_arc_nonneg, lemma_arc_reduced, lemma_push_step, lemma_slackness_from_arcs,
    lemma_slackness_optimal, reduced, slack_ok, slackness, with_flows, graph_balance, graph_cost, graph_flows,
    lemma_graph_optimal, normalizes, within_graph_bounds, balance_shift, lemma_graph_balance_of,
    lemma_shift_normalized, lemma_shift_prefix, lemma_shift_sum_zero, lemma_total_split, supply_sum, reduced_costs_fit,
    nothing_to_move, resting_flow, lemma_supply_sum_zero, feasible_flow, to_normalized, lemma_balance_normalized,
    lemma_feasible_balanced,
};
use crate::shortest_path::walk::{arcs_in, max_abs_weight};
use crate::minimum_cost_flow::residual_paths::{
    lemma_reachable_same, lemma_shortest_same, listed_completely, listed_faithfully, residual_end, residual_len,
    residual_reachable, residual_shortest, residual_walk,
};
use crate::minimum_cost_flow::infeasibility::{lemma_cut_blocks, lemma_excess_total};
use vstd::prelude::*;

verus! {

/// The residual arcs that can carry flow, with their reduced costs and
/// their positions, or `None` when a reduced cost leaves the range of `i64`.
fn reduced_arcs(rn: &ResidualNetwork) -> (r: Option<(Vec<Edge<()>>, Vec<i64>, Ghost<Seq<usize>>)>)
    requires
        rn.wf(),
    ensures
        r is Some <==> reduced_costs_fit(*rn),
        r matches Some((list, ws, info)) ==> listed_faithfully(*rn, arcs_of(list@, ws@), info@, false)
            && listed_completely(*rn, arcs_of(list@, ws@), info@, false),
        r matches Some((list, ws, info)) ==> {
            &&& ws@.len() == list@.len()
            &&& info@.len() == list@.len()
            &&& arcs_in(arcs_of(list@, ws@), rn.num_nodes as int)
            &&& forall|i: int|
                0 <= i < list@.len() ==> {
                    let tl = (#[trigger] list@[i]).u.0 as int;
                    let a = info@[i] as int;
                    &&& 0 <= tl < rn.num_nodes
                    &&& rn.start@[tl] <= a < rn.start@[tl + 1]
                    &&& rn.to@[a] == list@[i].v
                    &&& rn.residual_capacity@[a] > 0
                    &&& ws@[i] == rn.cost@[a] - rn.potentials@[tl] + rn.potentials@[list@[i].v.0 as int]
                }
            &&& forall|u: int, a: int|
                0 <= u < rn.num_nodes && rn.start@[u] <= a < rn.start@[u + 1] && #[trigger] rn.residual_capacity@[a] > 0
                    && #[trigger] rn.start@[u] <= a ==> arc_listed(list@, info@, u, a)
        },
{
    proof {
        lemma_shape(*rn);
    }
    let n = rn.num_nodes;
    let mut list: Vec<Edge<()>> = Vec::new();
    let mut ws: Vec<i64> = Vec::new();
    let ghost mut info: Seq<usize> = Seq::empty();
    let mut u: usize = 0;
    while u < n
        invariant
            rn.wf(),
            n == rn.num_nodes,
            rn.start@.len() == n + 1,
            u <= n,
            ws@.len() == list@.len(),
            info.len() == list@.len(),
            forall|i: int|
                0 <= i < list@.len() ==> {
                    let tl = (#[trigger] list@[i]).u.0 as int;
                    let a = info[i] as int;
                    &&& 0 <= tl < n
                    &&& list@[i].v.0 < n
                    &&& rn.start@[tl] <= a < rn.start@[tl + 1]
                    &&& rn.to@[a] == list@[i].v
                    &&& rn.residual_capacity@[a] > 0
                    &&& ws@[i] == rn.cost@[a] - rn.potentials@[tl] + rn.potentials@[list@[i].v.0 as int]
                },
            forall|w: int, b: int|
                0 <= w < u && rn.start@[w] <= b < rn.start@[w + 1] && #[trigger] rn.residual_capacity@[b] > 0
                    && #[trigger] rn.start@[w] <= b ==> arc_listed(list@, info, w, b),
        decreases n - u,
    {
        let range = rn.neighbors(NodeId(u));
        let mut a = range.start;
        while a < range.end
            invariant
                rn.wf(),
                n == rn.num_nodes,
                rn.start@.len() == n + 1,
                u < n,
                range.start == rn.start@[u as int],
                range.end == rn.start@[u + 1],
                range.start <= a,
                ws@.len() == list@.len(),
                info.len() == list@.len(),
                forall|i: int|
                    0 <= i < list@.len() ==> {
                        let tl = (#[trigger] list@[i]).u.0 as int;
                        let b = info[i] as int;
                        &&& 0 <= tl < n
                        &&& list@[i].v.0 < n
                        &&& rn.start@[tl] <= b < rn.start@[tl + 1]
                        &&& rn.to@[b] == list@[i].v
                        &&& rn.residual_capacity@[b] > 0
                        &&& ws@[i] == rn.cost@[b] - rn.potentials@[tl] + rn.potentials@[list@[i].v.0 as int]
                    },
                forall|w: int, b: int|
                    0 <= w < u && rn.start@[w] <= b < rn.start@[w + 1] && #[trigger] rn.residual_capacity@[b] > 0
                        && #[trigger] rn.start@[w] <= b ==> arc_listed(list@, info, w, b),
                forall|b: int|
                    range.start <= b < a && #[trigger] rn.residual_capacity@[b] > 0 ==> arc_listed(
                        list@,
                        info,
                        u as int,
                        b,
                    ),
            decreases range.end - a,
        {
            proof {
                lemma_arc_at(*rn, u as int, a as int);
                lemma_shape(*rn);
            }
            let ghost list0 = list@;
            let ghost info0 = info;
            if rn.residual_capacity[a] > 0 {
                let v = rn.to[a];
                let rc: i128 = rn.cost[a] as i128 - rn.potentials[u] as i128 + rn.potentials[v.0] as i128;
                if rc < i64::MIN as i128 || rc > i64::MAX as i128 {
                    proof {
                        assert(!(i64::MIN <= arc_reduced(*rn, u as int, a as int) <= i64::MAX));
                    }
                    return None;
                }
                list.push(Edge { u: NodeId(u), v, data: () });
                ws.push(rc as i64);
                proof {
                    info = info.push(a);
                }
            }
            proof {
                assert forall|w: int, b: int|
                    0 <= w < u && rn.start@[w] <= b < rn.start@[w + 1] && #[trigger] rn.residual_capacity@[b] > 0
                        && #[trigger] rn.start@[w] <= b implies arc_listed(list@, info, w, b) by {
                    assert(arc_listed(list0, info0, w, b));
                    let i = choose|i: int| 0 <= i < list0.len() && info0[i] == b && #[trigger] list0[i].u.0 == w;
                    assert(list@[i] == list0[i]);
                }
                assert forall|b: int|
                    range.start <= b < a + 1 && #[trigger] rn.residual_capacity@[b] > 0 implies arc_listed(
                        list@,
                        info,
                        u as int,
                        b,
                    ) by {
                    if b < a {
                        assert(arc_listed(list0, info0, u as int, b));
                        let i = choose|i: int| 0 <= i < list0.len() && info0[i] == b && #[trigger] list0[i].u.0 == u;
                        assert(list@[i] == list0[i]);
                    } else {
                        assert(list@[list@.len() - 1].u.0 == u);
                    }
                }
            }
            a = a + 1;
        }
        proof {
            assert forall|w: int, b: int|
                0 <= w < u + 1 && rn.start@[w] <= b < rn.start@[w + 1] && #[trigger] rn.residual_capacity@[b] > 0
                    && #[trigger] rn.start@[w] <= b implies arc_listed(list@, info, w, b) by {
                if w == u {
                    assert(b < range.end);
                }
            }
        }
        u = u + 1;
    }
    proof {
        assert forall|e: int| 0 <= e < arcs_of(list@, ws@).len() implies (#[trigger] arcs_of(list@, ws@)[e]).0 < n
            && arcs_of(list@, ws@)[e].1 < n by {
            assert(list@[e].u.0 < n);
        }
        let es = arcs_of(list@, ws@);
        assert forall|w: int, b: int|
            0 <= w < n && rn.start@[w] <= b < rn.start@[w + 1] && rn.residual_capacity@[b] > 0 implies i64::MIN
                <= #[trigger] arc_reduced(*rn, w, b) <= i64::MAX by {
            assert(rn.start@[w] <= b);
            assert(arc_listed(list@, info, w, b));
            let i = choose|i: int| 0 <= i < list@.len() && info[i] == b && #[trigger] list@[i].u.0 == w;
            assert(ws@[i] == arc_reduced(*rn, w, b));
        }
        assert forall|i: int| 0 <= i < es.len() implies {
            let t = (#[trigger] es[i]).0 as int;
            let a = info[i] as int;
            &&& 0 <= t < rn.num_nodes
            &&& rn.start@[t] <= a < rn.start@[t + 1]
            &&& rn.to@[a].0 == es[i].1
            &&& rn.residual_capacity@[a] > 0
            &&& es[i].2 == arc_reduced(*rn, t, a)
            &&& false ==> es[i].2 == 0
        } by {
            assert(list@[i].u.0 == es[i].0);
        }
        assert forall|w: int, b: int|
            0 <= w < rn.num_nodes && rn.start@[w] <= b < rn.start@[w + 1] && #[trigger] rn.residual_capacity@[b] > 0
                && #[trigger] rn.start@[w] <= b && (false ==> arc_reduced(*rn, w, b) == 0) implies exists|i: int|
                0 <= i < es.len() && info[i] == b && #[trigger] es[i].0 == w by {
            assert(arc_listed(list@, info, w, b));
            let i = choose|i: int| 0 <= i < list@.len() && info[i] == b && #[trigger] list@[i].u.0 == w;
            assert(es[i].0 == w);
        }
    }
    Some((list, ws, Ghost(info)))
}

/// Arc `a` out of `u` is in `list` at a position that `info` maps to it.
pub open spec fn arc_listed(list: Seq<Edge<()>>, info: Seq<usize>, u: int, a: int) -> bool {
    exists|i: int| 0 <= i < list.len() && info[i] == a && #[trigger] list[i].u.0 == u
}

/// The greatest absolute weight of `ws`.
fn max_weight(es: Ghost<Seq<(usize, usize, i64)>>, ws: &Vec<i64>) -> (mw: i128)
    requires
        ws@.len() == es@.len(),
        forall|i: int| 0 <= i < ws@.len() ==> #[trigger] ws@[i] == es@[i].2,
    ensures
        mw == max_abs_weight(es@, es@.len() as int),
        0 <= mw <= 0x8000_0000_0000_0000,
{
    let mut mw: i128 = 0;
    let mut k: usize = 0;
    while k < ws.len()
        invariant
            ws@.len() == es@.len(),
            forall|i: int| 0 <= i < ws@.len() ==> #[trigger] ws@[i] == es@[i].2,
            k <= ws@.len(),
            mw == max_abs_weight(es@, k as int),
            0 <= mw <= 0x8000_0000_0000_0000,
        decreases ws@.len() - k,
    {
        let w = ws[k] as i128;
        let a = if w < 0 {
            -w
        } else {
            w
        };
        if a > mw {
            mw = a;
        }
        k = k + 1;
    }
    mw
}

/// Shortest distances obey the triangle inequality along every arc.
proof fn lemma_triangle(es: Seq<(usize, usize, i64)>, s: int, dist: Seq<i64>, i: int)
    requires
        shortest_distances(es, s, opt_dist(dist)),
        arcs_in(es, dist.len() as int),
        0 <= i < es.len(),
        dist[es[i].0 as int] != i64::MAX,
    ensures
        dist[es[i].1 as int] != i64::MAX,
        dist[es[i].1 as int] <= dist[es[i].0 as int] + es[i].2,
        reachable(es, s, es[i].1 as int),
{
    let od = opt_dist(dist);
    let u = es[i].0 as int;
    let v = es[i].1 as int;
    assert(od[u] == Some(dist[u]));
    assert(is_shortest(es, s, u, dist[u] as int));
    let p = choose|p: Seq<int>| #[trigger] is_walk(es, s, p) && walk_end(es, s, p) == u && walk_len(es, p) == dist[u];
    lemma_walk_push(es, s, p, i);
    assert(reachable(es, s, v));
    if dist[v] == i64::MAX {
        assert(od[v] is None);
    }
    assert(od[v] == Some(dist[v]));
    assert(is_shortest(es, s, v, dist[v] as int));
}

/// Moving the potentials of the reached nodes by their shortest distances
/// keeps complementary slackness.
#[verifier::rlimit(60)]
#[verifier::spinoff_prover]
proof fn lemma_dual_slackness(
    rn0: ResidualNetwork,
    rn1: ResidualNetwork,
    list: Seq<Edge<()>>,
    ws: Seq<i64>,
    info: Seq<usize>,
    source: int,
    dist: Seq<i64>,
    visited: Seq<bool>,
    top: int,
)
    requires
        rn0.wf(),
        slackness(rn0),
        ws.len() == list.len(),
        info.len() == list.len(),
        arcs_in(arcs_of(list, ws), rn0.num_nodes as int),
        forall|i: int|
            0 <= i < list.len() ==> {
                let tl = (#[trigger] list[i]).u.0 as int;
                let a = info[i] as int;
                &&& 0 <= tl < rn0.num_nodes
                &&& rn0.start@[tl] <= a < rn0.start@[tl + 1]
                &&& rn0.to@[a] == list[i].v
                &&& rn0.residual_capacity@[a] > 0
                &&& ws[i] == rn0.cost@[a] - rn0.potentials@[tl] + rn0.potentials@[list[i].v.0 as int]
            },
        forall|u: int, a: int|
            0 <= u < rn0.num_nodes && rn0.start@[u] <= a < rn0.start@[u + 1] && #[trigger] rn0.residual_capacity@[a] > 0
                && #[trigger] rn0.start@[u] <= a ==> arc_listed(list, info, u, a),
        dist.len() == rn0.num_nodes,
        visited.len() == rn0.num_nodes,
        shortest_distances(arcs_of(list, ws), source, opt_dist(dist)),
        forall|v: int| 0 <= v < rn0.num_nodes ==> #[trigger] visited[v] == reachable(arcs_of(list, ws), source, v),
        forall|v: int| 0 <= v < rn0.num_nodes && #[trigger] dist[v] != i64::MAX ==> dist[v] <= top,
        rn1.wf(),
        rn1.same_except_potentials(rn0),
        forall|u: int|
            0 <= u < rn0.num_nodes ==> #[trigger] rn1.potentials@[u] == if visited[u] {
                rn0.potentials@[u] - dist[u] + top
            } else {
                rn0.potentials@[u] as int
            },
    ensures
        slackness(rn1),
{
    let es = arcs_of(list, ws);
    let od = opt_dist(dist);
    lemma_shape(rn0);
    assert forall|u: int, a: int|
        0 <= u < rn1.num_nodes && rn1.start@[u] <= a < rn1.start@[u + 1] && #[trigger] rn1.residual_capacity@[a] > 0
            && #[trigger] rn1.start@[u] <= a implies arc_reduced(rn1, u, a) >= 0 by {
        assert(rn0.start@[u] <= a);
        assert(arc_listed(list, info, u, a));
        let i = choose|i: int| 0 <= i < list.len() && info[i] == a && #[trigger] list[i].u.0 == u;
        let v = list[i].v.0 as int;
        lemma_arc_nonneg(rn0, u, a);
        assert(es[i] == (u as usize, v as usize, ws[i]));
        if visited[u] {
            if dist[u] == i64::MAX {
                assert(od[u] is None);
            }
            lemma_triangle(es, source, dist, i);
        } else if visited[v] {
            if dist[v] == i64::MAX {
                assert(od[v] is None);
            }
        }
    }
    lemma_slackness_from_arcs(rn1);
}

/// How `dual` moves the potential of `v`, for a largest distance `top`:
/// a node reachable from `s` is lowered by its shortest distance from `s`
/// and raised by `top`, which is no less than that distance; any other
/// node keeps its potential.
pub open spec fn dual_moved(rn0: ResidualNetwork, rn1: ResidualNetwork, s: int, top: int, v: int) -> bool {
    if residual_reachable(rn0, s, v, false) {
        &&& residual_shortest(rn0, s, v, rn0.potentials@[v] - rn1.potentials@[v] + top)
        &&& rn1.potentials@[v] >= rn0.potentials@[v]
    } else {
        rn1.potentials@[v] == rn0.potentials@[v]
    }
}

/// `dual_moved` holds of every node.
pub open spec fn dual_moves(rn0: ResidualNetwork, rn1: ResidualNetwork, s: int, top: int) -> bool {
    forall|v: int| 0 <= v < rn0.num_nodes ==> #[trigger] dual_moved(rn0, rn1, s, top, v)
}

/// Moving the potentials changes no walk along arcs with room.
proof fn lemma_walk_frame(rn0: ResidualNetwork, rn1: ResidualNetwork, s: int, q: Seq<int>)
    requires
        rn1.same_except_potentials(rn0),
    ensures
        residual_walk(rn1, s, q, false) == residual_walk(rn0, s, q, false),
        residual_end(rn1, s, q) == residual_end(rn0, s, q),
    decreases q.len(),
{
    if q.len() > 0 {
        lemma_walk_frame(rn0, rn1, s, q.drop_last());
    }
}

/// Moving the potentials changes nothing of what arcs with room reach.
proof fn lemma_reachable_capacity(rn0: ResidualNetwork, rn1: ResidualNetwork, s: int, v: int)
    requires
        rn1.same_except_potentials(rn0),
    ensures
        residual_reachable(rn1, s, v, false) == residual_reachable(rn0, s, v, false),
{
    if residual_reachable(rn1, s, v, false) {
        let q = choose|q: Seq<int>| #[trigger] residual_walk(rn1, s, q, false) && residual_end(rn1, s, q) == v;
        lemma_walk_frame(rn0, rn1, s, q);
    }
    if residual_reachable(rn0, s, v, false) {
        let q = choose|q: Seq<int>| #[trigger] residual_walk(rn0, s, q, false) && residual_end(rn0, s, q) == v;
        lemma_walk_frame(rn0, rn1, s, q);
    }
}

/// After the potentials move as `dual_moved` says, every arc of a shortest
/// walk from `s` has reduced cost zero: the walk is one of tight arcs.
proof fn lemma_tight_walk(rn0: ResidualNetwork, rn1: ResidualNetwork, s: int, top: int, q: Seq<int>)
    requires
        rn0.wf(),
        rn1.same_except_potentials(rn0),
        dual_moves(rn0, rn1, s, top),
        residual_walk(rn0, s, q, false),
        residual_shortest(rn0, s, residual_end(rn0, s, q), residual_len(rn0, s, q)),
    ensures
        residual_walk(rn1, s, q, true),
        residual_end(rn1, s, q) == residual_end(rn0, s, q),
    decreases q.len(),
{
    if q.len() > 0 {
        let q0 = q.drop_last();
        let a = q.last();
        let u = residual_end(rn0, s, q0);
        let v = residual_end(rn0, s, q);
        lemma_shape(rn0);
        assert(v == rn0.to@[a].0 as int);
        assert(residual_walk(rn0, s, q0, false));
        assert(0 <= u < rn0.num_nodes);
        lemma_arc_at(rn0, u, a);
        assert(0 <= v < rn0.num_nodes);
        assert(residual_reachable(rn0, s, u, false));
        assert(dual_moved(rn0, rn1, s, top, u));
        let du = rn0.potentials@[u] - rn1.potentials@[u] + top;
        let w = choose|w: Seq<int>|
            #[trigger] residual_walk(rn0, s, w, false) && residual_end(rn0, s, w) == u && residual_len(rn0, s, w) == du;
        let w2 = w.push(a);
        assert(w2.drop_last() =~= w);
        assert(residual_walk(rn0, s, w2, false));
        assert(residual_end(rn0, s, w2) == v);
        assert(residual_len(rn0, s, w2) == du + arc_reduced(rn0, u, a));
        assert(residual_len(rn0, s, q) <= residual_len(rn0, s, w2));
        assert(du <= residual_len(rn0, s, q0));
        assert(residual_len(rn0, s, q0) == du);
        lemma_tight_walk(rn0, rn1, s, top, q0);
        assert(residual_reachable(rn0, s, v, false));
        assert(dual_moved(rn0, rn1, s, top, v));
        let dv = rn0.potentials@[v] - rn1.potentials@[v] + top;
        let wv = choose|wv: Seq<int>|
            #[trigger] residual_walk(rn0, s, wv, false) && residual_end(rn0, s, wv) == v && residual_len(rn0, s, wv) == dv;
        assert(dv <= residual_len(rn0, s, q));
        assert(residual_len(rn0, s, q) <= dv);
        assert(arc_reduced(rn1, u, a) == 0);
    }
}

/// Runs Dijkstra's algorithm from `source` on the reduced costs of the
/// residual arcs that can carry flow, then lowers the potential of each
/// node it reached by its distance and raises it by the largest distance
/// assigned. Returns whether `sink` was reached; `NotSolved` when a value
/// leaves the range of `i64`, the network then being as it was.
pub fn dual(rn: &mut ResidualNetwork, source: usize, sink: usize) -> (r: Result<bool, MinimumCostFlowError>)
    requires
        old(rn).wf(),
        source < old(rn).num_nodes,
        sink < old(rn).num_nodes,
    ensures
        final(rn).wf(),
        final(rn).same_except_potentials(*old(rn)),
        r is Err ==> r == Err::<bool, MinimumCostFlowError>(MinimumCostFlowError::NotSolved) && final(rn).potentials
            == old(rn).potentials,
        slackness(*old(rn)) ==> slackness(*final(rn)),
        !reduced_costs_fit(*old(rn)) ==> r is Err,
        r matches Ok(b) ==> (slackness(*old(rn)) ==> {
            &&& b == residual_reachable(*old(rn), source as int, sink as int, false)
            &&& exists|top: int| #[trigger] dual_moves(*old(rn), *final(rn), source as int, top)
        }),
{
    proof {
        lemma_shape(*rn);
    }
    let n = rn.num_nodes;
    let (list, ws, Ghost(info)) = match reduced_arcs(rn) {
        Some(x) => x,
        None => {
            return Err(MinimumCostFlowError::NotSolved);
        },
    };
    let ghost es = arcs_of(list@, ws@);
    let mw = max_weight(Ghost(es), &ws);
    let lim: i128 = 0x7fff_ffff_ffff_ffffi128 / (n as i128 + 1);
    if mw > lim {
        return Err(MinimumCostFlowError::NotSolved);
    }
    proof {
        let big: int = 0x7fff_ffff_ffff_ffff;
        let den: int = n + 1;
        assert(lim == big / den);
        assert(lim * den <= big) by (nonlinear_arith)
            requires
                lim == big / den,
                den > 0,
                big >= 0,
        ;
        assert(n * mw < big) by (nonlinear_arith)
            requires
                0 <= mw <= lim,
                lim * den <= big,
                den == n + 1,
                n >= 0,
                big > 0,
        ;
    }
    let rows = group_by_tail(n, list.as_slice(), &ws);
    let run = dijkstra_rows(n, &rows.start, &rows.to, &rows.weight, source, Ghost(es), rows.arc_edge, rows.edge_arc);
    let mut newp: Vec<i64> = Vec::new();
    let mut u: usize = 0;
    while u < n
        invariant
            rn.wf(),
            n == rn.num_nodes,
            rn.potentials@.len() == n,
            run.dist@.len() == n,
            run.visited@.len() == n,
            u <= n,
            newp@.len() == u,
            forall|x: int|
                0 <= x < u ==> #[trigger] newp@[x] == if run.visited@[x] {
                    rn.potentials@[x] - run.dist@[x] + run.top
                } else {
                    rn.potentials@[x] as int
                },
        decreases n - u,
    {
        let p = rn.potentials[u];
        if run.visited[u] {
            let q: i128 = p as i128 - run.dist[u] as i128 + run.top as i128;
            if q < i64::MIN as i128 || q > i64::MAX as i128 {
                return Err(MinimumCostFlowError::NotSolved);
            }
            newp.push(q as i64);
        } else {
            newp.push(p);
        }
        u = u + 1;
    }
    let reached_sink = run.visited[sink];
    let ghost old_rn = *rn;
    rn.potentials = newp;
    proof {
        lemma_potentials_frame(old_rn, *rn);
        if slackness(old_rn) {
            assert forall|e: int| 0 <= e < es.len() implies (#[trigger] es[e]).2 >= 0 by {
                lemma_arc_nonneg(old_rn, list@[e].u.0 as int, info[e] as int);
            }
            assert(nonneg_weights(es));
            lemma_dual_slackness(old_rn, *rn, list@, ws@, info, source as int, run.dist@, run.visited@, run.top as int);
            let top = run.top as int;
            assert forall|v: int| 0 <= v < n implies #[trigger] dual_moved(old_rn, *rn, source as int, top, v) by {
                lemma_reachable_same(old_rn, es, info, false, source as int, v);
                if run.visited@[v] {
                    let od = opt_dist(run.dist@);
                    assert(od[v] == if run.dist@[v] == i64::MAX { None } else { Some(run.dist@[v]) });
                    if run.dist@[v] == i64::MAX {
                        assert(od[v] is None);
                    }
                    assert(is_shortest(es, source as int, v, run.dist@[v] as int));
                    lemma_shortest_same(old_rn, es, info, source as int, v, run.dist@[v] as int);
                    assert(newp@[v] == old_rn.potentials@[v] - run.dist@[v] + top);
                }
            }
            lemma_reachable_same(old_rn, es, info, false, source as int, sink as int);
            assert(dual_moves(old_rn, *rn, source as int, top));
        }
    }
    Ok(reached_sink)
}

} // verus!

verus! {

/// The arcs that can carry flow at reduced cost zero, as `(tail, head, 0)`,
/// each with its position: all of them, and no other.
fn admissible_arcs(rn: &ResidualNetwork) -> (r: (Vec<(usize, usize, i64)>, Vec<usize>))
    requires
        rn.wf(),
    ensures
        r.1@.len() == r.0@.len(),
        arcs_in(r.0@, rn.num_nodes as int),
        forall|i: int|
            0 <= i < r.0@.len() ==> {
                let t = (#[trigger] r.0@[i]).0 as int;
                let a = r.1@[i] as int;
                &&& 0 <= t < rn.num_nodes
                &&& rn.start@[t] <= a < rn.start@[t + 1]
                &&& rn.to@[a].0 == r.0@[i].1
                &&& rn.residual_capacity@[a] > 0
                &&& rn.cost@[a] - rn.potentials@[t] + rn.potentials@[rn.to@[a].0 as int] == 0
            },
        listed_faithfully(*rn, r.0@, r.1@, true),
        listed_completely(*rn, r.0@, r.1@, true),
{
    proof {
        lemma_shape(*rn);
    }
    let n = rn.num_nodes;
    let mut list: Vec<(usize, usize, i64)> = Vec::new();
    let mut info: Vec<usize> = Vec::new();
    let mut u: usize = 0;
    while u < n
        invariant
            rn.wf(),
            n == rn.num_nodes,
            rn.start@.len() == n + 1,
            u <= n,
            info@.len() == list@.len(),
            forall|i: int|
                0 <= i < list@.len() ==> {
                    let t = (#[trigger] list@[i]).0 as int;
                    let a = info@[i] as int;
                    &&& 0 <= t < n
                    &&& list@[i].1 < n
                    &&& rn.start@[t] <= a < rn.start@[t + 1]
                    &&& rn.to@[a].0 == list@[i].1
                    &&& rn.residual_capacity@[a] > 0
                    &&& rn.cost@[a] - rn.potentials@[t] + rn.potentials@[rn.to@[a].0 as int] == 0
                    &&& list@[i].2 == 0
                },
            forall|w: int, b: int|
                0 <= w < u && rn.start@[w] <= b < rn.start@[w + 1] && #[trigger] rn.residual_capacity@[b] > 0
                    && #[trigger] rn.start@[w] <= b && arc_reduced(*rn, w, b) == 0 ==> exists|i: int|
                    0 <= i < list@.len() && info@[i] == b && #[trigger] list@[i].0 == w,
        decreases n - u,
    {
        let range = rn.neighbors(NodeId(u));
        let mut a = range.start;
        while a < range.end
            invariant
                rn.wf(),
                n == rn.num_nodes,
                rn.start@.len() == n + 1,
                u < n,
                range.start == rn.start@[u as int],
                range.end == rn.start@[u + 1],
                range.start <= a,
                info@.len() == list@.len(),
                forall|i: int|
                    0 <= i < list@.len() ==> {
                        let t = (#[trigger] list@[i]).0 as int;
                        let b = info@[i] as int;
                        &&& 0 <= t < n
                        &&& list@[i].1 < n
                        &&& rn.start@[t] <= b < rn.start@[t + 1]
                        &&& rn.to@[b].0 == list@[i].1
                        &&& rn.residual_capacity@[b] > 0
                        &&& rn.cost@[b] - rn.potentials@[t] + rn.potentials@[rn.to@[b].0 as int] == 0
                        &&& list@[i].2 == 0
                    },
                forall|w: int, b: int|
                    0 <= w < u && rn.start@[w] <= b < rn.start@[w + 1] && #[trigger] rn.residual_capacity@[b] > 0
                        && #[trigger] rn.start@[w] <= b && arc_reduced(*rn, w, b) == 0 ==> exists|i: int|
                        0 <= i < list@.len() && info@[i] == b && #[trigger] list@[i].0 == w,
                forall|b: int|
                    range.start <= b < a && #[trigger] rn.residual_capacity@[b] > 0 && arc_reduced(*rn, u as int, b)
                        == 0 ==> exists|i: int| 0 <= i < list@.len() && info@[i] == b && #[trigger] list@[i].0 == u,
            decreases range.end - a,
        {
            proof {
                lemma_arc_at(*rn, u as int, a as int);
                lemma_shape(*rn);
            }
            let ghost list0 = list@;
            let ghost info0 = info@;
            if rn.residual_capacity[a] > 0 {
                let v = rn.to[a].0;
                let rc: i128 = rn.cost[a] as i128 - rn.potentials[u] as i128 + rn.potentials[v] as i128;
                if rc == 0 {
                    list.push((u, v, 0i64));
                    info.push(a);
                }
            }
            proof {
                assert forall|w: int, b: int|
                    0 <= w < u && rn.start@[w] <= b < rn.start@[w + 1] && #[trigger] rn.residual_capacity@[b] > 0
                        && #[trigger] rn.start@[w] <= b && arc_reduced(*rn, w, b) == 0 implies exists|i: int|
                        0 <= i < list@.len() && info@[i] == b && #[trigger] list@[i].0 == w by {
                    let i = choose|i: int| 0 <= i < list0.len() && info0[i] == b && #[trigger] list0[i].0 == w;
                    assert(list@[i] == list0[i]);
                }
                assert forall|b: int|
                    range.start <= b < a + 1 && #[trigger] rn.residual_capacity@[b] > 0 && arc_reduced(*rn, u as int, b)
                        == 0 implies exists|i: int| 0 <= i < list@.len() && info@[i] == b && #[trigger] list@[i].0 == u by {
                    if b < a {
                        let i = choose|i: int| 0 <= i < list0.len() && info0[i] == b && #[trigger] list0[i].0 == u;
                        assert(list@[i] == list0[i]);
                    } else {
                        assert(list@[list@.len() - 1].0 == u);
                    }
                }
            }
            a = a + 1;
        }
        proof {
            assert forall|w: int, b: int|
                0 <= w < u + 1 && rn.start@[w] <= b < rn.start@[w + 1] && #[trigger] rn.residual_capacity@[b] > 0
                    && #[trigger] rn.start@[w] <= b && arc_reduced(*rn, w, b) == 0 implies exists|i: int|
                    0 <= i < list@.len() && info@[i] == b && #[trigger] list@[i].0 == w by {
                if w == u {
                    assert(b < range.end);
                }
            }
        }
        u = u + 1;
    }
    (list, info)
}

/// The least of `cap` and what the arcs of the tree path from `s` to `t` can carry.
pub(crate) fn bottleneck(
    rn: &ResidualNetwork,
    list: &Vec<(usize, usize, i64)>,
    info: &Vec<usize>,
    tree: &BfsTree,
    n: usize,
    s: usize,
    t: usize,
    cap: i64,
) -> (delta: i64)
    requires
        rn.wf(),
        n == rn.num_nodes,
        info@.len() == list@.len(),
        forall|i: int|
            0 <= i < list@.len() ==> {
                let tl = (#[trigger] list@[i]).0 as int;
                let a = info@[i] as int;
                &&& 0 <= tl < rn.num_nodes
                &&& rn.start@[tl] <= a < rn.start@[tl + 1]
                &&& rn.to@[a].0 == list@[i].1
                &&& rn.residual_capacity@[a] > 0
            },
        tree_ok(list@, n as int, s as int, *tree),
        arcs_in(list@, n as int),
        t < n,
        tree.reached@[t as int],
        cap >= 1,
    ensures
        1 <= delta <= cap,
        forall|j: nat|
            j < tree.level@[t as int] ==> delta <= rn.residual_capacity@[info@[tree.parent@[#[trigger] up(
                list@,
                tree.parent@,
                t as int,
                j,
            )] as int] as int],
{
    let mut delta = cap;
    let mut cur = t;
    let ghost mut k: nat = 0;
    proof {
        lemma_up(list@, n as int, s as int, *tree, t as int, 0);
    }
    while cur != s
        invariant
            rn.wf(),
            n == rn.num_nodes,
            info@.len() == list@.len(),
            forall|i: int|
                0 <= i < list@.len() ==> {
                    let tl = (#[trigger] list@[i]).0 as int;
                    let a = info@[i] as int;
                    &&& 0 <= tl < rn.num_nodes
                    &&& rn.start@[tl] <= a < rn.start@[tl + 1]
                    &&& rn.to@[a].0 == list@[i].1
                    &&& rn.residual_capacity@[a] > 0
                },
            tree_ok(list@, n as int, s as int, *tree),
            arcs_in(list@, n as int),
            t < n,
            tree.reached@[t as int],
            k <= tree.level@[t as int],
            cur == up(list@, tree.parent@, t as int, k),
            cur < n,
            tree.reached@[cur as int],
            tree.level@[cur as int] == tree.level@[t as int] - k,
            (cur == s) <==> (k == tree.level@[t as int]),
            1 <= delta <= cap,
            forall|j: nat|
                j < k ==> delta <= rn.residual_capacity@[info@[tree.parent@[#[trigger] up(
                    list@,
                    tree.parent@,
                    t as int,
                    j,
                )] as int] as int],
        decreases tree.level@[cur as int],
    {
        let idx = tree.parent[cur];
        let a = info[idx];
        proof {
            lemma_shape(*rn);
            lemma_arc_at(*rn, list@[idx as int].0 as int, a as int);
        }
        let r = rn.residual_capacity[a];
        if r < delta {
            delta = r;
        }
        cur = list[idx].0;
        proof {
            k = k + 1;
            lemma_up(list@, n as int, s as int, *tree, t as int, k);
        }
    }
    delta
}

} // verus!

verus! {

/// Edge `k` carries a different flow in `rn` than in `rn0`.
pub open spec fn touched(rn: ResidualNetwork, rn0: ResidualNetwork, k: int) -> bool {
    rn.residual_capacity@[rn0.fwd(k)] != rn0.residual_capacity@[rn0.fwd(k)] || rn.residual_capacity@[rn0.bwd(k)]
        != rn0.residual_capacity@[rn0.bwd(k)]
}

/// The position of the `j`-th arc on the tree path from `t` back toward the
/// root.
pub open spec fn path_arc(list: Seq<(usize, usize, i64)>, info: Seq<usize>, tree: BfsTree, t: int, j: nat) -> int {
    info[tree.parent@[up(list, tree.parent@, t, j)] as int] as int
}

/// Edge `q` owns one of the first `k` arcs on the tree path from `t`.
pub open spec fn on_path(
    rn: ResidualNetwork,
    list: Seq<(usize, usize, i64)>,
    info: Seq<usize>,
    tree: BfsTree,
    t: int,
    q: int,
    k: nat,
) -> bool {
    exists|j: nat| j < k && #[trigger] rn.arc_edge@[path_arc(list, info, tree, t, j)] / 2 == q
}

/// Pushes `delta` units along the tree path from `s` to `t`: the excess of
/// `t` grows by `delta`, that of `s` falls by `delta`, all others stay.
#[verifier::rlimit(100)]
#[verifier::spinoff_prover]
pub(crate) fn push_path(
    rn: &mut ResidualNetwork,
    list: &Vec<(usize, usize, i64)>,
    info: &Vec<usize>,
    tree: &BfsTree,
    n: usize,
    s: usize,
    t: usize,
    delta: i64,
)
    requires
        old(rn).wf(),
        n == old(rn).num_nodes,
        info@.len() == list@.len(),
        forall|i: int|
            0 <= i < list@.len() ==> {
                let tl = (#[trigger] list@[i]).0 as int;
                let a = info@[i] as int;
                &&& 0 <= tl < old(rn).num_nodes
                &&& old(rn).start@[tl] <= a < old(rn).start@[tl + 1]
                &&& old(rn).to@[a].0 == list@[i].1
                &&& old(rn).residual_capacity@[a] > 0
            },
        tree_ok(list@, n as int, s as int, *tree),
        arcs_in(list@, n as int),
        t < n,
        s != t,
        tree.reached@[t as int],
        1 <= delta,
        forall|j: nat|
            j < tree.level@[t as int] ==> delta <= old(rn).residual_capacity@[info@[tree.parent@[#[trigger] up(
                list@,
                tree.parent@,
                t as int,
                j,
            )] as int] as int],
    ensures
        final(rn).wf(),
        final(rn).same_except_flow(*old(rn)),
        final(rn).excesses@.len() == n,
        forall|x: int|
            0 <= x < n ==> #[trigger] final(rn).excesses@[x] == old(rn).excesses@[x] + (if x == t {
                delta as int
            } else {
                0int
            }) - (if x == s {
                delta as int
            } else {
                0int
            }),
        forall|q: int|
            0 <= q < old(rn).num_edges && #[trigger] touched(*final(rn), *old(rn), q) ==> on_path(
                *old(rn),
                list@,
                info@,
                *tree,
                t as int,
                q,
                tree.level@[t as int] as nat,
            ),
{
    let ghost rn0 = *rn;
    let mut cur = t;
    let ghost mut k: nat = 0;
    proof {
        lemma_up(list@, n as int, s as int, *tree, t as int, 0);
        lemma_shape(rn0);
    }
    while cur != s
        invariant
            rn0.wf(),
            rn.wf(),
            rn.same_except_flow(rn0),
            n == rn0.num_nodes,
            rn0.excesses@.len() == n,
            rn.excesses@.len() == n,
            rn.residual_capacity@.len() == rn0.residual_capacity@.len(),
            info@.len() == list@.len(),
            forall|i: int|
                0 <= i < list@.len() ==> {
                    let tl = (#[trigger] list@[i]).0 as int;
                    let a = info@[i] as int;
                    &&& 0 <= tl < rn0.num_nodes
                    &&& rn0.start@[tl] <= a < rn0.start@[tl + 1]
                    &&& rn0.to@[a].0 == list@[i].1
                    &&& rn0.residual_capacity@[a] > 0
                },
            tree_ok(list@, n as int, s as int, *tree),
            arcs_in(list@, n as int),
            t < n,
            s != t,
            tree.reached@[t as int],
            k <= tree.level@[t as int],
            cur == up(list@, tree.parent@, t as int, k),
            cur < n,
            tree.reached@[cur as int],
            tree.level@[cur as int] == tree.level@[t as int] - k,
            (cur == s) <==> (k == tree.level@[t as int]),
            1 <= delta,
            forall|j: nat|
                j < tree.level@[t as int] ==> delta <= rn0.residual_capacity@[info@[tree.parent@[#[trigger] up(
                    list@,
                    tree.parent@,
                    t as int,
                    j,
                )] as int] as int],
            forall|x: int|
                0 <= x < n ==> #[trigger] rn.excesses@[x] == rn0.excesses@[x] + (if x == t {
                    delta as int
                } else {
                    0int
                }) - (if x == cur {
                    delta as int
                } else {
                    0int
                }),
            forall|q: int|
                0 <= q < rn0.num_edges && #[trigger] touched(*rn, rn0, q) ==> {
                    let e = rn0.edges@[q];
                    &&& tree.reached@[e.u.0 as int]
                    &&& tree.reached@[e.v.0 as int]
                    &&& tree.level@[e.u.0 as int] >= tree.level@[cur as int]
                    &&& tree.level@[e.v.0 as int] >= tree.level@[cur as int]
                },
            forall|q: int|
                0 <= q < rn0.num_edges && #[trigger] touched(*rn, rn0, q) ==> on_path(
                    rn0,
                    list@,
                    info@,
                    *tree,
                    t as int,
                    q,
                    k,
                ),
        decreases tree.level@[cur as int],
    {
        let idx = tree.parent[cur];
        let a = info[idx];
        let p = list[idx].0;
        let ghost q = rn0.arc_edge@[a as int] / 2;
        proof {
            lemma_shape(rn0);
            lemma_arc_edge(rn0, p as int, a as int);
            lemma_pair(rn0, q);
            assert(list@[idx as int].1 == cur);
            assert(tree.level@[p as int] + 1 == tree.level@[cur as int]);
            assert(!touched(*rn, rn0, q));
            assert(delta <= rn0.residual_capacity@[a as int]);
            assert(rn.residual_capacity@[a as int] == rn0.residual_capacity@[a as int]);
        }
        let ghost before = *rn;
        rn.push_flow(NodeId(p), ArcId(a), delta);
        proof {
            assert forall|q2: int| 0 <= q2 < rn0.num_edges && #[trigger] touched(*rn, rn0, q2) implies {
                let e = rn0.edges@[q2];
                &&& tree.reached@[e.u.0 as int]
                &&& tree.reached@[e.v.0 as int]
                &&& tree.level@[e.u.0 as int] >= tree.level@[p as int]
                &&& tree.level@[e.v.0 as int] >= tree.level@[p as int]
            } by {
                if q2 != q {
                    lemma_pair(rn0, q2);
                    assert(rn0.fwd(q2) != rn0.fwd(q));
                    assert(touched(before, rn0, q2));
                }
            }
            assert(path_arc(list@, info@, *tree, t as int, k) == a);
            assert forall|q2: int| 0 <= q2 < rn0.num_edges && #[trigger] touched(*rn, rn0, q2) implies on_path(
                rn0,
                list@,
                info@,
                *tree,
                t as int,
                q2,
                k + 1,
            ) by {
                if q2 != q {
                    lemma_pair(rn0, q2);
                    assert(rn0.fwd(q2) != rn0.fwd(q));
                    assert(touched(before, rn0, q2));
                    let j = choose|j: nat| j < k && #[trigger] rn0.arc_edge@[path_arc(list@, info@, *tree, t as int, j)] / 2 == q2;
                } else {
                    assert(rn0.arc_edge@[path_arc(list@, info@, *tree, t as int, k)] / 2 == q2);
                }
            }
        }
        cur = p;
        proof {
            k = k + 1;
            lemma_up(list@, n as int, s as int, *tree, t as int, k);
        }
    }
}

} // verus!

verus! {

/// Pushes flow from `s` to `t` along arcs of reduced cost zero until `s`
/// has no excess left or no such path remains. Returns whether any flow
/// moved.
#[verifier::rlimit(40)]
#[verifier::spinoff_prover]
pub fn primal(rn: &mut ResidualNetwork, s: usize, t: usize) -> (pushed: bool)
    requires
        old(rn).wf(),
        s < old(rn).num_nodes,
        t < old(rn).num_nodes,
        s != t,
    ensures
        final(rn).wf(),
        final(rn).same_except_flow(*old(rn)),
        final(rn).excesses@.len() == old(rn).excesses@.len(),
        forall|x: int|
            0 <= x < old(rn).num_nodes && x != s && x != t ==> #[trigger] final(rn).excesses@[x] == old(rn).excesses@[x],
        final(rn).excesses@[s as int] + final(rn).excesses@[t as int] == old(rn).excesses@[s as int]
            + old(rn).excesses@[t as int],
        final(rn).excesses@[s as int] <= old(rn).excesses@[s as int],
        pushed ==> final(rn).excesses@[s as int] < old(rn).excesses@[s as int],
        old(rn).excesses@[s as int] > 0 ==> final(rn).excesses@[s as int] >= 0,
        slackness(*old(rn)) ==> slackness(*final(rn)),
        !pushed ==> *final(rn) == *old(rn),
        final(rn).excesses@[s as int] > 0 ==> !residual_reachable(*final(rn), s as int, t as int, true),
{
    let ghost rn0 = *rn;
    let n = rn.num_nodes;
    proof {
        lemma_shape(*rn);
    }
    let mut pushed = false;
    while rn.excesses[s] > 0
        invariant
            rn.wf(),
            rn.same_except_flow(rn0),
            n == rn0.num_nodes,
            s < n,
            t < n,
            s != t,
            rn.excesses@.len() == n,
            rn0.excesses@.len() == n,
            forall|x: int| 0 <= x < n && x != s && x != t ==> #[trigger] rn.excesses@[x] == rn0.excesses@[x],
            rn.excesses@[s as int] + rn.excesses@[t as int] == rn0.excesses@[s as int] + rn0.excesses@[t as int],
            rn.excesses@[s as int] <= rn0.excesses@[s as int],
            pushed ==> rn.excesses@[s as int] < rn0.excesses@[s as int],
            rn0.excesses@[s as int] > 0 ==> rn.excesses@[s as int] >= 0,
            slackness(rn0) ==> slackness(*rn),
            !pushed ==> *rn == rn0,
        ensures
            rn.excesses@[s as int] > 0 ==> !residual_reachable(*rn, s as int, t as int, true),
        decreases rn.excesses@[s as int],
    {
        let (list, info) = admissible_arcs(rn);
        let tree = bfs(n, &list, s);
        if !tree.reached[t] {
            proof {
                lemma_reachable_same(*rn, list@, info@, true, s as int, t as int);
            }
            break;
        }
        let cap = rn.excesses[s];
        let delta = bottleneck(rn, &list, &info, &tree, n, s, t, cap);
        let ghost before = *rn;
        push_path(rn, &list, &info, &tree, n, s, t, delta);
        proof {
            if slackness(rn0) {
                assert forall|q: int| 0 <= q < before.num_edges && #[trigger] touched(*rn, before, q) implies reduced(
                    before,
                    q,
                ) == 0 by {
                    assert(on_path(before, list@, info@, tree, t as int, q, tree.level@[t as int] as nat));
                    let j = choose|j: nat|
                        j < tree.level@[t as int] && #[trigger] before.arc_edge@[path_arc(list@, info@, tree, t as int, j)]
                            / 2 == q;
                    let v = up(list@, tree.parent@, t as int, j);
                    lemma_up(list@, n as int, s as int, tree, t as int, j);
                    let e = tree.parent@[v] as int;
                    let x = list@[e].0 as int;
                    let a = info@[e] as int;
                    lemma_arc_reduced(before, x, a);
                }
                lemma_push_step(before, *rn);
            }
            assert(rn.excesses@[s as int] == before.excesses@[s as int] - delta);
            assert(rn.excesses@[t as int] == before.excesses@[t as int] + delta);
            assert forall|x: int| 0 <= x < n && x != s && x != t implies #[trigger] rn.excesses@[x] == rn0.excesses@[x] by {
                assert(rn.excesses@[x] == before.excesses@[x]);
            }
        }
        pushed = true;
    }
    pushed
}

} // verus!

verus! {

/// The primal-dual solver: the residual network of the graph extended by a
/// node `source` that supplies every supply and a node `sink` that takes
/// every demand.
pub struct PrimalDual {
    status: Status,
    rn: ResidualNetwork,
    source: NodeId,
    sink: NodeId,
    /// The edges of the graph the solver was built for.
    graph_edges: Ghost<Seq<Edge<MinimumCostFlowEdge>>>,
    /// The nodes of that graph.
    graph_nodes: Ghost<Seq<MinimumCostFlowNode>>,
    /// The supplies of the normalized network.
    supplies: Ghost<Seq<i64>>,
}

impl PrimalDual {
    /// The extended network: the source and the sink after the nodes of
    /// the graph, joined to them by the edges after the graph's.
    closed spec fn extended(&self) -> bool {
        let m = self.rn.num_edges_original_graph as int;
        let n = self.rn.num_nodes_original_graph as int;
        let b = self.supplies@;
        &&& self.graph_nodes@.len() == n
        &&& b.len() == n
        &&& forall|x: int| 0 <= x < n ==> -SUPPLY_LIMIT <= #[trigger] b[x] <= SUPPLY_LIMIT
        &&& forall|x: int|
            0 <= x < n ==> #[trigger] b[x] == self.graph_nodes@[x].b + balance_shift(self.rn.edges@, m, x)
        &&& self.source == NodeId(n as usize)
        &&& self.sink == NodeId((n + 1) as usize)
        &&& self.rn.num_nodes == n + 2
        &&& self.rn.num_edges == m + sd_pos(b, n, self.source, self.sink)
        &&& forall|i: int|
            0 <= i < sd_pos(b, n, self.source, self.sink) ==> #[trigger] self.rn.edges@[m + i] == supply_demand_edges(
                b,
                n,
                self.source,
                self.sink,
            )[i]
        &&& forall|x: int| 0 <= x < n ==> #[trigger] self.rn.b@[x] == 0
        &&& self.rn.b@[n] == positive_sum(b, n)
        &&& self.rn.b@[n + 1] == negative_sum(b, n)
        &&& forall|e: int| 0 <= e < m ==> (#[trigger] self.rn.edges@[e]).u.0 < n && self.rn.edges@[e].v.0 < n
        &&& forall|x: int| 0 <= x < n ==> #[trigger] self.rn.excesses@[x] == 0
    }

    closed spec fn inv(&self) -> bool {
        let m = self.rn.num_edges_original_graph as int;
        &&& self.rn.wf()
        &&& slackness(self.rn)
        &&& self.rn.original_ok()
        &&& self.source.0 < self.rn.num_nodes
        &&& self.sink.0 < self.rn.num_nodes
        &&& self.source != self.sink
        &&& self.graph_edges@.len() == m
        &&& forall|e: int| 0 <= e < m ==> #[trigger] self.rn.edges@[e] == normalize(self.graph_edges@[e])
        &&& forall|x: int| 0 <= x < self.rn.num_nodes ==> #[trigger] self.rn.base_balance@[x] == 0
        &&& forall|e: int|
            0 <= e < m ==> -VALUE_LIMIT <= (#[trigger] self.graph_edges@[e]).data.lower <= self.graph_edges@[
                e].data.upper <= VALUE_LIMIT && -VALUE_LIMIT <= self.graph_edges@[e].data.cost <= VALUE_LIMIT
        &&& self.extended()
    }

    /// The edges of the graph the solver was built for.
    pub closed spec fn edges_of(&self) -> Seq<Edge<MinimumCostFlowEdge>> {
        self.graph_edges@
    }

    /// The nodes of the graph the solver was built for.
    pub closed spec fn nodes_of(&self) -> Seq<MinimumCostFlowNode> {
        self.graph_nodes@
    }

    /// Read on the graph, the flow takes from every node exactly its
    /// supply: what enters it less what leaves it is minus its supply.
    pub closed spec fn supplies_met_in_graph(&self) -> bool {
        forall|x: int|
            0 <= x < self.graph_nodes@.len() ==> #[trigger] graph_balance(
                self.graph_edges@,
                graph_flows(self.rn),
                self.graph_edges@.len() as int,
                x,
            ) + self.graph_nodes@[x].b == 0
    }

    pub fn new(graph: &Graph<Directed, MinimumCostFlowNode, MinimumCostFlowEdge>) -> (pd: Self)
        requires
            network_ok(*graph),
        ensures
            pd.ready(),
            !pd.solved(),
            pd.edge_count() == graph.edges@.len(),
            pd.node_count() == graph.nodes@.len(),
            pd.edges_of() == graph.edges@,
            pd.nodes_of() == graph.nodes@,
            forall|e: int| 0 <= e < graph.edges@.len() ==> #[trigger] pd.flow_of(e) == resting_flow(graph.edges@[e]),
            forall|x: int| 0 <= x < graph.nodes@.len() ==> #[trigger] pd.potential_of(x) == 0,
    {
        let nn = NormalizedNetwork::from(graph);
        proof {
            let m = graph.edges@.len() as int;
            assert forall|x: int| 0 <= x < nn.node_count() implies #[trigger] nn.supplies()[x] == graph.nodes@[x].b
                + balance_shift(nn.normalized_edges(), m, x) by {
                assert forall|i: int| 0 <= i < m implies #[trigger] nn.normalized_edges()[i] == normalize(
                    graph.edges@[i],
                ) by {
                }
                lemma_shift_normalized(*graph, nn.normalized_edges(), m, x);
            }
        }
        let pd = Self::new_with_normalized_network(nn, Ghost(graph.edges@), Ghost(graph.nodes@));
        proof {
            lemma_shape(pd.rn);
            assert forall|e: int| 0 <= e < graph.edges@.len() implies #[trigger] pd.flow_of(e) == resting_flow(
                graph.edges@[e],
            ) by {
                assert(pd.rn.edges@[e] == normalize(graph.edges@[e]));
                assert(pd.rn.flow(e) == 0);
            }
        }
        pd
    }

    /// A solver for `graph` whose bounds, costs and supplies are read off its
    /// edges and nodes by `lower_fn`, `upper_fn`, `cost_fn` and `b_fn`.
    pub fn new_with<N, E, LF, UF, CF, BF>(
        graph: &Graph<Directed, N, E>,
        lower_fn: LF,
        upper_fn: UF,
        cost_fn: CF,
        b_fn: BF,
    ) -> (pd: Self) where
        LF: Fn(&Edge<E>) -> i64,
        UF: Fn(&Edge<E>) -> i64,
        CF: Fn(&Edge<E>) -> i64,
        BF: Fn(&N) -> i64,

        requires
            graph.endpoints_valid(),
            graph.nodes@.len() <= VALUE_LIMIT,
            graph.edges@.len() <= VALUE_LIMIT,
            forall|i: int|
                0 <= i < graph.edges@.len() ==> call_requires(lower_fn, (&#[trigger] graph.edges@[i],))
                    && call_requires(upper_fn, (&graph.edges@[i],)) && call_requires(cost_fn, (&graph.edges@[i],)),
            forall|x: int| 0 <= x < graph.nodes@.len() ==> call_requires(b_fn, (&#[trigger] graph.nodes@[x],)),
            forall|i: int, l: i64, u: i64|
                0 <= i < graph.edges@.len() && call_ensures(lower_fn, (&#[trigger] graph.edges@[i],), l)
                    && call_ensures(upper_fn, (&graph.edges@[i],), u) ==> -VALUE_LIMIT <= l <= u <= VALUE_LIMIT,
            forall|i: int, c: i64|
                0 <= i < graph.edges@.len() && call_ensures(cost_fn, (&#[trigger] graph.edges@[i],), c)
                    ==> -VALUE_LIMIT <= c <= VALUE_LIMIT,
            forall|x: int, v: i64|
                0 <= x < graph.nodes@.len() && call_ensures(b_fn, (&#[trigger] graph.nodes@[x],), v) ==> -VALUE_LIMIT
                    <= v <= VALUE_LIMIT,
        ensures
            pd.ready(),
            !pd.solved(),
            pd.edge_count() == graph.edges@.len(),
            pd.node_count() == graph.nodes@.len(),
            pd.edges_of().len() == graph.edges@.len(),
            forall|i: int|
                0 <= i < graph.edges@.len() ==> {
                    let e = #[trigger] pd.edges_of()[i];
                    &&& e.u == graph.edges@[i].u
                    &&& e.v == graph.edges@[i].v
                    &&& call_ensures(lower_fn, (&graph.edges@[i],), e.data.lower)
                    &&& call_ensures(upper_fn, (&graph.edges@[i],), e.data.upper)
                    &&& call_ensures(cost_fn, (&graph.edges@[i],), e.data.cost)
                },
            pd.nodes_of().len() == graph.nodes@.len(),
            forall|x: int|
                0 <= x < graph.nodes@.len() ==> call_ensures(b_fn, (&graph.nodes@[x],), #[trigger] pd.nodes_of()[x].b),
    {
        let mut nodes: Vec<MinimumCostFlowNode> = Vec::new();
        let mut x: usize = 0;
        while x < graph.nodes.len()
            invariant
                x <= graph.nodes@.len(),
                nodes@.len() == x,
                forall|y: int| 0 <= y < graph.nodes@.len() ==> call_requires(b_fn, (&#[trigger] graph.nodes@[y],)),
                forall|y: int, v: i64|
                    0 <= y < graph.nodes@.len() && call_ensures(b_fn, (&#[trigger] graph.nodes@[y],), v)
                        ==> -VALUE_LIMIT <= v <= VALUE_LIMIT,
                forall|y: int| 0 <= y < x ==> -VALUE_LIMIT <= (#[trigger] nodes@[y]).b <= VALUE_LIMIT,
                forall|y: int| 0 <= y < x ==> call_ensures(b_fn, (&graph.nodes@[y],), #[trigger] nodes@[y].b),
            decreases graph.nodes@.len() - x,
        {
            let b = b_fn(&graph.nodes[x]);
            nodes.push(MinimumCostFlowNode { b });
            x = x + 1;
        }
        let mut edges: Vec<Edge<MinimumCostFlowEdge>> = Vec::new();
        let mut i: usize = 0;
        while i < graph.edges.len()
            invariant
                i <= graph.edges@.len(),
                edges@.len() == i,
                graph.endpoints_valid(),
                forall|j: int|
                    0 <= j < graph.edges@.len() ==> call_requires(lower_fn, (&#[trigger] graph.edges@[j],))
                        && call_requires(upper_fn, (&graph.edges@[j],)) && call_requires(cost_fn, (&graph.edges@[j],)),
                forall|j: int, l: i64, u: i64|
                    0 <= j < graph.edges@.len() && call_ensures(lower_fn, (&#[trigger] graph.edges@[j],), l)
                        && call_ensures(upper_fn, (&graph.edges@[j],), u) ==> -VALUE_LIMIT <= l <= u <= VALUE_LIMIT,
                forall|j: int, c: i64|
                    0 <= j < graph.edges@.len() && call_ensures(cost_fn, (&#[trigger] graph.edges@[j],), c)
                        ==> -VALUE_LIMIT <= c <= VALUE_LIMIT,
                forall|j: int|
                    0 <= j < i ==> {
                        let e = #[trigger] edges@[j];
                        &&& e.u == graph.edges@[j].u
                        &&& e.v == graph.edges@[j].v
                        &&& call_ensures(lower_fn, (&graph.edges@[j],), e.data.lower)
                        &&& call_ensures(upper_fn, (&graph.edges@[j],), e.data.upper)
                        &&& call_ensures(cost_fn, (&graph.edges@[j],), e.data.cost)
                        &&& -VALUE_LIMIT <= e.data.lower <= e.data.upper <= VALUE_LIMIT
                        &&& -VALUE_LIMIT <= e.data.cost <= VALUE_LIMIT
                    },
            decreases graph.edges@.len() - i,
        {
            let e = &graph.edges[i];
            let lower = lower_fn(e);
            let upper = upper_fn(e);
            let cost = cost_fn(e);
            edges.push(Edge { u: e.u, v: e.v, data: MinimumCostFlowEdge { lower, upper, cost } });
            i = i + 1;
        }
        let g: Graph<Directed, MinimumCostFlowNode, MinimumCostFlowEdge> = Graph {
            nodes,
            edges,
            direction: std::marker::PhantomData,
        };
        proof {
            assert forall|j: int| 0 <= j < g.edges@.len() implies (#[trigger] g.edges@[j]).u.0 < g.nodes@.len()
                && g.edges@[j].v.0 < g.nodes@.len() by {
                assert(g.edges@[j].u == graph.edges@[j].u);
            }
        }
        Self::new(&g)
    }

    fn new_with_normalized_network(
        nn: NormalizedNetwork,
        Ghost(ges): Ghost<Seq<Edge<MinimumCostFlowEdge>>>,
        Ghost(gns): Ghost<Seq<MinimumCostFlowNode>>,
    ) -> (pd: Self)
        requires
            nn.bounded(),
            nn.normalized_edges() == ges.map_values(|e: Edge<MinimumCostFlowEdge>| normalize(e)),
            gns.len() == nn.node_count(),
            forall|x: int|
                0 <= x < nn.node_count() ==> #[trigger] nn.supplies()[x] == gns[x].b + balance_shift(
                    nn.normalized_edges(),
                    ges.len() as int,
                    x,
                ),
            forall|e: int|
                0 <= e < ges.len() ==> -VALUE_LIMIT <= (#[trigger] ges[e]).data.lower <= ges[e].data.upper
                    <= VALUE_LIMIT && -VALUE_LIMIT <= ges[e].data.cost <= VALUE_LIMIT,
        ensures
            pd.inv(),
            pd.status == Status::NotSolved,
            pd.rn.num_edges_original_graph == ges.len(),
            pd.rn.num_nodes_original_graph == nn.node_count(),
            pd.graph_edges@ == ges,
            pd.graph_nodes@ == gns,
            forall|e: int| 0 <= e < pd.rn.num_edges ==> #[trigger] pd.rn.flow(e) == 0,
            forall|x: int| 0 <= x < pd.rn.num_nodes ==> #[trigger] pd.rn.potentials@[x] == 0,
    {
        let n = nn.num_nodes();
        let (source, sink, artificial_edges, excess_fix) = construct_extend_network_one_supply_one_demand(&nn);
        let nodes: Vec<NodeId> = vec![source, sink];
        let nodes_slice = nodes.as_slice();
        let art_slice = artificial_edges.as_slice();
        let fix_slice = excess_fix.as_slice();
        proof {
            let b = nn.supplies();
            let es = nn.normalized_edges();
            let art = artificial_edges@;
            lemma_supply_demand_edges(b, n as int, source, sink);
            lemma_capacity_concat(es, art, art.len() as int);
            lemma_capacity_bound(es, es.len() as int, 2 * VALUE_LIMIT);
            lemma_sums_bound(b, n as int);
            assert(es.len() * (2 * VALUE_LIMIT) <= VALUE_LIMIT * (2 * VALUE_LIMIT)) by (nonlinear_arith)
                requires
                    es.len() <= VALUE_LIMIT,
            ;
            assert(n * SUPPLY_LIMIT <= VALUE_LIMIT * SUPPLY_LIMIT) by (nonlinear_arith)
                requires
                    n <= VALUE_LIMIT,
            ;
            assert(nodes@.len() == 2);
            assert forall|e: int| 0 <= e < art.len() implies {
                let ne = #[trigger] opt_seq(Some(art_slice))[e];
                &&& ne.u.0 < total_nodes(nn, Some(nodes_slice))
                &&& ne.v.0 < total_nodes(nn, Some(nodes_slice))
                &&& 0 <= ne.cost
                &&& 0 <= ne.upper
            } by {
                assert(opt_seq(Some(art_slice))[e] == art[e]);
            }
            let all = all_of(nn, Some(art_slice));
            assert forall|e: int| 0 <= e < all.len() implies 0 <= #[trigger] initial_flow(None, e) <= all[e].upper by {
                if e < es.len() {
                    assert(all[e] == es[e]);
                } else {
                    assert(all[e] == art[e - es.len()]);
                }
            }
            assert forall|x: int| 0 <= x < total_nodes(nn, Some(nodes_slice)) implies -TOTAL_LIMIT
                <= #[trigger] start_supply(nn, Some(fix_slice), x) <= TOTAL_LIMIT by {
                if x < n {
                    assert(excess_fix@[x] == -b[x]);
                }
            }
        }
        let rn = ResidualNetwork::new(
            &nn,
            Some(nodes_slice),
            Some(art_slice),
            None,
            Some(fix_slice),
        );
        proof {
            assert forall|x: int| 0 <= x < rn.num_nodes implies #[trigger] rn.base_balance@[x] == 0 by {
                lemma_base_zero(rn, x);
            }
            assert forall|e: int| 0 <= e < rn.num_edges_original_graph implies #[trigger] rn.edges@[e] == normalize(
                ges[e],
            ) by {
                assert(rn.edges@[e] == nn.normalized_edges()[e]);
            }
            lemma_shape(rn);
            assert forall|e: int| 0 <= e < rn.num_edges implies #[trigger] slack_ok(rn, e) by {
                crate::minimum_cost_flow::optimality::lemma_edge_ends(rn, e);
                assert(rn.flow(e) == 0);
                let a = rn.edges@[e].u.0 as int;
                let b = rn.edges@[e].v.0 as int;
                assert(rn.b@[a] == start_supply(nn, Some(fix_slice), a));
                assert(rn.b@[b] == start_supply(nn, Some(fix_slice), b));
                assert(rn.potentials@[a] == 0);
                assert(rn.potentials@[b] == 0);
            }
        }
        proof {
            let b = nn.supplies();
            let m = ges.len() as int;
            let art = artificial_edges@;
            assert(rn.edges@ =~= nn.normalized_edges() + art);
            assert forall|x: int| 0 <= x < n implies #[trigger] b[x] == gns[x].b + balance_shift(rn.edges@, m, x) by {
                assert forall|i: int| 0 <= i < m implies #[trigger] rn.edges@[i] == nn.normalized_edges()[i] by {
                }
                lemma_shift_prefix(rn.edges@, nn.normalized_edges(), m, x);
            }
            assert forall|i: int| 0 <= i < sd_pos(b, n as int, source, sink) implies #[trigger] rn.edges@[m + i]
                == supply_demand_edges(b, n as int, source, sink)[i] by {
                assert(rn.edges@[m + i] == art[i]);
            }
            assert forall|x: int| 0 <= x < n implies #[trigger] rn.b@[x] == 0 by {
                assert(rn.b@[x] == start_supply(nn, Some(fix_slice), x));
                assert(excess_fix@[x] == -b[x]);
            }
            assert(rn.b@[n as int] == start_supply(nn, Some(fix_slice), n as int));
            assert(rn.b@[n + 1] == start_supply(nn, Some(fix_slice), n + 1));
            assert forall|e: int| 0 <= e < m implies (#[trigger] rn.edges@[e]).u.0 < n && rn.edges@[e].v.0 < n by {
                assert(rn.edges@[e] == nn.normalized_edges()[e]);
            }
        }
        proof {
            assert forall|x: int| 0 <= x < rn.num_nodes implies #[trigger] rn.potentials@[x] == 0 by {
                assert(rn.b@[x] == start_supply(nn, Some(fix_slice), x));
            }
            let fe = rn.flow_edges();
            assert forall|e: int| 0 <= e < fe.len() implies (#[trigger] fe[e]).data.flow == 0 by {
                assert(rn.flow(e) == 0);
            }
            assert forall|x: int| 0 <= x < n implies #[trigger] rn.excesses@[x] == 0 by {
                lemma_excess_of(rn, x);
                lemma_balance_zero(fe, rn.num_edges as int, x);
                assert(rn.b@[x] == 0);
            }
        }
        PrimalDual {
            status: Status::NotSolved,
            rn,
            source,
            sink,
            graph_edges: Ghost(ges),
            graph_nodes: Ghost(gns),
            supplies: Ghost(nn.supplies()),
        }
    }

    /// Every node's supply, the source's and the sink's included, has left
    /// it along the flow.
    pub closed spec fn supplies_met(&self) -> bool {
        forall|x: int| 0 <= x < self.rn.num_nodes ==> #[trigger] self.rn.excesses@[x] == 0
    }


    /// No flow on the edges of the network, within their capacities and
    /// leaving every node with the balance the solver's flow leaves it,
    /// costs less than the solver's flow.
    pub closed spec fn least_cost(&self) -> bool {
        let m = self.rn.num_edges as int;
        forall|g: Seq<i64>|
            g.len() == m && (forall|e: int| 0 <= e < m ==> 0 <= #[trigger] g[e] <= self.rn.edges@[e].upper) && (forall|
                x: int,
            |
                0 <= x < self.rn.num_nodes ==> #[trigger] balance(with_flows(self.rn, g), m, x) == balance(
                    self.rn.flow_edges(),
                    m,
                    x,
                )) ==> flow_cost(self.rn, flows_of(self.rn), m) <= #[trigger] flow_cost(self.rn, g, m)
    }

    /// No flow on the edges of the graph, within their bounds and leaving
    /// every node with the balance that the solver's flow leaves it, costs
    /// less than the solver's flow.
    pub closed spec fn least_cost_in_graph(&self) -> bool {
        let es = self.graph_edges@;
        let m = es.len() as int;
        forall|h: Seq<i64>|
            within_graph_bounds(es, h) && (forall|x: int|
                0 <= x < self.rn.num_nodes ==> #[trigger] graph_balance(es, h, m, x) == graph_balance(
                    es,
                    graph_flows(self.rn),
                    m,
                    x,
                )) ==> self.rn.objective(m) <= #[trigger] graph_cost(es, h, m)
    }

    /// A solver in its invariant holds a flow that costs least on the
    /// graph for its balances.
    proof fn lemma_least_cost_in_graph(&self)
        requires
            self.inv(),
        ensures
            self.least_cost_in_graph(),
    {
        let es = self.graph_edges@;
        let m = es.len() as int;
        lemma_shape(self.rn);
        assert(normalizes(self.rn, es));
        assert forall|h: Seq<i64>|
            within_graph_bounds(es, h) && (forall|x: int|
                0 <= x < self.rn.num_nodes ==> #[trigger] graph_balance(es, h, m, x) == graph_balance(
                    es,
                    graph_flows(self.rn),
                    m,
                    x,
                )) implies self.rn.objective(m) <= #[trigger] graph_cost(es, h, m) by {
            lemma_graph_optimal(self.rn, es, h);
        }
    }

    /// A solver in its invariant holds a flow of least cost for its
    /// balances.
    proof fn lemma_least_cost(&self)
        requires
            self.inv(),
        ensures
            self.least_cost(),
    {
        let m = self.rn.num_edges as int;
        assert forall|g: Seq<i64>|
            g.len() == m && (forall|e: int| 0 <= e < m ==> 0 <= #[trigger] g[e] <= self.rn.edges@[e].upper) && (forall|
                x: int,
            |
                0 <= x < self.rn.num_nodes ==> #[trigger] balance(with_flows(self.rn, g), m, x) == balance(
                    self.rn.flow_edges(),
                    m,
                    x,
                )) implies flow_cost(self.rn, flows_of(self.rn), m) <= #[trigger] flow_cost(self.rn, g, m) by {
            lemma_slackness_optimal(self.rn, g);
        }
    }

    /// The supplies of the network add up to those of the graph.
    /// With nothing to move, the extended network has no edge and no supply.
    proof fn lemma_nothing_to_move(&self)
        requires
            self.inv(),
            nothing_to_move(self.graph_edges@, self.graph_nodes@),
        ensures
            self.rn.num_edges == 0,
            forall|x: int| 0 <= x < self.rn.num_nodes ==> #[trigger] self.rn.b@[x] == 0,
            supply_sum(self.graph_nodes@, self.graph_nodes@.len() as int) == 0,
    {
        lemma_supply_sum_zero(self.graph_nodes@, self.graph_nodes@.len() as int);
        let n = self.rn.num_nodes_original_graph as int;
        let b = self.supplies@;
        lemma_shape(self.rn);
        assert forall|x: int| 0 <= x < n implies #[trigger] b[x] == 0 by {
            assert(self.graph_nodes@[x].b == 0);
        }
        lemma_zero_supplies(b, n, self.source, self.sink);
    }

    proof fn lemma_supply_total(&self)
        requires
            self.inv(),
        ensures
            total(self.rn.b@, self.rn.num_nodes as int) == supply_sum(self.graph_nodes@, self.graph_nodes@.len() as int),
    {
        let m = self.rn.num_edges_original_graph as int;
        let n = self.rn.num_nodes_original_graph as int;
        let b = self.supplies@;
        lemma_shape(self.rn);
        lemma_total_zeros(self.rn.b@, n);
        assert(total(self.rn.b@, n + 1) == total(self.rn.b@, n) + self.rn.b@[n]);
        assert(total(self.rn.b@, n + 2) == total(self.rn.b@, n + 1) + self.rn.b@[n + 1]);
        lemma_positive_negative(b, n);
        lemma_total_split(b, self.graph_nodes@, self.rn.edges@, m, n);
        assert forall|e: int| 0 <= e < m implies (#[trigger] self.rn.edges@[e]).u.0 < n && self.rn.edges@[e].v.0 < n by {
        }
        lemma_shift_sum_zero(self.rn.edges@, m, n);
    }

    /// With every excess at zero, the edges from the source and to the sink
    /// are full, and the flow meets the supplies of the graph.
    proof fn lemma_supplies_in_graph(&self)
        requires
            self.inv(),
            forall|x: int| 0 <= x < self.rn.num_nodes ==> #[trigger] self.rn.excesses@[x] == 0,
        ensures
            self.supplies_met_in_graph(),
    {
        let rn = self.rn;
        let es = self.graph_edges@;
        let m = es.len() as int;
        let n = rn.num_nodes_original_graph as int;
        let b = self.supplies@;
        let s = self.source;
        let t = self.sink;
        let fe = rn.flow_edges();
        let big = rn.num_edges as int;
        lemma_shape(rn);
        lemma_flow_bounds(rn);
        assert forall|i: int| 0 <= i < sd_pos(b, n, s, t) implies {
            let e = #[trigger] supply_demand_edges(b, n, s, t)[i];
            &&& fe[m + i].u == e.u
            &&& fe[m + i].v == e.v
            &&& 0 <= fe[m + i].data.flow <= e.upper
        } by {
            assert(rn.edges@[m + i] == supply_demand_edges(b, n, s, t)[i]);
            assert(0 <= rn.flow(m + i) <= rn.edges@[m + i].upper);
        }
        lemma_sd_balance(fe, m, b, n, s, t, n);
        assert forall|e: int| 0 <= e < m implies (#[trigger] fe[e]).u.0 != n && fe[e].v.0 != n && fe[e].u.0 != n + 1
            && fe[e].v.0 != n + 1 by {
            assert(rn.edges@[e].u.0 < n && rn.edges@[e].v.0 < n);
        }
        lemma_untouched(fe, m, n);
        lemma_untouched(fe, m, n + 1);
        lemma_excess_of(rn, n);
        lemma_excess_of(rn, n + 1);
        assert(m + sd_pos(b, n, s, t) == big);
        assert(normalizes(rn, es));
        assert forall|x: int| 0 <= x < self.graph_nodes@.len() implies #[trigger] graph_balance(
            es,
            graph_flows(rn),
            m,
            x,
        ) + self.graph_nodes@[x].b == 0 by {
            lemma_graph_balance_of(rn, es, x);
            lemma_excess_of(rn, x);
            assert(sd_flow(fe, m, b, x, s, t) == b[x]);
        }
    }

    /// With supply left at the source and no way to the sink along arcs with
    /// room, no flow of the graph within its bounds meets the supplies.
    proof fn lemma_blocked(&self)
        requires
            self.inv(),
            self.rn.excesses@[self.source.0 as int] > 0,
            !residual_reachable(self.rn, self.source.0 as int, self.sink.0 as int, false),
        ensures
            forall|h: Seq<i64>| !#[trigger] feasible_flow(self.graph_edges@, self.graph_nodes@, h),
    {
        let rn = self.rn;
        let es = self.graph_edges@;
        let m = es.len() as int;
        let n = rn.num_nodes_original_graph as int;
        let b = self.supplies@;
        let s = self.source;
        let t = self.sink;
        let big = rn.num_edges as int;
        lemma_shape(rn);
        lemma_flow_bounds(rn);
        assert(normalizes(rn, es));
        assert forall|h: Seq<i64>| !#[trigger] feasible_flow(es, self.graph_nodes@, h) by {
            if feasible_flow(es, self.graph_nodes@, h) {
                let gn = to_normalized(rn, h);
                let g = gn + Seq::new((big - m) as nat, |i: int| rn.edges@[m + i].upper);
                assert forall|e: int| 0 <= e < big implies 0 <= #[trigger] g[e] <= rn.edges@[e].upper by {
                    if e < m {
                        assert(rn.edges@[e] == normalize(es[e]));
                        assert(es[e].data.lower <= h[e] <= es[e].data.upper);
                        assert(g[e] == gn[e]);
                    } else {
                        assert(0 <= rn.flow(e) <= rn.edges@[e].upper);
                    }
                }
                assert forall|v: int| 0 <= v < rn.num_nodes && #[trigger] residual_reachable(rn, s.0 as int, v, false)
                    implies rn.excesses@[v] >= 0 by {
                    if v < n {
                        assert(rn.excesses@[v] == 0);
                    }
                }
                lemma_cut_blocks(rn, s.0 as int, g);
                let gw = with_flows(rn, g);
                let x = choose|x: int|
                    0 <= x < rn.num_nodes && #[trigger] rn.b@[x] + balance(gw, rn.num_edges as int, x) != 0;
                assert forall|i: int| 0 <= i < sd_pos(b, n, s, t) implies {
                    let e = #[trigger] supply_demand_edges(b, n, s, t)[i];
                    &&& gw[m + i].u == e.u
                    &&& gw[m + i].v == e.v
                    &&& 0 <= gw[m + i].data.flow <= e.upper
                } by {
                    assert(rn.edges@[m + i] == supply_demand_edges(b, n, s, t)[i]);
                    assert(g[m + i] == rn.edges@[m + i].upper);
                }
                assert forall|i: int| 0 <= i < sd_pos(b, n, s, t) implies (#[trigger] gw[m + i]).data.flow
                    == supply_demand_edges(b, n, s, t)[i].upper by {
                    assert(rn.edges@[m + i] == supply_demand_edges(b, n, s, t)[i]);
                    assert(g[m + i] == rn.edges@[m + i].upper);
                }
                lemma_slack_zero(gw, m, b, n, s, t, n);
                lemma_sd_balance(gw, m, b, n, s, t, n);
                assert(m + sd_pos(b, n, s, t) == big);
                assert forall|e: int| 0 <= e < m implies (#[trigger] gw[e]).u.0 != n && gw[e].v.0 != n && gw[e].u.0 != n + 1
                    && gw[e].v.0 != n + 1 by {
                    assert(rn.edges@[e].u.0 < n && rn.edges@[e].v.0 < n);
                }
                lemma_untouched(gw, m, n);
                lemma_untouched(gw, m, n + 1);
                if x < n {
                    let wn = with_flows(rn, gn);
                    assert forall|e: int| 0 <= e < m implies #[trigger] gw[e] == wn[e] by {
                        assert(g[e] == gn[e]);
                    }
                    lemma_balance_agree(gw, wn, m, x);
                    lemma_balance_normalized(rn, es, h, m, x);
                    assert(graph_balance(es, h, m, x) == -self.graph_nodes@[x].b);
                    assert(sd_flow(gw, m, b, x, s, t) == b[x]);
                    assert(rn.b@[x] == 0);
                }
            }
        }
    }

    /// The source never sends more than the supplies it was given.
    proof fn lemma_source_left(&self)
        requires
            self.inv(),
        ensures
            self.rn.excesses@[self.source.0 as int] >= 0,
    {
        let rn = self.rn;
        let m = rn.num_edges_original_graph as int;
        let n = rn.num_nodes_original_graph as int;
        let b = self.supplies@;
        let s = self.source;
        let t = self.sink;
        let fe = rn.flow_edges();
        lemma_shape(rn);
        lemma_flow_bounds(rn);
        assert forall|i: int| 0 <= i < sd_pos(b, n, s, t) implies {
            let e = #[trigger] supply_demand_edges(b, n, s, t)[i];
            &&& fe[m + i].u == e.u
            &&& fe[m + i].v == e.v
            &&& 0 <= fe[m + i].data.flow <= e.upper
        } by {
            assert(rn.edges@[m + i] == supply_demand_edges(b, n, s, t)[i]);
            assert(0 <= rn.flow(m + i) <= rn.edges@[m + i].upper);
        }
        lemma_sd_balance(fe, m, b, n, s, t, n);
        assert forall|e: int| 0 <= e < m implies (#[trigger] fe[e]).u.0 != n && fe[e].v.0 != n by {
            assert(rn.edges@[e].u.0 < n && rn.edges@[e].v.0 < n);
        }
        lemma_untouched(fe, m, n);
        lemma_excess_of(rn, n);
    }

    /// With no edges at all and some supply left, nothing can move it.
    proof fn lemma_no_edges_blocked(&self)
        requires
            self.inv(),
            self.rn.num_edges == 0,
            exists|x: int| 0 <= x < self.rn.num_nodes && #[trigger] self.rn.b@[x] != 0,
        ensures
            forall|h: Seq<i64>| !#[trigger] feasible_flow(self.graph_edges@, self.graph_nodes@, h),
    {
        let n = self.rn.num_nodes_original_graph as int;
        let b = self.supplies@;
        lemma_shape(self.rn);
        assert forall|h: Seq<i64>| !#[trigger] feasible_flow(self.graph_edges@, self.graph_nodes@, h) by {
            if feasible_flow(self.graph_edges@, self.graph_nodes@, h) {
                assert forall|x: int| 0 <= x < n implies #[trigger] b[x] == 0 by {
                    assert(graph_balance(self.graph_edges@, h, 0, x) == 0);
                    assert(balance_shift(self.rn.edges@, 0, x) == 0);
                }
                lemma_zero_supplies(b, n, self.source, self.sink);
                let x = choose|x: int| 0 <= x < self.rn.num_nodes && #[trigger] self.rn.b@[x] != 0;
                assert(x == n || x == n + 1);
            }
        }
    }

    /// Runs the solver: pushes every supply to the sink along cheapest paths.
    pub fn run(&mut self) -> (r: Result<i64, MinimumCostFlowError>)
        requires
            old(self).ready(),
        ensures
            final(self).ready(),
            final(self).edges_of() == old(self).edges_of(),
            final(self).edge_count() == old(self).edge_count(),
            final(self).node_count() == old(self).node_count(),
            r matches Ok(v) ==> final(self).solved() && v == final(self).cost_of_flow() && final(self).supplies_met()
                && final(self).least_cost() && final(self).least_cost_in_graph() && final(self).supplies_met_in_graph(),
            r is Err ==> final(self).solved() == old(self).solved(),
            (r == Err::<i64, MinimumCostFlowError>(MinimumCostFlowError::Unbalanced)) <==> supply_sum(
                old(self).nodes_of(),
                old(self).nodes_of().len() as int,
            ) != 0,
            nothing_to_move(old(self).edges_of(), old(self).nodes_of()) ==> r == Ok::<i64, MinimumCostFlowError>(0),
            final(self).nodes_of() == old(self).nodes_of(),
            r == Err::<i64, MinimumCostFlowError>(MinimumCostFlowError::Infeasible) ==> forall|h: Seq<i64>|
                !#[trigger] feasible_flow(old(self).edges_of(), old(self).nodes_of(), h),
            (exists|h: Seq<i64>| #[trigger] feasible_flow(old(self).edges_of(), old(self).nodes_of(), h)) ==> (r is Ok || r
                == Err::<i64, MinimumCostFlowError>(MinimumCostFlowError::NotSolved)),
    {
        proof {
            if exists|h: Seq<i64>| #[trigger] feasible_flow(self.graph_edges@, self.graph_nodes@, h) {
                let h = choose|h: Seq<i64>| #[trigger] feasible_flow(self.graph_edges@, self.graph_nodes@, h);
                assert forall|e: int| 0 <= e < self.graph_edges@.len() implies (#[trigger] self.graph_edges@[e]).u.0
                    < self.graph_nodes@.len() && self.graph_edges@[e].v.0 < self.graph_nodes@.len() by {
                    assert(self.rn.edges@[e] == normalize(self.graph_edges@[e]));
                    assert(self.rn.edges@[e].u.0 < self.graph_nodes@.len());
                }
                lemma_feasible_balanced(self.graph_edges@, self.graph_nodes@, h);
            }
            self.lemma_least_cost();
            self.lemma_least_cost_in_graph();
            self.lemma_supply_total();
            if nothing_to_move(self.graph_edges@, self.graph_nodes@) {
                self.lemma_nothing_to_move();
            }
        }
        match validate_balance(&self.rn) {
            Err(e) => {
                return Err(e);
            },
            Ok(()) => {},
        }
        match validate_infeasible(&self.rn) {
            Err(e) => {
                proof {
                    self.lemma_no_edges_blocked();
                }
                return Err(e);
            },
            Ok(()) => {},
        }
        match trivial_solution_if_any(&self.rn) {
            Some(res) => {
                proof {
                    lemma_shape(self.rn);
                    if self.rn.num_nodes == 0 {
                        lemma_no_nodes(self.rn);
                    }
                    assert forall|x: int| 0 <= x < self.rn.num_nodes implies #[trigger] self.rn.excesses@[x] == 0 by {
                        lemma_excess_of(self.rn, x);
                        assert(self.rn.b@[x] == 0);
                    }
                    self.lemma_supplies_in_graph();
                }
                self.status = Status::Optimal;
                return res;
            },
            None => {},
        }
        let s = self.source.0;
        let t = self.sink.0;
        proof {
            lemma_shape(self.rn);
        }
        let ghost mut stuck: bool = false;
        while self.rn.excesses[s] > 0
            invariant
                self.inv(),
                self.status == old(self).status,
                self.graph_edges == old(self).graph_edges,
                self.graph_nodes == old(self).graph_nodes,
                stuck ==> forall|h: Seq<i64>| !#[trigger] feasible_flow(self.graph_edges@, self.graph_nodes@, h),
                self.rn.num_nodes == old(self).rn.num_nodes,
                self.rn.num_edges_original_graph == old(self).rn.num_edges_original_graph,
                self.rn.num_nodes_original_graph == old(self).rn.num_nodes_original_graph,
                self.rn.b == old(self).rn.b,
                total(self.rn.b@, self.rn.num_nodes as int) == 0,
                supply_sum(old(self).graph_nodes@, old(self).graph_nodes@.len() as int) == 0,
                !nothing_to_move(old(self).graph_edges@, old(self).graph_nodes@),
                s == self.source.0,
                t == self.sink.0,
                self.rn.excesses@.len() == self.rn.num_nodes,
            ensures
                self.inv(),
                !stuck ==> self.rn.excesses@[s as int] <= 0,
            decreases self.rn.excesses@[s as int],
        {
            let ghost before = self.rn;
            match dual(&mut self.rn, s, t) {
                Err(e) => {
                    return Err(e);
                },
                Ok(false) => {
                    proof {
                        assert(!residual_reachable(before, s as int, t as int, false));
                        assert(self.rn.same_except_potentials(before));
                        lemma_reachable_capacity(before, self.rn, s as int, t as int);
                        self.lemma_blocked();
                        stuck = true;
                    }
                    break;
                },
                Ok(true) => {},
            }
            let ghost mid = self.rn;
            if !primal(&mut self.rn, s, t) {
                proof {
                    let top = choose|top: int| #[trigger] dual_moves(before, mid, s as int, top);
                    lemma_shape(before);
                    assert(dual_moved(before, mid, s as int, top, t as int));
                    let d = before.potentials@[t as int] - mid.potentials@[t as int] + top;
                    let q = choose|q: Seq<int>|
                        #[trigger] residual_walk(before, s as int, q, false) && residual_end(before, s as int, q) == t
                            && residual_len(before, s as int, q) == d;
                    lemma_tight_walk(before, mid, s as int, top, q);
                    assert(residual_reachable(mid, s as int, t as int, true));
                    assert(false);
                }
                break;
            }
        }
        proof {
            if !stuck {
                self.lemma_source_left();
                lemma_excess_total(self.rn);
                let n = self.rn.num_nodes_original_graph as int;
                lemma_total_zeros(self.rn.excesses@, n);
                assert(total(self.rn.excesses@, n + 2) == total(self.rn.excesses@, n + 1) + self.rn.excesses@[n + 1]);
                assert(forall|x: int| 0 <= x < self.rn.num_nodes ==> #[trigger] self.rn.excesses@[x] == 0);
            }
        }
        if self.rn.have_excess() {
            return Err(MinimumCostFlowError::Infeasible);
        }
        self.status = Status::Optimal;
        proof {
            self.lemma_least_cost();
            self.lemma_least_cost_in_graph();
            self.lemma_supplies_in_graph();
        }
        Ok(self.rn.calculate_objective_value_original_graph())
    }
}

/// Where the edge of node `k` stands among the edges joining the nodes to
/// the source and the sink: the number of nodes before it with a supply or
/// a demand.
pub open spec fn sd_pos(b: Seq<i64>, k: int, s: NodeId, t: NodeId) -> int {
    supply_demand_edges(b, k, s, t).len() as int
}

/// What the edges from the source to the first `k` nodes with a supply
/// can still carry.
pub open spec fn source_slack(fe: Seq<Edge<CapEdge>>, m: int, b: Seq<i64>, k: int, s: NodeId, t: NodeId) -> int
    decreases k,
{
    if k <= 0 {
        0
    } else {
        source_slack(fe, m, b, k - 1, s, t) + if b[k - 1] > 0 {
            b[k - 1] - fe[m + sd_pos(b, k - 1, s, t)].data.flow
        } else {
            0
        }
    }
}

/// What the edges to the sink from the first `k` nodes with a demand can
/// still carry.
pub open spec fn sink_slack(fe: Seq<Edge<CapEdge>>, m: int, b: Seq<i64>, k: int, s: NodeId, t: NodeId) -> int
    decreases k,
{
    if k <= 0 {
        0
    } else {
        sink_slack(fe, m, b, k - 1, s, t) + if b[k - 1] < 0 {
            -b[k - 1] - fe[m + sd_pos(b, k - 1, s, t)].data.flow
        } else {
            0
        }
    }
}

/// What the edge of node `x` to the source or the sink brings it.
pub open spec fn sd_flow(fe: Seq<Edge<CapEdge>>, m: int, b: Seq<i64>, x: int, s: NodeId, t: NodeId) -> int {
    let f = fe[m + sd_pos(b, x, s, t)].data.flow as int;
    if b[x] > 0 {
        f
    } else if b[x] < 0 {
        -f
    } else {
        0
    }
}

/// Over edges that do not touch `z`, `z` is left with nothing.
proof fn lemma_untouched(fe: Seq<Edge<CapEdge>>, k: int, z: int)
    requires
        forall|e: int| 0 <= e < k ==> (#[trigger] fe[e]).u.0 != z && fe[e].v.0 != z,
    ensures
        balance(fe, k, z) == 0,
    decreases k,
{
    if k > 0 {
        lemma_untouched(fe, k - 1, z);
        assert(fe[k - 1].u.0 != z && fe[k - 1].v.0 != z);
    }
}

/// The edges for the first `k` nodes lead the edges for all `n`.
proof fn lemma_sd_prefix(b: Seq<i64>, k: int, n: int, s: NodeId, t: NodeId)
    requires
        0 <= k <= n,
    ensures
        sd_pos(b, k, s, t) <= sd_pos(b, n, s, t),
        forall|i: int|
            0 <= i < sd_pos(b, k, s, t) ==> #[trigger] supply_demand_edges(b, n, s, t)[i] == supply_demand_edges(
                b,
                k,
                s,
                t,
            )[i],
    decreases n - k,
{
    if k < n {
        lemma_sd_prefix(b, k + 1, n, s, t);
        let a = supply_demand_edges(b, k, s, t);
        let c = supply_demand_edges(b, k + 1, s, t);
        assert forall|i: int| 0 <= i < a.len() implies #[trigger] c[i] == a[i] by {
        }
    }
}

/// Read off the flows on the edges joining the nodes to the source and the
/// sink: the source and the sink give and take what their edges carry, the
/// rest being what those edges can still carry, and every other node gets
/// what its own edge brings it.
proof fn lemma_sd_balance(fe: Seq<Edge<CapEdge>>, m: int, b: Seq<i64>, n: int, s: NodeId, t: NodeId, k: int)
    requires
        0 <= m,
        0 <= k <= n <= b.len(),
        s.0 == n,
        t.0 == n + 1,
        forall|y: int| 0 <= y < b.len() ==> -SUPPLY_LIMIT <= #[trigger] b[y] <= SUPPLY_LIMIT,
        fe.len() >= m + sd_pos(b, n, s, t),
        forall|i: int|
            0 <= i < sd_pos(b, n, s, t) ==> {
                let e = #[trigger] supply_demand_edges(b, n, s, t)[i];
                &&& fe[m + i].u == e.u
                &&& fe[m + i].v == e.v
                &&& 0 <= fe[m + i].data.flow <= e.upper
            },
    ensures
        balance(fe, m + sd_pos(b, k, s, t), n) == balance(fe, m, n) - positive_sum(b, k) + source_slack(
            fe,
            m,
            b,
            k,
            s,
            t,
        ),
        balance(fe, m + sd_pos(b, k, s, t), n + 1) == balance(fe, m, n + 1) - negative_sum(b, k) - sink_slack(
            fe,
            m,
            b,
            k,
            s,
            t,
        ),
        source_slack(fe, m, b, k, s, t) >= 0,
        sink_slack(fe, m, b, k, s, t) >= 0,
        source_slack(fe, m, b, k, s, t) == 0 && sink_slack(fe, m, b, k, s, t) == 0 ==> forall|y: int|
            0 <= y < k ==> #[trigger] sd_flow(fe, m, b, y, s, t) == b[y],
        forall|x: int|
            0 <= x < n ==> #[trigger] balance(fe, m + sd_pos(b, k, s, t), x) == balance(fe, m, x) + if x < k {
                sd_flow(fe, m, b, x, s, t)
            } else {
                0
            },
    decreases k,
{
    if k > 0 {
        lemma_sd_balance(fe, m, b, n, s, t, k - 1);
        lemma_sd_prefix(b, k, n, s, t);
        let y = k - 1;
        let p = sd_pos(b, y, s, t);
        let q = sd_pos(b, k, s, t);
        let a = supply_demand_edges(b, y, s, t);
        let c = supply_demand_edges(b, k, s, t);
        assert(-SUPPLY_LIMIT <= b[y] <= SUPPLY_LIMIT);
        if b[y] == 0 {
            assert(c =~= a);
        } else {
            assert(q == p + 1);
            let e = c[p];
            assert(supply_demand_edges(b, n, s, t)[p] == e);
            if b[y] > 0 {
                assert(e.u == s && e.v == NodeId(y as usize) && e.upper == b[y]);
            } else {
                assert(e.u == NodeId(y as usize) && e.v == t && e.upper == -b[y]);
            }
            assert(fe[m + p].u == e.u && fe[m + p].v == e.v && 0 <= fe[m + p].data.flow <= e.upper);
            assert(m + q - 1 == m + p);
            let f = fe[m + p].data.flow as int;
            assert forall|x: int| 0 <= x < n implies #[trigger] balance(fe, m + q, x) == balance(fe, m, x) + if x < k {
                sd_flow(fe, m, b, x, s, t)
            } else {
                0
            } by {
                assert(balance(fe, m + p, x) == balance(fe, m, x) + if x < y {
                    sd_flow(fe, m, b, x, s, t)
                } else {
                    0
                });
            }
            if source_slack(fe, m, b, k, s, t) == 0 && sink_slack(fe, m, b, k, s, t) == 0 {
                assert forall|z: int| 0 <= z < k implies #[trigger] sd_flow(fe, m, b, z, s, t) == b[z] by {
                    if z < y {
                        assert(sd_flow(fe, m, b, z, s, t) == b[z]);
                    }
                }
            }
        }
        if b[y] == 0 && source_slack(fe, m, b, k, s, t) == 0 && sink_slack(fe, m, b, k, s, t) == 0 {
            assert forall|z: int| 0 <= z < k implies #[trigger] sd_flow(fe, m, b, z, s, t) == b[z] by {
                if z < y {
                    assert(sd_flow(fe, m, b, z, s, t) == b[z]);
                }
            }
        }
    }
}

/// With every edge joining a node to the source or the sink full, nothing
/// is left for those edges to carry.
proof fn lemma_slack_zero(fe: Seq<Edge<CapEdge>>, m: int, b: Seq<i64>, n: int, s: NodeId, t: NodeId, k: int)
    requires
        0 <= k <= n <= b.len(),
        forall|y: int| 0 <= y < b.len() ==> -SUPPLY_LIMIT <= #[trigger] b[y] <= SUPPLY_LIMIT,
        forall|i: int|
            0 <= i < sd_pos(b, n, s, t) ==> (#[trigger] fe[m + i]).data.flow == supply_demand_edges(b, n, s, t)[i].upper,
    ensures
        source_slack(fe, m, b, k, s, t) == 0,
        sink_slack(fe, m, b, k, s, t) == 0,
    decreases k,
{
    if k > 0 {
        lemma_slack_zero(fe, m, b, n, s, t, k - 1);
        lemma_sd_prefix(b, k, n, s, t);
        let y = k - 1;
        let p = sd_pos(b, y, s, t);
        let a = supply_demand_edges(b, y, s, t);
        let c = supply_demand_edges(b, k, s, t);
        assert(-SUPPLY_LIMIT <= b[y] <= SUPPLY_LIMIT);
        if b[y] != 0 {
            assert(sd_pos(b, k, s, t) == p + 1);
            assert(supply_demand_edges(b, n, s, t)[p] == c[p]);
            assert(fe[m + p].data.flow == c[p].upper);
        }
    }
}

/// Edge lists that agree on their first `k` edges give every node the
/// same balance over them.
proof fn lemma_balance_agree(a: Seq<Edge<CapEdge>>, c: Seq<Edge<CapEdge>>, k: int, x: int)
    requires
        0 <= k <= a.len(),
        k <= c.len(),
        forall|e: int| 0 <= e < k ==> #[trigger] a[e] == c[e],
    ensures
        balance(a, k, x) == balance(c, k, x),
    decreases k,
{
    if k > 0 {
        lemma_balance_agree(a, c, k - 1, x);
        assert(a[k - 1] == c[k - 1]);
    }
}

/// A network built with no starting flow has no starting balance.
proof fn lemma_base_zero(rn: ResidualNetwork, x: int)
    requires
        rn.structure_ok(),
        0 <= x < rn.num_nodes,
        forall|e: int| 0 <= e < rn.num_edges ==> #[trigger] rn.flow(e) == 0,
        rn.base_balance@[x] == balance(rn.flow_edges(), rn.num_edges as int, x),
    ensures
        rn.base_balance@[x] == 0,
{
    lemma_shape(rn);
    let fe = rn.flow_edges();
    assert forall|e: int| 0 <= e < fe.len() implies (#[trigger] fe[e]).data.flow == 0 by {
        assert(rn.flow(e) == 0);
    }
    lemma_balance_zero(fe, rn.num_edges as int, x);
}

} // verus!

verus! {

impl MinimumCostFlowSolver for PrimalDual {
    closed spec fn ready(&self) -> bool {
        self.inv()
    }

    closed spec fn solved(&self) -> bool {
        self.status == Status::Optimal
    }

    closed spec fn edge_count(&self) -> nat {
        self.rn.num_edges_original_graph as nat
    }

    closed spec fn node_count(&self) -> nat {
        self.rn.num_nodes_original_graph as nat
    }

    closed spec fn flow_of(&self, e: int) -> int {
        self.rn.original_flow(e)
    }

    closed spec fn potential_of(&self, x: int) -> int {
        self.rn.potentials@[x] as int
    }

    closed spec fn cost_of_flow(&self) -> int {
        self.rn.objective(self.rn.num_edges_original_graph as int)
    }

    fn new(graph: &Graph<Directed, MinimumCostFlowNode, MinimumCostFlowEdge>) -> (s: Self) {
        PrimalDual::new(graph)
    }

    fn solve(&mut self) -> (r: Result<i64, MinimumCostFlowError>)
        ensures
            final(self).edges_of() == old(self).edges_of(),
            (r == Err::<i64, MinimumCostFlowError>(MinimumCostFlowError::Unbalanced)) <==> supply_sum(
                old(self).nodes_of(),
                old(self).nodes_of().len() as int,
            ) != 0,
            nothing_to_move(old(self).edges_of(), old(self).nodes_of()) ==> r == Ok::<i64, MinimumCostFlowError>(0),
            r is Ok ==> forall|e: int|
                0 <= e < final(self).edge_count() ==> final(self).edges_of()[e].data.lower
                    <= #[trigger] final(self).flow_of(e) <= final(self).edges_of()[e].data.upper,
            r is Ok ==> final(self).supplies_met() && final(self).least_cost_in_graph()
                && final(self).supplies_met_in_graph(),
            r == Err::<i64, MinimumCostFlowError>(MinimumCostFlowError::Infeasible) ==> forall|h: Seq<i64>|
                !#[trigger] feasible_flow(old(self).edges_of(), old(self).nodes_of(), h),
            (exists|h: Seq<i64>| #[trigger] feasible_flow(old(self).edges_of(), old(self).nodes_of(), h)) ==> (r is Ok || r
                == Err::<i64, MinimumCostFlowError>(MinimumCostFlowError::NotSolved)),
    {
        let r = self.run();
        proof {
            if r is Ok {
                lemma_shape(self.rn);
                lemma_flow_bounds(self.rn);
                assert forall|e: int| 0 <= e < self.edge_count() implies self.edges_of()[e].data.lower
                    <= #[trigger] self.flow_of(e) <= self.edges_of()[e].data.upper by {
                    let ge = self.graph_edges@[e];
                    assert(self.rn.edges@[e] == normalize(ge));
                    assert(0 <= self.rn.flow(e) <= self.rn.edges@[e].upper);
                    assert(self.rn.edges@[e].upper == ge.data.upper - ge.data.lower);
                    assert(self.rn.edges@[e].lower == ge.data.lower);
                }
            }
        }
        r
    }

    fn flow(&self, edge_id: EdgeId) -> (r: Result<i64, MinimumCostFlowError>) {
        if self.status != Status::Optimal {
            return Err(MinimumCostFlowError::NotSolved);
        }
        Ok(self.rn.flow_original_graph(edge_id))
    }

    fn flows(&self) -> (r: Result<Vec<i64>, MinimumCostFlowError>) {
        if self.status != Status::Optimal {
            return Err(MinimumCostFlowError::NotSolved);
        }
        Ok(self.rn.flows_original_graph())
    }

    fn potential(&self, node_id: NodeId) -> (r: Result<i64, MinimumCostFlowError>) {
        if self.status != Status::Optimal {
            return Err(MinimumCostFlowError::NotSolved);
        }
        proof {
            lemma_shape(self.rn);
        }
        Ok(self.rn.potential_original_graph(node_id))
    }

    fn potentials(&self) -> (r: Result<Vec<i64>, MinimumCostFlowError>) {
        if self.status != Status::Optimal {
            return Err(MinimumCostFlowError::NotSolved);
        }
        proof {
            lemma_shape(self.rn);
        }
        let ps = self.rn.potentials_original_graph();
        proof {
            assert forall|x: int| 0 <= x < ps@.len() implies #[trigger] ps@[x] == self.potential_of(x) by {
                assert(ps@[x] == self.rn.potentials@[x]);
            }
        }
        Ok(ps)
    }
}

} // verus!
