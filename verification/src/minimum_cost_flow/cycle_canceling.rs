//! The cycle canceling solver: start from a feasible flow on a network
//! extended by a root, and while the residual network has a cycle of
//! negative cost, found by Bellman-Ford, send flow around it.
use crate::graph::direction::Directed;
use crate::graph::graph::{Edge, Graph};
use crate::graph::ids::{ArcId, EdgeId, NodeId};
use crate::maximum_flow::flow::balance;
use crate::minimum_cost_flow::edge::{MinimumCostFlowEdge, MinimumCostFlowNode};
use crate::minimum_cost_flow::error::MinimumCostFlowError;
use crate::minimum_cost_flow::extend_network::{
    construct_extend_network_feasible_solution, lemma_capacity_bound, lemma_capacity_concat, lemma_cost_bound,
    lemma_root_edges, lemma_sums_bound, lemma_total_zeros, total,
};
use crate::minimum_cost_flow::graph::{network_ok, VALUE_LIMIT};
use crate::minimum_cost_flow::normalized_network::{normalize, NormalizedNetwork, SUPPLY_LIMIT};
use crate::maximum_flow::edge::CapEdge;
use crate::minimum_cost_flow::extend_network::{magnitudes, root_edges};
use crate::minimum_cost_flow::optimality::{
    arc_reduced, balance_shift, flow_cost, flows_of, graph_balance, graph_cost, graph_flows,
    lemma_graph_balance_of, lemma_graph_optimal, lemma_shift_supply, lemma_shift_sum_zero, lemma_slackness_from_arcs,
    lemma_slackness_optimal, lemma_total_split, normalizes, slackness, supply_sum, with_flows, within_graph_bounds, resting_flow,
};
use crate::minimum_cost_flow::residual_network::{
    all_of, initial_flow, lemma_arc_at, lemma_excess_of, lemma_cost_of_fwd, lemma_flow_bounds, lemma_no_nodes, lemma_pair,
    lemma_potentials_frame, lemma_push_facts, lemma_shape, opt_seq, start_supply, total_nodes, ResidualNetwork,
    TOTAL_LIMIT,
};
use crate::minimum_cost_flow::solver::MinimumCostFlowSolver;
use crate::minimum_cost_flow::status::Status;
use crate::minimum_cost_flow::successive_shortest_path::{arcs_listed, listed_arc, residual_arcs};
use crate::minimum_cost_flow::validate::{trivial_solution_if_any, validate_balance, validate_infeasible};
use crate::shortest_path::walk::{arcs_in, is_walk, lemma_walk_push, max_abs_weight, walk_end, walk_len};
use crate::minimum_cost_flow::cycle_trace::{
    back, lemma_back_add, lemma_back_folds, lemma_back_periodic, lemma_first_return, lemma_max_abs_bound,
    lemma_prev_cycle_negative, lemma_trace_init, lemma_trace_node, lemma_trace_round, lemma_trace_skip, lemma_trace_update, relaxed_since, sum_to, trace_ok,
};
use crate::shortest_path::closed_walks::{below_walks, lemma_pigeonhole, lemma_realized_bound, lemma_settled_no_cycle, lemma_shortcut, no_negative_cycle, realized};
use vstd::prelude::*;

verus! {

/// The weight of the arcs at positions `c` of `list`.
pub open spec fn cycle_weight(list: Seq<(usize, usize, i64)>, c: Seq<usize>) -> int
    decreases c.len(),
{
    if c.len() == 0 {
        0
    } else {
        cycle_weight(list, c.drop_last()) + list[c.last() as int].2
    }
}

/// The tail of the arc at position `c[j]` of `list`.
pub open spec fn tail_at(list: Seq<(usize, usize, i64)>, c: Seq<usize>, j: int) -> int {
    list[c[j] as int].0 as int
}

/// The head of the arc at position `c[j]` of `list`.
pub open spec fn head_at(list: Seq<(usize, usize, i64)>, c: Seq<usize>, j: int) -> int {
    list[c[j] as int].1 as int
}

/// `c` lists positions of arcs of `list` that close a cycle through
/// distinct nodes: each arc leaves the head of the next, the last the head
/// of the first.
pub open spec fn closes_cycle(list: Seq<(usize, usize, i64)>, c: Seq<usize>) -> bool {
    &&& c.len() > 0
    &&& forall|j: int| 0 <= j < c.len() ==> (#[trigger] c[j]) < list.len()
    &&& forall|j: int| 0 <= j < c.len() - 1 ==> #[trigger] tail_at(list, c, j) == head_at(list, c, j + 1)
    &&& tail_at(list, c, c.len() - 1) == head_at(list, c, 0)
    &&& forall|j1: int, j2: int|
        0 <= j1 < c.len() && 0 <= j2 < c.len() && j1 != j2 ==> #[trigger] tail_at(list, c, j1) != #[trigger] tail_at(
            list,
            c,
            j2,
        )
}

/// What a search for a cycle of negative weight finds.
pub enum CycleSearch {
    /// The positions of arcs that close a cycle of negative weight.
    Cycle(Vec<usize>),
    /// Distances that no arc shortens.
    Settled(Vec<i64>),
    /// A distance left the range of `i64`, or the arcs last followed closed
    /// no cycle of negative weight.
    GaveUp,
}

/// Bellman-Ford from a source joined to every node at distance zero: the
/// distances once a round changes none, or else a cycle of negative weight
/// found by going back along the arcs that last improved a distance.
#[verifier::rlimit(100)]
#[verifier::spinoff_prover]
pub fn find_negative_cycle(n: usize, list: &Vec<(usize, usize, i64)>) -> (r: CycleSearch)
    requires
        arcs_in(list@, n as int),
    ensures
        r matches CycleSearch::Settled(dist) ==> {
            &&& dist@.len() == n
            &&& forall|x: int| 0 <= x < n ==> #[trigger] dist@[x] > i64::MIN
            &&& forall|i: int|
                0 <= i < list@.len() ==> dist@[(#[trigger] list@[i]).1 as int] <= dist@[list@[i].0 as int]
                    + list@[i].2
        },
        r matches CycleSearch::Cycle(c) ==> closes_cycle(list@, c@) && cycle_weight(list@, c@) < 0,
        (forall|i: int| 0 <= i < list@.len() ==> (#[trigger] list@[i]).2 >= 0) ==> (r matches CycleSearch::Settled(dist)
            && forall|x: int| 0 <= x < n ==> #[trigger] dist@[x] == 0),
        no_negative_cycle(list@, n as int) && n * max_abs_weight(list@, list@.len() as int) < i64::MAX ==> r is Settled,
        r is Settled ==> no_negative_cycle(list@, n as int),
        !no_negative_cycle(list@, n as int) && n * list@.len() * max_abs_weight(list@, list@.len() as int) < i64::MAX
            ==> r is Cycle,
{
    let ghost good = no_negative_cycle(list@, n as int) && n * max_abs_weight(list@, list@.len() as int) < i64::MAX;
    let mlen = list.len();
    let ghost m = list@.len() as int;
    let ghost wmax = max_abs_weight(list@, m);
    let ghost bnd = n * m * wmax < i64::MAX;
    let mut dist: Vec<i64> = vec![0i64; n];
    let mut prev: Vec<usize> = vec![usize::MAX; n];
    let mut last: usize = 0;
    let mut round: usize = 0;
    let ghost mut stamp: Seq<int> = Seq::new(n as nat, |x: int| -1int);
    let ghost mut pd: Seq<int> = Seq::new(n as nat, |x: int| 0int);
    proof {
        assert forall|x: int| 0 <= x < n implies #[trigger] realized(list@, n as int, x, dist@[x] as int) by {
            assert(is_walk(list@, x, Seq::<int>::empty()));
        }
        if m > 0 {
            crate::shortest_path::walk::lemma_max_abs_weight(list@, m, 0);
        }
        assert(wmax >= 0);
        assert(0 * m == 0);
        lemma_trace_init(list@, n as int, dist@, prev@);
    }
    while round < n
        invariant
            good == (no_negative_cycle(list@, n as int) && n * max_abs_weight(list@, list@.len() as int) < i64::MAX),
            forall|x: int| 0 <= x < n ==> #[trigger] realized(list@, n as int, x, dist@[x] as int),
            below_walks(list@, n as int, dist@, round as int),
            good && n > 0 ==> round < n,
            arcs_in(list@, n as int),
            dist@.len() == n,
            prev@.len() == n,
            last < n || n == 0,
            forall|v: int|
                0 <= v < n && #[trigger] prev@[v] != usize::MAX ==> prev@[v] < list@.len() && list@[prev@[v] as int].1
                    == v,
            (forall|i: int| 0 <= i < list@.len() ==> (#[trigger] list@[i]).2 >= 0) ==> round == 0 && forall|x: int|
                0 <= x < n ==> #[trigger] dist@[x] == 0,
            m == list@.len(),
            mlen == m,
            wmax == max_abs_weight(list@, m),
            wmax >= 0,
            bnd == (n * m * wmax < i64::MAX),
            trace_ok(list@, n as int, dist@, prev@, stamp, pd, round * m),
            relaxed_since(list@, dist@, stamp, round as int, 0),
            round <= n,
            round >= 1 ==> last < n && stamp[last as int] >= (round - 1) * m,
            forall|x: int| 0 <= x < n ==> #[trigger] dist@[x] >= -((round * m) * wmax),
        decreases n - round,
    {
        let ghost d0 = dist@;
        let mut updated = false;
        let mut i: usize = 0;
        while i < list.len()
            invariant
                good == (no_negative_cycle(list@, n as int) && n * max_abs_weight(list@, list@.len() as int) < i64::MAX),
                forall|x: int| 0 <= x < n ==> #[trigger] realized(list@, n as int, x, dist@[x] as int),
                forall|x: int| 0 <= x < n ==> #[trigger] dist@[x] <= d0[x],
                forall|j: int| 0 <= j < i ==> dist@[(#[trigger] list@[j]).1 as int] <= d0[list@[j].0 as int] + list@[j].2,
                d0.len() == n,
                below_walks(list@, n as int, d0, round as int),
                round < n,
                good && round == n - 1 ==> !updated,
                arcs_in(list@, n as int),
                dist@.len() == n,
                prev@.len() == n,
                last < n,
                i <= list@.len(),
                forall|v: int|
                    0 <= v < n && #[trigger] prev@[v] != usize::MAX ==> prev@[v] < list@.len() && list@[prev@[v] as int].1
                        == v,
                !updated ==> dist@ == d0,
                !updated ==> forall|j: int|
                    0 <= j < i ==> dist@[(#[trigger] list@[j]).1 as int] <= dist@[list@[j].0 as int] + list@[j].2,
                (forall|j: int| 0 <= j < list@.len() ==> (#[trigger] list@[j]).2 >= 0) ==> !updated && forall|x: int|
                    0 <= x < n ==> #[trigger] dist@[x] == 0,
                m == list@.len(),
                mlen == m,
                wmax == max_abs_weight(list@, m),
                wmax >= 0,
                bnd == (n * m * wmax < i64::MAX),
                trace_ok(list@, n as int, dist@, prev@, stamp, pd, round * m + i),
                relaxed_since(list@, dist@, stamp, round as int, i as int),
                round >= 1 || updated ==> last < n && stamp[last as int] >= (round - 1) * m,
                updated ==> stamp[last as int] >= round * m,
                forall|x: int| 0 <= x < n ==> #[trigger] dist@[x] >= -((round * m + i) * wmax),
            decreases list@.len() - i,
        {
            let (u, v, w) = list[i];
            proof {
                assert(list@[i as int] == (u, v, w));
            }
            let nd: i128 = dist[u] as i128 + w as i128;
            if nd < dist[v] as i128 {
                proof {
                    assert(realized(list@, n as int, u as int, dist@[u as int] as int));
                    let (s0, p0) = choose|s0: int, p0: Seq<int>|
                        0 <= s0 < n && #[trigger] is_walk(list@, s0, p0) && walk_end(list@, s0, p0) == u && walk_len(list@, p0)
                            == dist@[u as int];
                    lemma_walk_push(list@, s0, p0, i as int);
                    assert(realized(list@, n as int, v as int, nd as int));
                    if good {
                        lemma_realized_bound(list@, n as int, v as int, nd as int);
                        if round == n - 1 {
                            let q = lemma_shortcut(list@, n as int, s0, p0.push(i as int));
                            assert(d0[v as int] <= walk_len(list@, q));
                            assert(false);
                        }
                    }
                }
                proof {
                    let g = round * m + i;
                    crate::shortest_path::walk::lemma_max_abs_weight(list@, m, i as int);
                    assert(dist@[u as int] >= -(g * wmax));
                    assert(g * wmax + wmax == (g + 1) * wmax) by (nonlinear_arith);
                    assert(w >= -wmax);
                    assert(nd >= -((g + 1) * wmax));
                    if bnd {
                        assert((g + 1) * wmax <= n * m * wmax) by (nonlinear_arith)
                            requires
                                g == round * m + i,
                                round < n,
                                i < m,
                                wmax >= 0,
                        ;
                        assert(nd >= i64::MIN);
                    }
                }
                if nd < i64::MIN as i128 {
                    proof {
                        assert(!bnd);
                    }
                    return CycleSearch::GaveUp;
                }
                let ghost dist_before = dist@;
                proof {
                    lemma_trace_node(list@, n as int, dist@, prev@, stamp, pd, round * m + i, v as int);
                    lemma_trace_update(list@, n as int, dist@, prev@, stamp, pd, round as int, i as int, nd as i64);
                }
                dist.set(v, nd as i64);
                prev.set(v, i);
                last = v;
                updated = true;
                proof {
                    let g = round * m + i;
                    stamp = stamp.update(v as int, g);
                    pd = pd.update(v as int, dist_before[u as int] as int);
                    assert(dist@ == dist_before.update(v as int, nd as i64));
                    assert forall|x: int| 0 <= x < n implies #[trigger] realized(list@, n as int, x, dist@[x] as int) by {
                        if x != v {
                            assert(dist@[x] == dist_before[x]);
                        }
                    }
                    assert((round - 1) * m <= round * m) by (nonlinear_arith)
                        requires
                            m >= 0,
                    ;
                    assert(g >= round * m);
                    assert(v < n);
                    assert(stamp[last as int] == g);
                    assert(stamp[last as int] >= (round - 1) * m);
                    assert forall|x: int| 0 <= x < n implies #[trigger] dist@[x] >= -((round * m + i + 1) * wmax) by {
                        assert((round * m + i) * wmax <= (round * m + i + 1) * wmax) by (nonlinear_arith)
                            requires
                                wmax >= 0,
                        ;
                        if x != v {
                            assert(dist@[x] == dist_before[x]);
                        }
                    }
                }
            } else {
                proof {
                    lemma_trace_skip(list@, n as int, dist@, prev@, stamp, pd, round as int, i as int);
                    assert forall|x: int| 0 <= x < n implies #[trigger] dist@[x] >= -((round * m + i + 1) * wmax) by {
                        assert((round * m + i) * wmax <= (round * m + i + 1) * wmax) by (nonlinear_arith)
                            requires
                                wmax >= 0,
                        ;
                    }
                }
            }
            i = i + 1;
        }
        proof {
            assert forall|s0: int, p0: Seq<int>|
                0 <= s0 < n && #[trigger] is_walk(list@, s0, p0) && p0.len() <= round + 1 implies dist@[walk_end(
                    list@,
                    s0,
                    p0,
                )] <= walk_len(list@, p0) by {
                if p0.len() == 0 {
                    assert(is_walk(list@, s0, p0));
                    assert(d0[s0] <= walk_len(list@, p0));
                } else {
                    let j = p0.last();
                    assert(is_walk(list@, s0, p0.drop_last()));
                    assert(d0[walk_end(list@, s0, p0.drop_last())] <= walk_len(list@, p0.drop_last()));
                    assert(dist@[list@[j].1 as int] <= d0[list@[j].0 as int] + list@[j].2);
                }
            }
            if good {
                assert forall|y: int| 0 <= y < n implies #[trigger] dist@[y] > i64::MIN by {
                    lemma_realized_bound(list@, n as int, y, dist@[y] as int);
                }
            }
            if bnd {
                assert((round * m + m) * wmax <= n * m * wmax) by (nonlinear_arith)
                    requires
                        round < n,
                        wmax >= 0,
                        m >= 0,
                ;
                assert forall|y: int| 0 <= y < n implies #[trigger] dist@[y] > i64::MIN by {
                    assert(dist@[y] >= -((round * m + m) * wmax));
                }
            }
        }
        if !updated {
            let mut x: usize = 0;
            while x < n
                invariant
                    good == (no_negative_cycle(list@, n as int) && n * max_abs_weight(list@, list@.len() as int) < i64::MAX),
                    good ==> forall|y: int| 0 <= y < n ==> #[trigger] dist@[y] > i64::MIN,
                    bnd ==> forall|y: int| 0 <= y < n ==> #[trigger] dist@[y] > i64::MIN,
                    bnd == (n * list@.len() * max_abs_weight(list@, list@.len() as int) < i64::MAX),
                    dist@.len() == n,
                    x <= n,
                    forall|y: int| 0 <= y < x ==> #[trigger] dist@[y] > i64::MIN,
                    (forall|j: int| 0 <= j < list@.len() ==> (#[trigger] list@[j]).2 >= 0) ==> forall|y: int|
                        0 <= y < n ==> #[trigger] dist@[y] == 0,
                decreases n - x,
            {
                if dist[x] == i64::MIN {
                    return CycleSearch::GaveUp;
                }
                x = x + 1;
            }
            proof {
                lemma_settled_no_cycle(list@, n as int, dist@);
            }
            return CycleSearch::Settled(dist);
        }
        proof {
            lemma_trace_round(list@, n as int, dist@, prev@, stamp, pd, round as int);
            assert(round * m + m == (round + 1) * m) by (nonlinear_arith);
            assert(stamp[last as int] >= round * m);
        }
        round = round + 1;
    }
    if n == 0 {
        proof {
            assert forall|s0: int, p0: Seq<int>|
                0 <= s0 < n && #[trigger] is_walk(list@, s0, p0) && walk_end(list@, s0, p0) == s0 implies walk_len(
                    list@,
                    p0,
                ) >= 0 by {}
        }
        return CycleSearch::Settled(dist);
    }
    let ghost nonneg = (forall|j: int| 0 <= j < list@.len() ==> (#[trigger] list@[j]).2 >= 0) || good;
    proof {
        assert(round == n);
        assert(back(list@, prev@, last as int, 0) == last);
    }
    let mut v: usize = last;
    let mut s: usize = 0;
    while s < n
        invariant
            !nonneg,
            nonneg == ((forall|j: int| 0 <= j < list@.len() ==> (#[trigger] list@[j]).2 >= 0) || good),
            good == (no_negative_cycle(list@, n as int) && n * max_abs_weight(list@, list@.len() as int) < i64::MAX),
            v < n,
            prev@.len() == n,
            arcs_in(list@, n as int),
            forall|y: int|
                0 <= y < n && #[trigger] prev@[y] != usize::MAX ==> prev@[y] < list@.len() && list@[prev@[y] as int].1
                    == y,
            m == list@.len(),
            trace_ok(list@, n as int, dist@, prev@, stamp, pd, n * m),
            s <= n,
            last < n,
            v == back(list@, prev@, last as int, s as nat),
            forall|t: nat|
                t <= s ==> 0 <= #[trigger] back(list@, prev@, last as int, t) < n && stamp[back(
                    list@,
                    prev@,
                    last as int,
                    t,
                )] >= (n - 1 - t) * m,
        decreases n - s,
    {
        proof {
            lemma_trace_node(list@, n as int, dist@, prev@, stamp, pd, n * m, v as int);
            assert((n - 1 - s) * m >= 0) by (nonlinear_arith)
                requires
                    s < n,
                    m >= 0,
            ;
            assert(back(list@, prev@, last as int, s as nat) == v);
            assert(stamp[v as int] >= (n - 1 - s) * m);
        }
        let p = prev[v];
        if p == usize::MAX {
            proof {
                assert(false);
            }
            return CycleSearch::GaveUp;
        }
        v = list[p].0;
        proof {
            let t1 = (s + 1) as nat;
            assert(back(list@, prev@, last as int, t1) == v);
            assert((n - 1 - s) * m - m == (n - 1 - (s + 1)) * m) by (nonlinear_arith);
            assert forall|t: nat| t <= s + 1 implies 0 <= #[trigger] back(list@, prev@, last as int, t) < n
                && stamp[back(list@, prev@, last as int, t)] >= (n - 1 - t) * m by {
                if t == s + 1 {
                    assert(back(list@, prev@, last as int, t) == v);
                }
            }
        }
        s = s + 1;
    }
    let x = v;
    let ghost lm: nat = 0;
    proof {
        let xi = x as int;
        let li = last as int;
        let f = |i: int| back(list@, prev@, li, i as nat);
        assert forall|i: int| 0 <= i <= n implies 0 <= #[trigger] f(i) < n by {
            assert(0 <= back(list@, prev@, li, i as nat) < n);
        }
        let (a, b) = lemma_pigeonhole(f, n as int);
        let an = a as nat;
        let bn = b as nat;
        assert(back(list@, prev@, li, an) == back(list@, prev@, li, bn)) by {
            assert(f(a) == f(b));
        }
        lemma_back_periodic(list@, prev@, li, an, bn, n as nat);
        lemma_back_add(list@, prev@, li, n as nat, (bn - an) as nat);
        assert((n + (bn - an)) as nat == (n as nat + (bn - an) as nat) as nat);
        assert(back(list@, prev@, xi, (bn - an) as nat) == xi);
        lm = lemma_first_return(list@, prev@, xi, (bn - an) as nat);
        assert forall|t: nat| 0 <= #[trigger] back(list@, prev@, xi, t) < n && prev@[back(list@, prev@, xi, t)]
            != usize::MAX by {
            lemma_back_add(list@, prev@, li, n as nat, t);
            let r = lemma_back_folds(list@, prev@, li, an, bn, (n + t) as nat);
            assert(back(list@, prev@, li, r) < n);
            assert(stamp[back(list@, prev@, li, r)] >= (n - 1 - r) * m);
            assert((n - 1 - r) * m >= 0) by (nonlinear_arith)
                requires
                    r < n,
                    m >= 0,
            ;
            lemma_trace_node(list@, n as int, dist@, prev@, stamp, pd, n * m, back(list@, prev@, li, r));
        }
    }
    let mut c: Vec<usize> = Vec::new();
    let mut seen: Vec<bool> = vec![false; n];
    let ghost mut ys: Seq<int> = Seq::empty();
    let mut y: usize = x;
    let mut steps: usize = 0;
    loop
        invariant_except_break
            c@.len() > 0 ==> !seen@[y as int] && y != x,
            steps < lm,
        invariant
            steps <= lm,
            1 <= lm <= n,
            back(list@, prev@, x as int, lm) == x,
            forall|t: nat| 1 <= t < lm ==> #[trigger] back(list@, prev@, x as int, t) != x,
            forall|t: nat| 0 <= #[trigger] back(list@, prev@, x as int, t) < n && prev@[back(list@, prev@, x as int, t)]
                != usize::MAX,
            y == back(list@, prev@, x as int, steps as nat),
            ys.len() == steps,
            forall|j: int| 0 <= j < ys.len() ==> #[trigger] ys[j] == back(list@, prev@, x as int, j as nat),
            forall|j: int| 0 <= j < c@.len() ==> (#[trigger] c@[j]) == prev@[ys[j]],
            !nonneg,
            nonneg == ((forall|j: int| 0 <= j < list@.len() ==> (#[trigger] list@[j]).2 >= 0) || good),
            good == (no_negative_cycle(list@, n as int) && n * max_abs_weight(list@, list@.len() as int) < i64::MAX),
            x < n,
            y < n,
            prev@.len() == n,
            seen@.len() == n,
            arcs_in(list@, n as int),
            forall|z: int|
                0 <= z < n && #[trigger] prev@[z] != usize::MAX ==> prev@[z] < list@.len() && list@[prev@[z] as int].1
                    == z,
            c@.len() == ys.len(),
            ys.len() == 0 ==> y == x,
            ys.len() > 0 ==> ys[0] == x,
            forall|j: int| 0 <= j < c@.len() ==> (#[trigger] c@[j]) < list@.len(),
            forall|j: int| 0 <= j < c@.len() ==> #[trigger] head_at(list@, c@, j) == ys[j],
            forall|j: int| 0 <= j < c@.len() - 1 ==> #[trigger] tail_at(list@, c@, j) == ys[j + 1],
            c@.len() > 0 ==> tail_at(list@, c@, c@.len() - 1) == y,
            forall|z: int| 0 <= z < n ==> (#[trigger] seen@[z] <==> exists|j: int| 0 <= j < ys.len() && ys[j] == z),
            forall|j1: int, j2: int| 0 <= j1 < j2 < ys.len() ==> #[trigger] ys[j1] != #[trigger] ys[j2],
            forall|j: int| 0 <= j < ys.len() ==> 0 <= #[trigger] ys[j] < n,
        ensures
            c@.len() > 0,
            c@.len() <= n,
            forall|j: int| 0 <= j < c@.len() ==> (#[trigger] c@[j]) == prev@[ys[j]],
            forall|j: int| 0 <= j < ys.len() ==> prev@[#[trigger] ys[j]] != usize::MAX,
            forall|j: int| 0 <= j < ys.len() ==> 0 <= #[trigger] ys[j] < n,
            y == x,
            c@.len() == ys.len(),
            ys[0] == x,
            forall|j: int| 0 <= j < c@.len() ==> (#[trigger] c@[j]) < list@.len(),
            forall|j: int| 0 <= j < c@.len() ==> #[trigger] head_at(list@, c@, j) == ys[j],
            forall|j: int| 0 <= j < c@.len() - 1 ==> #[trigger] tail_at(list@, c@, j) == ys[j + 1],
            tail_at(list@, c@, c@.len() - 1) == y,
            forall|j1: int, j2: int| 0 <= j1 < j2 < ys.len() ==> #[trigger] ys[j1] != #[trigger] ys[j2],
        decreases n - steps,
    {
        if steps >= n {
            proof {
                assert(false);
            }
            return CycleSearch::GaveUp;
        }
        let p = prev[y];
        if p == usize::MAX {
            proof {
                assert(prev@[back(list@, prev@, x as int, steps as nat)] != usize::MAX);
                assert(false);
            }
            return CycleSearch::GaveUp;
        }
        let ghost ys0 = ys;
        let ghost c0 = c@;
        let ghost seen0 = seen@;
        c.push(p);
        seen.set(y, true);
        proof {
            ys = ys.push(y as int);
            assert forall|z: int| 0 <= z < n implies (#[trigger] seen@[z] <==> exists|j: int|
                0 <= j < ys.len() && ys[j] == z) by {
                if z == y {
                    assert(ys[ys.len() - 1] == z);
                } else if seen@[z] {
                    let j = choose|j: int| 0 <= j < ys0.len() && ys0[j] == z;
                    assert(ys[j] == z);
                } else {
                    if exists|j: int| 0 <= j < ys.len() && ys[j] == z {
                        let j = choose|j: int| 0 <= j < ys.len() && ys[j] == z;
                        assert(ys0[j] == z);
                    }
                }
            }
            assert forall|j: int| 0 <= j < c@.len() implies #[trigger] head_at(list@, c@, j) == ys[j] by {
                if j < c0.len() {
                    assert(head_at(list@, c0, j) == ys0[j]);
                }
            }
            assert forall|j: int| 0 <= j < c@.len() - 1 implies #[trigger] tail_at(list@, c@, j) == ys[j + 1] by {
                if j < c0.len() - 1 {
                    assert(tail_at(list@, c0, j) == ys0[j + 1]);
                } else {
                    assert(tail_at(list@, c0, c0.len() - 1) == y);
                }
            }
            assert forall|j1: int, j2: int| 0 <= j1 < j2 < ys.len() implies #[trigger] ys[j1] != #[trigger] ys[j2] by {
                if j2 == ys.len() - 1 {
                    assert(ys0.len() > 0);
                    assert(!seen0[y as int]);
                    if ys0[j1] == y {
                        assert(exists|j: int| 0 <= j < ys0.len() && ys0[j] == y);
                    }
                } else {
                    assert(ys0[j1] != ys0[j2]);
                }
            }
        }
        y = list[p].0;
        steps = steps + 1;
        proof {
            assert(y == back(list@, prev@, x as int, steps as nat));
            assert forall|j: int| 0 <= j < c@.len() implies (#[trigger] c@[j]) == prev@[ys[j]] by {
                if j < c@.len() - 1 {
                    assert(c@[j] == c0[j]);
                }
            }
        }
        if y == x {
            break;
        }
        proof {
            if steps == lm {
                assert(false);
            }
            if seen@[y as int] {
                let j = choose|j: int| 0 <= j < ys.len() && ys[j] == y;
                let k = (lm - steps) as nat;
                lemma_back_add(list@, prev@, x as int, j as nat, k);
                lemma_back_add(list@, prev@, x as int, steps as nat, k);
                assert((steps + k) as nat == lm);
                assert(back(list@, prev@, x as int, (j + k) as nat) == x);
                assert(1 <= j + k && j + k < lm);
                assert(false);
            }
        }
        if seen[y] {
            return CycleSearch::GaveUp;
        }
    }
    proof {
        assert forall|j1: int, j2: int|
            0 <= j1 < c@.len() && 0 <= j2 < c@.len() && j1 != j2 implies #[trigger] tail_at(list@, c@, j1)
            != #[trigger] tail_at(list@, c@, j2) by {
            let l = c@.len() - 1;
            if j1 < l && j2 < l {
                if j1 + 1 < j2 + 1 {
                    assert(ys[j1 + 1] != ys[j2 + 1]);
                } else {
                    assert(ys[j2 + 1] != ys[j1 + 1]);
                }
            } else if j1 < l {
                assert(ys[0] != ys[j1 + 1]);
            } else {
                assert(ys[0] != ys[j2 + 1]);
            }
        }
        assert(closes_cycle(list@, c@));
    }
    let ghost wseq = Seq::new(c@.len(), |k: int| list@[c@[k] as int].2 as int);
    proof {
        assert(c@.len() >= 1);
        assert(c@[0] < list@.len());
        assert(n * wmax <= n * m * wmax) by (nonlinear_arith)
            requires
                m >= 1,
                wmax >= 0,
                n >= 0,
        ;
        let yseq = ys;
        assert forall|k: int| 0 <= k < c@.len() - 1 implies #[trigger] list@[c@[k] as int].0 as int == yseq[k + 1] by {
            assert(tail_at(list@, c@, k) == ys[k + 1]);
        }
        assert(list@[c@[c@.len() - 1] as int].0 as int == yseq[0]) by {
            assert(tail_at(list@, c@, c@.len() - 1) == y);
        }
        lemma_prev_cycle_negative(list@, n as int, dist@, prev@, stamp, pd, n * m, yseq, c@);
    }
    let mut total: i64 = 0;
    let mut j: usize = 0;
    while j < c.len()
        invariant
            !nonneg,
            nonneg == ((forall|j: int| 0 <= j < list@.len() ==> (#[trigger] list@[j]).2 >= 0) || good),
            good == (no_negative_cycle(list@, n as int) && n * max_abs_weight(list@, list@.len() as int) < i64::MAX),
            closes_cycle(list@, c@),
            j <= c@.len(),
            total == cycle_weight(list@, c@.take(j as int)),
            total == sum_to(wseq, j as int),
            wseq == Seq::new(c@.len(), |k: int| list@[c@[k] as int].2 as int),
            c@.len() <= n,
            m == list@.len(),
            wmax == max_abs_weight(list@, m),
            wmax >= 0,
            bnd == (n * m * wmax < i64::MAX),
            n * wmax <= n * m * wmax,
            sum_to(wseq, c@.len() as int) < 0,
        decreases c@.len() - j,
    {
        let w = list[c[j]].2;
        proof {
            assert(c@.take(j + 1).drop_last() =~= c@.take(j as int));
            assert(c@.take(j + 1).last() == c@[j as int]);
            lemma_max_abs_bound(list@, c@, j + 1);
            assert(wseq =~= Seq::new(c@.len(), |j: int| list@[c@[j] as int].2 as int));
            assert((j + 1) * wmax <= n * wmax) by (nonlinear_arith)
                requires
                    j + 1 <= n,
                    wmax >= 0,
            ;
            assert(sum_to(wseq, j + 1) == total + w);
            assert(-((j + 1) * wmax) <= total + w <= (j + 1) * wmax);
        }
        let nt: i128 = total as i128 + w as i128;
        if nt < i64::MIN as i128 || nt > i64::MAX as i128 {
            proof {
                assert(!bnd);
            }
            return CycleSearch::GaveUp;
        }
        total = nt as i64;
        j = j + 1;
    }
    proof {
        assert(c@.take(c@.len() as int) =~= c@);
    }
    if total < 0 {
        CycleSearch::Cycle(c)
    } else {
        proof {
            assert(false);
        }
        CycleSearch::GaveUp
    }
}

/// Costs over the same edges agree.
proof fn lemma_flow_cost_same(rn1: ResidualNetwork, rn2: ResidualNetwork, g: Seq<i64>, k: int)
    requires
        rn1.edges == rn2.edges,
    ensures
        flow_cost(rn1, g, k) == flow_cost(rn2, g, k),
    decreases k,
{
    if k > 0 {
        lemma_flow_cost_same(rn1, rn2, g, k - 1);
    }
}

/// Flows that agree on the first `k` edges cost the same there.
proof fn lemma_flow_cost_prefix(rn: ResidualNetwork, g1: Seq<i64>, g2: Seq<i64>, k: int)
    requires
        forall|i: int| 0 <= i < k ==> #[trigger] g1[i] == g2[i],
    ensures
        flow_cost(rn, g1, k) == flow_cost(rn, g2, k),
    decreases k,
{
    if k > 0 {
        lemma_flow_cost_prefix(rn, g1, g2, k - 1);
        assert(g1[k - 1] == g2[k - 1]);
    }
}

/// Changing the flow on one edge changes the cost by the edge's cost times
/// the change.
proof fn lemma_flow_cost_update(rn: ResidualNetwork, g: Seq<i64>, e: int, v: i64, k: int)
    requires
        0 <= e < k <= g.len(),
    ensures
        flow_cost(rn, g.update(e, v), k) == flow_cost(rn, g, k) + rn.edges@[e].cost * (v - g[e]),
    decreases k,
{
    let c = rn.edges@[e].cost as int;
    if e < k - 1 {
        lemma_flow_cost_update(rn, g, e, v, k - 1);
    } else {
        lemma_flow_cost_prefix(rn, g.update(e, v), g, k - 1);
        assert(c * v == c * g[e] + c * (v - g[e])) by (nonlinear_arith);
    }
}

/// Flows of at least zero over edges of cost at least zero cost at least
/// zero.
proof fn lemma_flow_cost_nonneg(rn: ResidualNetwork, g: Seq<i64>, k: int)
    requires
        k <= g.len(),
        k <= rn.edges@.len(),
        forall|i: int| 0 <= i < k ==> 0 <= #[trigger] g[i],
        forall|i: int| 0 <= i < k ==> 0 <= (#[trigger] rn.edges@[i]).cost,
    ensures
        flow_cost(rn, g, k) >= 0,
    decreases k,
{
    if k > 0 {
        lemma_flow_cost_nonneg(rn, g, k - 1);
        let c = rn.edges@[k - 1].cost as int;
        let f = g[k - 1] as int;
        assert(c >= 0 && f >= 0);
        assert(c * f >= 0) by (nonlinear_arith)
            requires
                c >= 0,
                f >= 0,
        ;
    }
}

/// The cost of the flow of a network.
pub open spec fn cost_now(rn: ResidualNetwork) -> int {
    flow_cost(rn, flows_of(rn), rn.num_edges as int)
}

/// The flow of a network costs at least zero.
proof fn lemma_cost_now_nonneg(rn: ResidualNetwork)
    requires
        rn.wf(),
    ensures
        cost_now(rn) >= 0,
{
    lemma_shape(rn);
    lemma_flow_bounds(rn);
    assert forall|i: int| 0 <= i < rn.num_edges implies 0 <= #[trigger] flows_of(rn)[i] by {
        assert(0 <= rn.flow(i));
    }
    lemma_flow_cost_nonneg(rn, flows_of(rn), rn.num_edges as int);
}

/// Sending `delta` along arc `a` out of `u` changes the cost of the flow
/// by `delta` times the cost of the arc.
proof fn lemma_push_cost(rn1: ResidualNetwork, rn2: ResidualNetwork, u: int, a: int, delta: int)
    requires
        rn1.wf(),
        rn2.wf(),
        rn2.same_except_flow(rn1),
        0 <= u < rn1.num_nodes,
        rn1.start@[u] <= a < rn1.start@[u + 1],
        0 <= delta <= rn1.residual_capacity@[a],
        rn2.residual_capacity@ == rn1.residual_capacity@.update(a, (rn1.residual_capacity@[a] - delta) as i64).update(
            rn1.rev@[a].0 as int,
            (rn1.residual_capacity@[rn1.rev@[a].0 as int] + delta) as i64,
        ),
    ensures
        cost_now(rn2) == cost_now(rn1) + delta * rn1.cost@[a],
{
    lemma_arc_at(rn1, u, a);
    lemma_shape(rn1);
    let d = rn1.arc_edge@[a];
    let e = d / 2;
    lemma_pair(rn1, e);
    lemma_cost_of_fwd(rn1, e);
    lemma_flow_bounds(rn1);
    lemma_flow_bounds(rn2);
    let m = rn1.num_edges as int;
    let f1 = flows_of(rn1);
    let f2 = flows_of(rn2);
    let nv: int = if d % 2 == 0 { rn1.flow(e) + delta } else { rn1.flow(e) - delta };
    assert(f2 =~= f1.update(e, nv as i64)) by {
        assert forall|k: int| 0 <= k < m implies #[trigger] f2[k] == f1.update(e, nv as i64)[k] by {
            assert(rn2.bwd(k) == rn1.bwd(k));
            if d % 2 == 0 {
                assert(a == rn1.fwd(e) && rn1.rev@[a].0 == rn1.bwd(e));
            } else {
                assert(a == rn1.bwd(e) && rn1.rev@[a].0 == rn1.fwd(e));
            }
            if k != e {
                lemma_pair(rn1, k);
                assert(rn1.fwd(k) != rn1.fwd(e));
                assert(rn1.bwd(k) != rn1.fwd(e) && rn1.bwd(k) != rn1.bwd(e));
                assert(rn2.flow(k) == rn1.flow(k));
                assert(f2[k] == f1[k]);
            } else if d % 2 == 0 {
                assert(a == rn1.fwd(e) && rn1.rev@[a].0 == rn1.bwd(e));
                assert(rn2.flow(k) == nv);
                assert(f2[k] == nv as i64);
            } else {
                assert(a == rn1.bwd(e) && rn1.rev@[a].0 == rn1.fwd(e));
                assert(rn2.flow(k) == nv);
                assert(f2[k] == nv as i64);
            }
        }
    }
    lemma_flow_cost_update(rn1, f1, e, nv as i64, m);
    lemma_flow_cost_same(rn1, rn2, f2, m);
    let c = rn1.edges@[e].cost as int;
    if d % 2 == 0 {
        assert(c * (nv - f1[e]) == delta * c) by (nonlinear_arith)
            requires
                nv - f1[e] == delta,
        ;
    } else {
        assert(c * (nv - f1[e]) == delta * (-c)) by (nonlinear_arith)
            requires
                nv - f1[e] == -delta,
        ;
    }
}

/// A listed arc is an arc of its tail's row with room.
proof fn lemma_listed(rn: ResidualNetwork, list: Seq<(usize, usize, i64)>, info: Seq<usize>, i: int)
    requires
        rn.wf(),
        arcs_listed(rn, list, info),
        0 <= i < list.len(),
    ensures
        0 <= info[i] < rn.residual_capacity@.len(),
        rn.residual_capacity@[info[i] as int] > 0,
        0 <= list[i].0 < rn.num_nodes,
        rn.start@[list[i].0 as int] <= info[i] < rn.start@[list[i].0 + 1],
        rn.to@[info[i] as int].0 == list[i].1,
{
    lemma_shape(rn);
    let tl = list[i].0 as int;
    assert(rn.start@[tl] <= info[i] < rn.start@[tl + 1]);
    lemma_arc_at(rn, tl, info[i] as int);
}

/// Sends as much flow as every arc of the cycle `c` of `list` can carry
/// around it: the excesses stay as they were and, the cycle weighing less
/// than zero, the flow costs less.
fn cancel(rn: &mut ResidualNetwork, list: &Vec<(usize, usize, i64)>, info: &Vec<usize>, c: &Vec<usize>)
    requires
        old(rn).wf(),
        arcs_listed(*old(rn), list@, info@),
        forall|i: int| 0 <= i < list@.len() ==> (#[trigger] list@[i]).2 == old(rn).cost@[info@[i] as int],
        closes_cycle(list@, c@),
        cycle_weight(list@, c@) < 0,
    ensures
        final(rn).wf(),
        final(rn).same_except_flow(*old(rn)),
        final(rn).excesses@ == old(rn).excesses@,
        cost_now(*final(rn)) < cost_now(*old(rn)),
{
    let ghost rn0 = *rn;
    let len = c.len();
    proof {
        lemma_listed(rn0, list@, info@, c@[0] as int);
    }
    let mut delta: i64 = rn.residual_capacity[info[c[0]]];
    let mut j: usize = 1;
    while j < len
        invariant
            rn.wf(),
            *rn == rn0,
            arcs_listed(rn0, list@, info@),
            closes_cycle(list@, c@),
            len == c@.len(),
            1 <= j <= len,
            delta > 0,
            forall|l: int| 0 <= l < j ==> delta <= rn.residual_capacity@[info@[#[trigger] c@[l] as int] as int],
        decreases len - j,
    {
        proof {
            lemma_listed(rn0, list@, info@, c@[j as int] as int);
        }
        let r = rn.residual_capacity[info[c[j]]];
        if r < delta {
            delta = r;
        }
        j = j + 1;
    }
    let ghost h0 = head_at(list@, c@, 0);
    let mut j: usize = 0;
    while j < len
        invariant
            rn.wf(),
            rn.same_except_flow(rn0),
            rn0.wf(),
            arcs_listed(rn0, list@, info@),
            forall|i: int| 0 <= i < list@.len() ==> (#[trigger] list@[i]).2 == rn0.cost@[info@[i] as int],
            closes_cycle(list@, c@),
            len == c@.len(),
            0 <= j <= len,
            delta > 0,
            h0 == head_at(list@, c@, 0),
            forall|l: int| j <= l < len ==> delta <= rn.residual_capacity@[info@[#[trigger] c@[l] as int] as int],
            rn.excesses@.len() == rn0.excesses@.len(),
            forall|x: int|
                0 <= x < rn0.num_nodes ==> #[trigger] rn.excesses@[x] == rn0.excesses@[x] + (if j > 0 && x == h0 {
                    delta as int
                } else {
                    0
                }) - (if j > 0 && x == tail_at(list@, c@, j - 1) {
                    delta as int
                } else {
                    0
                }),
            cost_now(*rn) == cost_now(rn0) + delta * cycle_weight(list@, c@.take(j as int)),
        decreases len - j,
    {
        let i = c[j];
        let u = list[i].0;
        let a = info[i];
        let ghost before = *rn;
        proof {
            assert(c@[j as int] == i);
            assert(0 <= i < list@.len());
            lemma_listed(rn0, list@, info@, i as int);
            assert(rn.start == rn0.start);
            assert(delta <= rn.residual_capacity@[info@[c@[j as int] as int] as int]);
        }
        proof {
            lemma_push_facts(before, u as int, a as int, delta as int);
        }
        rn.push_flow(NodeId(u), ArcId(a), delta);
        proof {
            lemma_push_cost(before, *rn, u as int, a as int, delta as int);
            assert(rn.cost == rn0.cost);
            assert(c@.take(j + 1).drop_last() =~= c@.take(j as int));
            assert(c@.take(j + 1).last() == i);
            assert(cycle_weight(list@, c@.take(j + 1)) == cycle_weight(list@, c@.take(j as int)) + list@[i as int].2);
            assert(delta * cycle_weight(list@, c@.take(j + 1)) == delta * cycle_weight(list@, c@.take(j as int))
                + delta * list@[i as int].2) by (nonlinear_arith)
                requires
                    cycle_weight(list@, c@.take(j + 1)) == cycle_weight(list@, c@.take(j as int)) + list@[i as int].2,
            ;
            assert forall|l: int| j + 1 <= l < len implies delta <= rn.residual_capacity@[info@[
                #[trigger] c@[l] as int] as int] by {
                let b = info@[c@[l] as int] as int;
                assert(tail_at(list@, c@, l) != tail_at(list@, c@, j as int));
                let tb = list@[c@[l] as int].0 as int;
                lemma_listed(rn0, list@, info@, c@[l] as int);
                lemma_arc_at(rn0, tb, b);
                lemma_arc_at(rn0, u as int, a as int);
                assert(b != a);
                assert(before.residual_capacity@[b] >= delta);
                let rv = before.rev@[a as int].0 as int;
                lemma_shape(before);
                lemma_shape(rn0);
                if b == rv {
                    assert(before.residual_capacity@[rv] + delta <= i64::MAX);
                    assert(rn.residual_capacity@[b] == before.residual_capacity@[b] + delta);
                } else {
                    assert(rn.residual_capacity@[b] == before.residual_capacity@[b]);
                }
            }
            assert forall|x: int| 0 <= x < rn0.num_nodes implies #[trigger] rn.excesses@[x] == rn0.excesses@[x] + (if j
                + 1 > 0 && x == h0 {
                delta as int
            } else {
                0
            }) - (if j + 1 > 0 && x == tail_at(list@, c@, j as int) {
                delta as int
            } else {
                0
            }) by {
                assert(before.excesses@[x] == rn0.excesses@[x] + (if j > 0 && x == h0 {
                    delta as int
                } else {
                    0
                }) - (if j > 0 && x == tail_at(list@, c@, j - 1) {
                    delta as int
                } else {
                    0
                }));
                assert(rn0.to@[a as int].0 == list@[i as int].1);
                if j > 0 {
                    assert(tail_at(list@, c@, j - 1) == head_at(list@, c@, j as int));
                }
            }
        }
        j = j + 1;
    }
    proof {
        assert(c@.take(len as int) =~= c@);
        assert(tail_at(list@, c@, len - 1) == h0);
        assert forall|x: int| 0 <= x < rn0.num_nodes implies #[trigger] rn.excesses@[x] == rn0.excesses@[x] by {
        }
        lemma_shape(rn0);
        assert(rn.excesses@ =~= rn0.excesses@);
        assert(delta * cycle_weight(list@, c@) < 0) by (nonlinear_arith)
            requires
                delta > 0,
                cycle_weight(list@, c@) < 0,
        ;
    }
}

/// The balance over the first `k` edges depends on those edges only.
proof fn lemma_balance_prefix(a: Seq<Edge<CapEdge>>, b: Seq<Edge<CapEdge>>, k: int, x: int)
    requires
        forall|e: int| 0 <= e < k ==> #[trigger] a[e] == b[e],
    ensures
        balance(a, k, x) == balance(b, k, x),
    decreases k,
{
    if k > 0 {
        lemma_balance_prefix(a, b, k - 1, x);
        assert(a[k - 1] == b[k - 1]);
    }
}

/// Edges past the first `m` that carry no flow leave every balance as it
/// is over the first `m`.
proof fn lemma_balance_unused(fe: Seq<Edge<CapEdge>>, m: int, k: int, x: int)
    requires
        0 <= m <= k,
        forall|e: int| m <= e < k ==> (#[trigger] fe[e]).data.flow == 0,
    ensures
        balance(fe, k, x) == balance(fe, m, x),
    decreases k,
{
    if k > m {
        lemma_balance_unused(fe, m, k - 1, x);
    }
}

/// No flow on the first `m` edges, then the edges between the nodes and
/// the root carrying the nodes' supplies and demands: every node is left
/// with its supply taken away.
proof fn lemma_root_balance(fe: Seq<Edge<CapEdge>>, m: int, b: Seq<i64>, n: int, root: NodeId, c: i64, k: int, x: int)
    requires
        0 <= m,
        0 <= k <= n <= b.len(),
        0 <= x < n,
        root.0 == n,
        fe.len() >= m + n,
        forall|e: int| 0 <= e < m ==> (#[trigger] fe[e]).data.flow == 0,
        forall|j: int|
            0 <= j < n ==> (#[trigger] fe[m + j]).u == root_edges(b, n, root, c)[j].u && fe[m + j].v == root_edges(
                b,
                n,
                root,
                c,
            )[j].v && fe[m + j].data.flow == magnitudes(b, n)[j],
        forall|y: int| 0 <= y < b.len() ==> -SUPPLY_LIMIT <= #[trigger] b[y] <= SUPPLY_LIMIT,
    ensures
        balance(fe, m + k, x) == if x < k {
            -b[x]
        } else {
            0
        },
    decreases k,
{
    lemma_root_edges(b, n, root, c);
    if k == 0 {
        lemma_balance_unused(fe, 0, m, x);
        assert(balance(fe, 0, x) == 0);
    } else {
        lemma_root_balance(fe, m, b, n, root, c, k - 1, x);
        let j = k - 1;
        let e = root_edges(b, n, root, c)[j];
        assert(fe[m + j].u == e.u && fe[m + j].v == e.v);
        assert(m + k - 1 == m + j);
        assert(fe[m + j].data.flow == magnitudes(b, n)[j]);
        if b[j] >= 0 {
            assert(e.u == NodeId(j as usize) && e.v == root);
        } else {
            assert(e.u == root && e.v == NodeId(j as usize));
        }
    }
}

/// The cycle canceling solver over the residual network of a graph
/// extended by a root that carries every supply and demand.
pub struct CycleCanceling {
    status: Status,
    rn: ResidualNetwork,
    /// The edges of the graph the solver was built for.
    graph_edges: Ghost<Seq<Edge<MinimumCostFlowEdge>>>,
    /// The nodes of that graph.
    graph_nodes: Ghost<Seq<MinimumCostFlowNode>>,
    /// The supplies of the normalized network.
    supplies: Ghost<Seq<i64>>,
}

impl CycleCanceling {
    closed spec fn inv(&self) -> bool {
        let m = self.rn.num_edges_original_graph as int;
        &&& self.rn.wf()
        &&& self.rn.original_ok()
        &&& self.graph_edges@.len() == m
        &&& forall|e: int| 0 <= e < m ==> #[trigger] self.rn.edges@[e] == normalize(self.graph_edges@[e])
        &&& forall|e: int|
            0 <= e < m ==> -VALUE_LIMIT <= (#[trigger] self.graph_edges@[e]).data.lower <= self.graph_edges@[
                e].data.upper <= VALUE_LIMIT && -VALUE_LIMIT <= self.graph_edges@[e].data.cost <= VALUE_LIMIT
        &&& self.graph_nodes@.len() == self.rn.num_nodes_original_graph
        &&& forall|x: int| 0 <= x < self.rn.num_nodes ==> #[trigger] self.rn.excesses@[x] == self.rn.b@[x]
        &&& forall|x: int|
            0 <= x < self.graph_nodes@.len() ==> #[trigger] self.rn.base_balance@[x] == -(self.graph_nodes@[x].b
                + balance_shift(self.rn.edges@, m, x))
        &&& self.supplies@.len() == self.graph_nodes@.len()
        &&& forall|x: int|
            0 <= x < self.graph_nodes@.len() ==> #[trigger] self.supplies@[x] == self.graph_nodes@[x].b + balance_shift(
                self.rn.edges@,
                m,
                x,
            )
        &&& self.rn.num_nodes == self.graph_nodes@.len() + 1
        &&& forall|x: int| 0 <= x < self.graph_nodes@.len() ==> #[trigger] self.rn.b@[x] == 0
        &&& self.rn.b@[self.graph_nodes@.len() as int] == total(self.supplies@, self.graph_nodes@.len() as int)
        &&& forall|e: int|
            0 <= e < m ==> (#[trigger] self.rn.edges@[e]).u.0 < self.graph_nodes@.len() && self.rn.edges@[e].v.0
                < self.graph_nodes@.len()
    }

    /// The supplies of the network add up to those of the graph.
    proof fn lemma_supply_total(&self)
        requires
            self.inv(),
        ensures
            total(self.rn.b@, self.rn.num_nodes as int) == supply_sum(self.graph_nodes@, self.graph_nodes@.len() as int),
    {
        let m = self.rn.num_edges_original_graph as int;
        let n = self.graph_nodes@.len() as int;
        lemma_shape(self.rn);
        lemma_total_zeros(self.rn.b@, n);
        assert(total(self.rn.b@, n + 1) == total(self.rn.b@, n) + self.rn.b@[n]);
        lemma_total_split(self.supplies@, self.graph_nodes@, self.rn.edges@, m, n);
        lemma_shift_sum_zero(self.rn.edges@, m, n);
    }

    /// The edges of the graph the solver was built for.
    pub closed spec fn edges_of(&self) -> Seq<Edge<MinimumCostFlowEdge>> {
        self.graph_edges@
    }

    /// The nodes of the graph the solver was built for.
    pub closed spec fn nodes_of(&self) -> Seq<MinimumCostFlowNode> {
        self.graph_nodes@
    }

    /// Read on the graph, the flow takes from every node exactly its
    /// supply: what enters it less what leaves it is minus its supply.
    pub closed spec fn supplies_met_in_graph(&self) -> bool {
        forall|x: int|
            0 <= x < self.graph_nodes@.len() ==> #[trigger] graph_balance(
                self.graph_edges@,
                graph_flows(self.rn),
                self.graph_edges@.len() as int,
                x,
            ) + self.graph_nodes@[x].b == 0
    }

    /// With the edges joining the root unused, the flow meets the supplies
    /// of the graph.
    proof fn lemma_supplies_in_graph(&self)
        requires
            self.inv(),
            self.root_unused(),
        ensures
            self.supplies_met_in_graph(),
    {
        let es = self.graph_edges@;
        let m = es.len() as int;
        let rn = self.rn;
        lemma_shape(rn);
        lemma_flow_bounds(rn);
        assert(normalizes(rn, es));
        assert forall|x: int| 0 <= x < self.graph_nodes@.len() implies #[trigger] graph_balance(
            es,
            graph_flows(rn),
            m,
            x,
        ) + self.graph_nodes@[x].b == 0 by {
            lemma_graph_balance_of(rn, es, x);
            lemma_excess_of(rn, x);
            let fe = rn.flow_edges();
            assert forall|e: int| m <= e < rn.num_edges implies (#[trigger] fe[e]).data.flow == 0 by {
                assert(rn.flow(e) == 0);
            }
            lemma_balance_unused(fe, m, rn.num_edges as int, x);
        }
    }


    /// The edges joining the root carry no flow.
    pub closed spec fn root_unused(&self) -> bool {
        forall|e: int| self.rn.num_edges_original_graph <= e < self.rn.num_edges ==> #[trigger] self.rn.flow(e) == 0
    }

    /// No flow on the edges of the network, within their capacities and
    /// leaving every node with the balance the solver's flow leaves it,
    /// costs less than the solver's flow.
    pub closed spec fn least_cost(&self) -> bool {
        let m = self.rn.num_edges as int;
        forall|g: Seq<i64>|
            g.len() == m && (forall|e: int| 0 <= e < m ==> 0 <= #[trigger] g[e] <= self.rn.edges@[e].upper) && (forall|
                x: int,
            |
                0 <= x < self.rn.num_nodes ==> #[trigger] balance(with_flows(self.rn, g), m, x) == balance(
                    self.rn.flow_edges(),
                    m,
                    x,
                )) ==> flow_cost(self.rn, flows_of(self.rn), m) <= #[trigger] flow_cost(self.rn, g, m)
    }

    /// No flow on the edges of the graph, within their bounds and leaving
    /// every node with the balance that the solver's flow leaves it, costs
    /// less than the solver's flow.
    pub closed spec fn least_cost_in_graph(&self) -> bool {
        let es = self.graph_edges@;
        let m = es.len() as int;
        forall|h: Seq<i64>|
            within_graph_bounds(es, h) && (forall|x: int|
                0 <= x < self.rn.num_nodes ==> #[trigger] graph_balance(es, h, m, x) == graph_balance(
                    es,
                    graph_flows(self.rn),
                    m,
                    x,
                )) ==> self.rn.objective(m) <= #[trigger] graph_cost(es, h, m)
    }

    /// Under complementary slackness the flow costs least, on the network
    /// and on the graph.
    proof fn lemma_least_costs(&self)
        requires
            self.inv(),
            slackness(self.rn),
        ensures
            self.least_cost(),
            self.least_cost_in_graph(),
    {
        let m = self.rn.num_edges as int;
        assert forall|g: Seq<i64>|
            g.len() == m && (forall|e: int| 0 <= e < m ==> 0 <= #[trigger] g[e] <= self.rn.edges@[e].upper) && (forall|
                x: int,
            |
                0 <= x < self.rn.num_nodes ==> #[trigger] balance(with_flows(self.rn, g), m, x) == balance(
                    self.rn.flow_edges(),
                    m,
                    x,
                )) implies flow_cost(self.rn, flows_of(self.rn), m) <= #[trigger] flow_cost(self.rn, g, m) by {
            lemma_slackness_optimal(self.rn, g);
        }
        let es = self.graph_edges@;
        let k = es.len() as int;
        lemma_shape(self.rn);
        assert(normalizes(self.rn, es));
        assert forall|h: Seq<i64>|
            within_graph_bounds(es, h) && (forall|x: int|
                0 <= x < self.rn.num_nodes ==> #[trigger] graph_balance(es, h, k, x) == graph_balance(
                    es,
                    graph_flows(self.rn),
                    k,
                    x,
                )) implies self.rn.objective(k) <= #[trigger] graph_cost(es, h, k) by {
            lemma_graph_optimal(self.rn, es, h);
        }
    }

    /// A solver for `graph`, not yet run, holding the flow that sends every
    /// supply to the root and every demand from it.
    pub fn new(graph: &Graph<Directed, MinimumCostFlowNode, MinimumCostFlowEdge>) -> (r: Self)
        requires
            network_ok(*graph),
        ensures
            r.ready(),
            !r.solved(),
            r.edge_count() == graph.edges@.len(),
            r.node_count() == graph.nodes@.len(),
            r.edges_of() == graph.edges@,
            r.nodes_of() == graph.nodes@,
            forall|e: int| 0 <= e < graph.edges@.len() ==> #[trigger] r.flow_of(e) == resting_flow(graph.edges@[e]),
            forall|x: int| 0 <= x < graph.nodes@.len() ==> #[trigger] r.potential_of(x) == 0,
    {
        let nn = NormalizedNetwork::from(graph);
        let ghost ges = graph.edges@;
        let n = nn.num_nodes();
        let (root, artificial_edges, initial_flows, excess_fix) = construct_extend_network_feasible_solution(&nn);
        let nodes: Vec<NodeId> = vec![root];
        let nodes_slice = nodes.as_slice();
        let art_slice = artificial_edges.as_slice();
        let flow_slice = initial_flows.as_slice();
        let fix_slice = excess_fix.as_slice();
        proof {
            let b = nn.supplies();
            let es = nn.normalized_edges();
            let art = artificial_edges@;
            let c = crate::minimum_cost_flow::extend_network::cost_bound(es, es.len() as int);
            lemma_cost_bound(es, es.len() as int);
            assert(es.len() * VALUE_LIMIT <= VALUE_LIMIT * VALUE_LIMIT) by (nonlinear_arith)
                requires
                    es.len() <= VALUE_LIMIT,
            ;
            lemma_root_edges(b, n as int, root, c as i64);
            lemma_capacity_concat(es, art, art.len() as int);
            lemma_capacity_bound(es, es.len() as int, 2 * VALUE_LIMIT);
            lemma_sums_bound(b, n as int);
            assert(es.len() * (2 * VALUE_LIMIT) <= VALUE_LIMIT * (2 * VALUE_LIMIT)) by (nonlinear_arith)
                requires
                    es.len() <= VALUE_LIMIT,
            ;
            assert(n * SUPPLY_LIMIT <= VALUE_LIMIT * SUPPLY_LIMIT) by (nonlinear_arith)
                requires
                    n <= VALUE_LIMIT,
            ;
            assert(nodes@.len() == 1);
            assert forall|e: int| 0 <= e < art.len() implies {
                let ne = #[trigger] opt_seq(Some(art_slice))[e];
                &&& ne.u.0 < total_nodes(nn, Some(nodes_slice))
                &&& ne.v.0 < total_nodes(nn, Some(nodes_slice))
                &&& 0 <= ne.cost
                &&& 0 <= ne.upper
            } by {
                assert(opt_seq(Some(art_slice))[e] == art[e]);
            }
            let all = all_of(nn, Some(art_slice));
            assert forall|e: int| 0 <= e < all.len() implies 0 <= #[trigger] initial_flow(Some(flow_slice), e)
                <= all[e].upper by {
                if e < es.len() {
                    assert(all[e] == es[e]);
                    assert(flow_slice@[e] == 0);
                } else {
                    assert(all[e] == art[e - es.len()]);
                    assert(flow_slice@[e] == crate::minimum_cost_flow::extend_network::magnitudes(b, n as int)[e
                        - es.len()]);
                }
            }
            assert forall|x: int| 0 <= x < total_nodes(nn, Some(nodes_slice)) implies -TOTAL_LIMIT
                <= #[trigger] start_supply(nn, Some(fix_slice), x) <= TOTAL_LIMIT by {
                if x < n {
                    assert(excess_fix@[x] == -b[x]);
                }
            }
        }
        let rn = ResidualNetwork::new(&nn, Some(nodes_slice), Some(art_slice), Some(flow_slice), Some(fix_slice));
        proof {
            assert forall|e: int| 0 <= e < rn.num_edges_original_graph implies #[trigger] rn.edges@[e] == normalize(
                ges[e],
            ) by {
                assert(rn.edges@[e] == nn.normalized_edges()[e]);
            }
            let b = nn.supplies();
            let m = ges.len() as int;
            let c = crate::minimum_cost_flow::extend_network::cost_bound(
                nn.normalized_edges(),
                nn.normalized_edges().len() as int,
            );
            let fe = rn.flow_edges();
            lemma_shape(rn);
            lemma_root_edges(b, n as int, root, c as i64);
            assert forall|e: int| 0 <= e < m implies (#[trigger] fe[e]).data.flow == 0 by {
                assert(rn.flow(e) == initial_flow(Some(flow_slice), e));
                assert(flow_slice@[e] == 0);
            }
            assert forall|j: int| 0 <= j < n implies (#[trigger] fe[m + j]).u == root_edges(
                b,
                n as int,
                root,
                c as i64,
            )[j].u && fe[m + j].v == root_edges(b, n as int, root, c as i64)[j].v && fe[m + j].data.flow
                == magnitudes(b, n as int)[j] by {
                assert(rn.flow(m + j) == initial_flow(Some(flow_slice), m + j));
                assert(flow_slice@[m + j] == magnitudes(b, n as int)[j]);
                assert(rn.edges@[m + j] == artificial_edges@[j]);
                assert(0 <= magnitudes(b, n as int)[j]);
            }
            assert(normalizes(rn, ges));
            assert forall|x: int| 0 <= x < graph.nodes@.len() implies #[trigger] rn.base_balance@[x] == -(
            graph.nodes@[x].b + balance_shift(rn.edges@, m, x)) by {
                lemma_root_balance(fe, m, b, n as int, root, c as i64, n as int, x);
                lemma_shift_supply(rn, *graph, m, x);
                assert(b[x] == crate::minimum_cost_flow::normalized_network::normalized_b(*graph, m, x));
            }
        }
        proof {
            let b = nn.supplies();
            let m = ges.len() as int;
            assert forall|x: int| 0 <= x < graph.nodes@.len() implies #[trigger] b[x] == graph.nodes@[x].b
                + balance_shift(rn.edges@, m, x) by {
                lemma_shift_supply(rn, *graph, m, x);
            }
            assert forall|x: int| 0 <= x < graph.nodes@.len() implies #[trigger] rn.b@[x] == 0 by {
                assert(rn.b@[x] == start_supply(nn, Some(fix_slice), x));
                assert(excess_fix@[x] == -b[x]);
            }
            assert(rn.b@[n as int] == start_supply(nn, Some(fix_slice), n as int));
            assert forall|e: int| 0 <= e < m implies (#[trigger] rn.edges@[e]).u.0 < n && rn.edges@[e].v.0 < n by {
                assert(rn.edges@[e] == nn.normalized_edges()[e]);
            }
        }
        proof {
            lemma_shape(rn);
            assert forall|x: int| 0 <= x < graph.nodes@.len() implies #[trigger] rn.potentials@[x] == 0 by {
                assert(rn.b@[x] == start_supply(nn, Some(fix_slice), x));
            }
        }
        CycleCanceling {
            status: Status::NotSolved,
            rn,
            graph_edges: Ghost(ges),
            graph_nodes: Ghost(graph.nodes@),
            supplies: Ghost(nn.supplies()),
        }
    }
}

/// Potentials of zero everywhere.
fn clear_potentials(rn: &mut ResidualNetwork)
    requires
        old(rn).wf(),
    ensures
        final(rn).wf(),
        final(rn).same_except_potentials(*old(rn)),
        forall|x: int| 0 <= x < final(rn).num_nodes ==> #[trigger] final(rn).potentials@[x] == 0,
{
    let ghost before = *rn;
    proof {
        lemma_shape(before);
    }
    rn.potentials = vec![0i64; rn.num_nodes];
    proof {
        lemma_potentials_frame(before, *rn);
    }
}

/// Potentials the negated distances `dist`.
fn set_potentials(rn: &mut ResidualNetwork, dist: &Vec<i64>)
    requires
        old(rn).wf(),
        dist@.len() == old(rn).num_nodes,
        forall|x: int| 0 <= x < dist@.len() ==> #[trigger] dist@[x] > i64::MIN,
    ensures
        final(rn).wf(),
        final(rn).same_except_potentials(*old(rn)),
        forall|x: int| 0 <= x < final(rn).num_nodes ==> #[trigger] final(rn).potentials@[x] == -dist@[x],
{
    let ghost before = *rn;
    proof {
        lemma_shape(before);
    }
    let mut ps: Vec<i64> = Vec::new();
    let mut x: usize = 0;
    while x < dist.len()
        invariant
            x <= dist@.len(),
            ps@.len() == x,
            forall|y: int| 0 <= y < dist@.len() ==> #[trigger] dist@[y] > i64::MIN,
            forall|y: int| 0 <= y < x ==> #[trigger] ps@[y] == -dist@[y],
        decreases dist@.len() - x,
    {
        ps.push(-dist[x]);
        x = x + 1;
    }
    rn.potentials = ps;
    proof {
        lemma_potentials_frame(before, *rn);
    }
}

/// Distances that no listed arc shortens, their negations taken as
/// potentials, give every arc with room a reduced cost of at least zero.
proof fn lemma_settled(rn: ResidualNetwork, list: Seq<(usize, usize, i64)>, info: Seq<usize>, dist: Seq<i64>)
    requires
        rn.wf(),
        arcs_listed(rn, list, info),
        forall|i: int| 0 <= i < list.len() ==> (#[trigger] list[i]).2 == rn.cost@[info[i] as int],
        forall|u: int, a: int|
            0 <= u < rn.num_nodes && rn.start@[u] <= a < rn.start@[u + 1] && #[trigger] rn.residual_capacity@[a] > 0
                && #[trigger] rn.start@[u] <= a ==> listed_arc(list, info, u, a),
        dist.len() == rn.num_nodes,
        forall|i: int| 0 <= i < list.len() ==> dist[(#[trigger] list[i]).1 as int] <= dist[list[i].0 as int] + list[i].2,
        forall|x: int| 0 <= x < rn.num_nodes ==> #[trigger] rn.potentials@[x] == -dist[x],
    ensures
        slackness(rn),
{
    assert forall|t: int, a: int|
        0 <= t < rn.num_nodes && rn.start@[t] <= a < rn.start@[t + 1] && #[trigger] rn.residual_capacity@[a] > 0
            && #[trigger] rn.start@[t] <= a implies arc_reduced(rn, t, a) >= 0 by {
        assert(listed_arc(list, info, t, a));
        let i = choose|i: int| 0 <= i < list.len() && info[i] == a && #[trigger] list[i].0 == t;
        lemma_arc_at(rn, t, a);
        assert(rn.to@[a].0 == list[i].1);
    }
    lemma_slackness_from_arcs(rn);
}

impl CycleCanceling {
    /// Runs the solver: while Bellman-Ford finds a cycle of negative cost
    /// in the residual network, sends as much flow around it as it can
    /// carry; then the distances found serve as potentials.
    pub fn run(&mut self) -> (r: Result<i64, MinimumCostFlowError>)
        requires
            old(self).ready(),
        ensures
            final(self).ready(),
            final(self).edges_of() == old(self).edges_of(),
            final(self).edge_count() == old(self).edge_count(),
            final(self).node_count() == old(self).node_count(),
            r matches Ok(v) ==> final(self).solved() && v == final(self).cost_of_flow() && final(self).least_cost()
                && final(self).least_cost_in_graph() && final(self).root_unused()
                && final(self).supplies_met_in_graph(),
            r is Err ==> final(self).solved() == old(self).solved(),
            (r == Err::<i64, MinimumCostFlowError>(MinimumCostFlowError::Unbalanced)) <==> supply_sum(
                old(self).nodes_of(),
                old(self).nodes_of().len() as int,
            ) != 0,
            final(self).nodes_of() == old(self).nodes_of(),
            r == Err::<i64, MinimumCostFlowError>(MinimumCostFlowError::Infeasible) ==> final(self).least_cost()
                && !final(self).root_unused(),
    {
        proof {
            self.lemma_supply_total();
        }
        clear_potentials(&mut self.rn);
        match validate_balance(&self.rn) {
            Err(e) => {
                return Err(e);
            },
            Ok(()) => {},
        }
        match validate_infeasible(&self.rn) {
            Err(e) => {
                proof {
                    lemma_shape(self.rn);
                    let n = self.graph_nodes@.len() as int;
                    let x = choose|x: int| 0 <= x < self.rn.num_nodes && #[trigger] self.rn.b@[x] != 0;
                    lemma_total_zeros(self.rn.b@, n);
                    assert(total(self.rn.b@, n + 1) == total(self.rn.b@, n) + self.rn.b@[n]);
                    assert(x == n);
                }
                return Err(e);
            },
            Ok(()) => {},
        }
        match trivial_solution_if_any(&self.rn) {
            Some(res) => {
                proof {
                    lemma_shape(self.rn);
                    if self.rn.num_nodes == 0 {
                        lemma_no_nodes(self.rn);
                    }
                    assert(slackness(self.rn));
                    self.lemma_least_costs();
                    self.lemma_supplies_in_graph();
                }
                self.status = Status::Optimal;
                return res;
            },
            None => {},
        }
        loop
            invariant_except_break
                forall|x: int| 0 <= x < self.rn.num_nodes ==> #[trigger] self.rn.potentials@[x] == 0,
            invariant
                self.inv(),
                self.status == old(self).status,
                self.graph_edges == old(self).graph_edges,
                self.graph_nodes == old(self).graph_nodes,
                self.rn.num_nodes == old(self).rn.num_nodes,
                self.rn.num_edges_original_graph == old(self).rn.num_edges_original_graph,
                self.rn.num_nodes_original_graph == old(self).rn.num_nodes_original_graph,
                self.rn.b == old(self).rn.b,
                total(self.rn.b@, self.rn.num_nodes as int) == 0,
                supply_sum(old(self).graph_nodes@, old(self).graph_nodes@.len() as int) == 0,
            ensures
                self.inv(),
                slackness(self.rn),
            decreases cost_now(self.rn),
        {
            proof {
                lemma_cost_now_nonneg(self.rn);
            }
            let (list, info) = match residual_arcs(&self.rn) {
                Some(x) => x,
                None => {
                    return Err(MinimumCostFlowError::NotSolved);
                },
            };
            proof {
                assert forall|i: int| 0 <= i < list@.len() implies (#[trigger] list@[i]).2 == self.rn.cost@[
                    info@[i] as int] by {
                    assert(self.rn.potentials@[list@[i].0 as int] == 0);
                    assert(self.rn.potentials@[list@[i].1 as int] == 0);
                }
            }
            match find_negative_cycle(self.rn.num_nodes, &list) {
                CycleSearch::GaveUp => {
                    return Err(MinimumCostFlowError::NotSolved);
                },
                CycleSearch::Settled(dist) => {
                    set_potentials(&mut self.rn, &dist);
                    proof {
                        lemma_settled(self.rn, list@, info@, dist@);
                    }
                    break;
                },
                CycleSearch::Cycle(c) => {
                    cancel(&mut self.rn, &list, &info, &c);
                    proof {
                        lemma_cost_now_nonneg(self.rn);
                    }
                },
            }
        }
        if self.rn.have_flow_in_artificial_arc() {
            proof {
                self.lemma_least_costs();
            }
            return Err(MinimumCostFlowError::Infeasible);
        }
        self.status = Status::Optimal;
        proof {
            self.lemma_least_costs();
            self.lemma_supplies_in_graph();
        }
        Ok(self.rn.calculate_objective_value_original_graph())
    }
}

impl MinimumCostFlowSolver for CycleCanceling {
    closed spec fn ready(&self) -> bool {
        self.inv()
    }

    closed spec fn solved(&self) -> bool {
        self.status == Status::Optimal
    }

    closed spec fn edge_count(&self) -> nat {
        self.rn.num_edges_original_graph as nat
    }

    closed spec fn node_count(&self) -> nat {
        self.rn.num_nodes_original_graph as nat
    }

    closed spec fn flow_of(&self, e: int) -> int {
        self.rn.original_flow(e)
    }

    closed spec fn potential_of(&self, x: int) -> int {
        self.rn.potentials@[x] as int
    }

    closed spec fn cost_of_flow(&self) -> int {
        self.rn.objective(self.rn.num_edges_original_graph as int)
    }

    fn new(graph: &Graph<Directed, MinimumCostFlowNode, MinimumCostFlowEdge>) -> (s: Self) {
        CycleCanceling::new(graph)
    }

    fn solve(&mut self) -> (r: Result<i64, MinimumCostFlowError>)
        ensures
            final(self).edges_of() == old(self).edges_of(),
            (r == Err::<i64, MinimumCostFlowError>(MinimumCostFlowError::Unbalanced)) <==> supply_sum(
                old(self).nodes_of(),
                old(self).nodes_of().len() as int,
            ) != 0,
            r is Ok ==> forall|e: int|
                0 <= e < final(self).edge_count() ==> final(self).edges_of()[e].data.lower
                    <= #[trigger] final(self).flow_of(e) <= final(self).edges_of()[e].data.upper,
            r is Ok ==> final(self).least_cost_in_graph() && final(self).root_unused()
                && final(self).supplies_met_in_graph(),
            r == Err::<i64, MinimumCostFlowError>(MinimumCostFlowError::Infeasible) ==> final(self).least_cost()
                && !final(self).root_unused(),
    {
        let r = self.run();
        proof {
            if r is Ok {
                lemma_shape(self.rn);
                lemma_flow_bounds(self.rn);
                assert forall|e: int| 0 <= e < self.edge_count() implies self.edges_of()[e].data.lower
                    <= #[trigger] self.flow_of(e) <= self.edges_of()[e].data.upper by {
                    let ge = self.graph_edges@[e];
                    assert(self.rn.edges@[e] == normalize(ge));
                    assert(0 <= self.rn.flow(e) <= self.rn.edges@[e].upper);
                    assert(self.rn.edges@[e].upper == ge.data.upper - ge.data.lower);
                    assert(self.rn.edges@[e].lower == ge.data.lower);
                }
            }
        }
        r
    }

    fn flow(&self, edge_id: EdgeId) -> (r: Result<i64, MinimumCostFlowError>) {
        if self.status != Status::Optimal {
            return Err(MinimumCostFlowError::NotSolved);
        }
        Ok(self.rn.flow_original_graph(edge_id))
    }

    fn flows(&self) -> (r: Result<Vec<i64>, MinimumCostFlowError>) {
        if self.status != Status::Optimal {
            return Err(MinimumCostFlowError::NotSolved);
        }
        Ok(self.rn.flows_original_graph())
    }

    fn potential(&self, node_id: NodeId) -> (r: Result<i64, MinimumCostFlowError>) {
        if self.status != Status::Optimal {
            return Err(MinimumCostFlowError::NotSolved);
        }
        proof {
            lemma_shape(self.rn);
        }
        Ok(self.rn.potential_original_graph(node_id))
    }

    fn potentials(&self) -> (r: Result<Vec<i64>, MinimumCostFlowError>) {
        if self.status != Status::Optimal {
            return Err(MinimumCostFlowError::NotSolved);
        }
        proof {
            lemma_shape(self.rn);
        }
        let ps = self.rn.potentials_original_graph();
        proof {
            assert forall|x: int| 0 <= x < ps@.len() implies #[trigger] ps@[x] == self.potential_of(x) by {
                assert(ps@[x] == self.rn.potentials@[x]);
            }
        }
        Ok(ps)
    }
}

} // verus!
