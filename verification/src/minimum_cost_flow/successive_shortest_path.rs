//! The successive shortest path solver: from each node with a supply, find
//! the nearest node with a demand by Dijkstra's algorithm on the reduced
//! costs, move the potentials, and push flow along the path found.
use crate::graph::direction::Directed;
use crate::graph::graph::{Edge, Graph};
use crate::graph::ids::{ArcId, EdgeId, NodeId};
use crate::maximum_flow::bfs::{lemma_closed_walk, tree_ok, BfsTree};
use crate::minimum_cost_flow::infeasibility::{lemma_excess_total, lemma_nonpos_total_zero, lemma_stuck_infeasible, meets_supplies};
use crate::shortest_path::closed_walks::lemma_max_abs_le;
use crate::maximum_flow::flow::{balance, lemma_balance_zero};
use crate::minimum_cost_flow::edge::{MinimumCostFlowEdge, MinimumCostFlowNode};
use crate::minimum_cost_flow::error::MinimumCostFlowError;
use crate::minimum_cost_flow::extend_network::{lemma_capacity_bound, lemma_sums_bound, total};
use crate::minimum_cost_flow::graph::{network_ok, VALUE_LIMIT};
use crate::minimum_cost_flow::normalized_network::{normalize, NormalizedNetwork, SUPPLY_LIMIT};
use crate::minimum_cost_flow::optimality::{
    arc_reduced, flow_cost, flows_of, lemma_arc_nonneg, lemma_arc_reduced, lemma_push_step,
    lemma_slackness_from_arcs, lemma_slackness_optimal, reduced, slack_ok, slackness, with_flows, graph_balance,
    graph_cost, graph_flows, lemma_graph_optimal, normalizes, within_graph_bounds, balance_shift, lemma_shift_supply,
    lemma_graph_balance_of, lemma_shift_sum_zero, lemma_total_split, supply_sum, reduced_costs_fit, reduced_costs_within,
    edgeless_answer, lemma_supply_sum_zero, resting_flow, feasible_flow, lemma_feasible_balanced,
};
use crate::minimum_cost_flow::primal_dual::{bottleneck, on_path, path_arc, push_path, touched};
use crate::maximum_flow::residual::{lemma_up, up};
use crate::minimum_cost_flow::residual_network::{
    all_of, initial_flow, lemma_arc_at, lemma_excess_of, lemma_flow_bounds, lemma_no_nodes, lemma_potentials_frame,
    lemma_shape, start_supply, total_nodes, ResidualNetwork, TOTAL_LIMIT,
};
use crate::minimum_cost_flow::solver::MinimumCostFlowSolver;
use crate::minimum_cost_flow::status::Status;
use crate::minimum_cost_flow::validate::{trivial_solution_if_any, validate_balance, validate_infeasible};
use crate::shortest_path::relax::{count_true, lemma_count_false, lemma_count_true_le, lemma_count_true_set};
use crate::shortest_path::walk::{
    arcs_in, is_shortest, is_walk, lemma_max_abs_weight, lemma_relaxed_is_shortest, lemma_walk_push, max_abs_weight,
    reachable, walk_end, walk_len,
};
use crate::minimum_cost_flow::residual_paths::{
    lemma_reachable_same, lemma_shortest_same, listed_completely, listed_faithfully, residual_reachable, residual_shortest,
};
use vstd::prelude::*;

verus! {

/// The arcs of `list` are arcs of `rn` that can carry flow, each at its
/// position in `info`.
pub open spec fn arcs_listed(rn: ResidualNetwork, list: Seq<(usize, usize, i64)>, info: Seq<usize>) -> bool {
    &&& info.len() == list.len()
    &&& arcs_in(list, rn.num_nodes as int)
    &&& forall|i: int|
        0 <= i < list.len() ==> {
            let tl = (#[trigger] list[i]).0 as int;
            let a = info[i] as int;
            &&& 0 <= tl < rn.num_nodes
            &&& rn.start@[tl] <= a < rn.start@[tl + 1]
            &&& rn.to@[a].0 == list[i].1
            &&& rn.residual_capacity@[a] > 0
        }
}

/// Arc `a` out of `u` is in `list` at a position that `info` maps to it.
pub open spec fn listed_arc(list: Seq<(usize, usize, i64)>, info: Seq<usize>, u: int, a: int) -> bool {
    exists|i: int| 0 <= i < list.len() && info[i] == a && #[trigger] list[i].0 == u
}

/// The arcs that can carry flow, as `(tail, head, reduced cost)`, each
/// with its position; `None` when a reduced cost leaves the range of `i64`.
pub(crate) fn residual_arcs(rn: &ResidualNetwork) -> (r: Option<(Vec<(usize, usize, i64)>, Vec<usize>)>)
    requires
        rn.wf(),
    ensures
        r is Some <==> reduced_costs_fit(*rn),
        r matches Some((list, info)) ==> {
            &&& arcs_listed(*rn, list@, info@)
            &&& forall|i: int|
                0 <= i < list@.len() ==> (#[trigger] list@[i]).2 == rn.cost@[info@[i] as int] - rn.potentials@[list@[i].0 as int]
                    + rn.potentials@[list@[i].1 as int]
            &&& forall|u: int, a: int|
                0 <= u < rn.num_nodes && rn.start@[u] <= a < rn.start@[u + 1] && #[trigger] rn.residual_capacity@[a] > 0
                    && #[trigger] rn.start@[u] <= a ==> listed_arc(list@, info@, u, a)
        },
{
    proof {
        lemma_shape(*rn);
    }
    let n = rn.num_nodes;
    let mut list: Vec<(usize, usize, i64)> = Vec::new();
    let mut info: Vec<usize> = Vec::new();
    let mut u: usize = 0;
    while u < n
        invariant
            rn.wf(),
            n == rn.num_nodes,
            rn.start@.len() == n + 1,
            u <= n,
            info@.len() == list@.len(),
            forall|i: int|
                0 <= i < list@.len() ==> {
                    let t = (#[trigger] list@[i]).0 as int;
                    let a = info@[i] as int;
                    &&& 0 <= t < n
                    &&& list@[i].1 < n
                    &&& rn.start@[t] <= a < rn.start@[t + 1]
                    &&& rn.to@[a].0 == list@[i].1
                    &&& rn.residual_capacity@[a] > 0
                    &&& list@[i].2 == rn.cost@[a] - rn.potentials@[t] + rn.potentials@[list@[i].1 as int]
                },
            forall|w: int, b: int|
                0 <= w < u && rn.start@[w] <= b < rn.start@[w + 1] && #[trigger] rn.residual_capacity@[b] > 0
                    && #[trigger] rn.start@[w] <= b ==> listed_arc(list@, info@, w, b),
        decreases n - u,
    {
        let range = rn.neighbors(NodeId(u));
        let mut a = range.start;
        while a < range.end
            invariant
                rn.wf(),
                n == rn.num_nodes,
                rn.start@.len() == n + 1,
                u < n,
                range.start == rn.start@[u as int],
                range.end == rn.start@[u + 1],
                range.start <= a,
                info@.len() == list@.len(),
                forall|i: int|
                    0 <= i < list@.len() ==> {
                        let t = (#[trigger] list@[i]).0 as int;
                        let b = info@[i] as int;
                        &&& 0 <= t < n
                        &&& list@[i].1 < n
                        &&& rn.start@[t] <= b < rn.start@[t + 1]
                        &&& rn.to@[b].0 == list@[i].1
                        &&& rn.residual_capacity@[b] > 0
                        &&& list@[i].2 == rn.cost@[b] - rn.potentials@[t] + rn.potentials@[list@[i].1 as int]
                    },
                forall|w: int, b: int|
                    0 <= w < u && rn.start@[w] <= b < rn.start@[w + 1] && #[trigger] rn.residual_capacity@[b] > 0
                        && #[trigger] rn.start@[w] <= b ==> listed_arc(list@, info@, w, b),
                forall|b: int|
                    range.start <= b < a && #[trigger] rn.residual_capacity@[b] > 0 ==> listed_arc(
                        list@,
                        info@,
                        u as int,
                        b,
                    ),
            decreases range.end - a,
        {
            let ghost list0 = list@;
            let ghost info0 = info@;
            proof {
                lemma_arc_at(*rn, u as int, a as int);
                lemma_shape(*rn);
            }
            if rn.residual_capacity[a] > 0 {
                let v = rn.to[a].0;
                let rc: i128 = rn.cost[a] as i128 - rn.potentials[u] as i128 + rn.potentials[v] as i128;
                if rc < i64::MIN as i128 || rc > i64::MAX as i128 {
                    proof {
                        assert(!(i64::MIN <= arc_reduced(*rn, u as int, a as int) <= i64::MAX));
                    }
                    return None;
                }
                list.push((u, v, rc as i64));
                info.push(a);
            }
            proof {
                assert forall|w: int, b: int|
                    0 <= w < u && rn.start@[w] <= b < rn.start@[w + 1] && #[trigger] rn.residual_capacity@[b] > 0
                        && #[trigger] rn.start@[w] <= b implies listed_arc(list@, info@, w, b) by {
                    assert(listed_arc(list0, info0, w, b));
                    let i = choose|i: int| 0 <= i < list0.len() && info0[i] == b && #[trigger] list0[i].0 == w;
                    assert(list@[i] == list0[i]);
                }
                assert forall|b: int|
                    range.start <= b < a + 1 && #[trigger] rn.residual_capacity@[b] > 0 implies listed_arc(
                        list@,
                        info@,
                        u as int,
                        b,
                    ) by {
                    if b < a {
                        assert(listed_arc(list0, info0, u as int, b));
                        let i = choose|i: int| 0 <= i < list0.len() && info0[i] == b && #[trigger] list0[i].0 == u;
                        assert(list@[i] == list0[i]);
                    } else {
                        assert(list@[list@.len() - 1].0 == u);
                    }
                }
            }
            a = a + 1;
        }
        proof {
            assert forall|w: int, b: int|
                0 <= w < u + 1 && rn.start@[w] <= b < rn.start@[w + 1] && #[trigger] rn.residual_capacity@[b] > 0
                    && #[trigger] rn.start@[w] <= b implies listed_arc(list@, info@, w, b) by {
                if w == u {
                    assert(b < range.end);
                }
            }
        }
        u = u + 1;
    }
    proof {
        assert forall|w: int, b: int|
            0 <= w < n && rn.start@[w] <= b < rn.start@[w + 1] && rn.residual_capacity@[b] > 0 implies i64::MIN
                <= #[trigger] arc_reduced(*rn, w, b) <= i64::MAX by {
            assert(listed_arc(list@, info@, w, b));
            let i = choose|i: int| 0 <= i < list@.len() && info@[i] == b && #[trigger] list@[i].0 == w;
            assert(list@[i].2 == arc_reduced(*rn, w, b));
        }
    }
    Some((list, info))
}

/// The nodes Dijkstra's algorithm has settled and reached, with their
/// distances: the search tree is sound, the settled nodes are reached,
/// no tree arc leaves an unsettled node, and levels stay below the number
/// of settled nodes (or at it, for nodes reached but not settled).
pub open spec fn search_ok(
    list: Seq<(usize, usize, i64)>,
    n: int,
    s: int,
    tree: BfsTree,
    visited: Seq<bool>,
    nvis: int,
) -> bool {
    &&& tree.reached@.len() == n
    &&& tree.level@.len() == n
    &&& tree.parent@.len() == n
    &&& visited.len() == n
    &&& nvis == count_true(visited, n)
    &&& tree.reached@[s]
    &&& tree.level@[s] == 0
    &&& forall|v: int| 0 <= v < n && #[trigger] visited[v] ==> tree.reached@[v] && tree.level@[v] < nvis
    &&& forall|v: int| 0 <= v < n && #[trigger] tree.reached@[v] ==> tree.level@[v] <= nvis
    &&& forall|v: int|
        0 <= v < n && v != s && #[trigger] tree.reached@[v] ==> {
            let e = tree.parent@[v] as int;
            &&& 0 <= e < list.len()
            &&& list[e].1 == v
            &&& visited[list[e].0 as int]
            &&& tree.level@[list[e].0 as int] + 1 == tree.level@[v]
        }
}

/// A count of `k` among the first `k` means all of them are set.
proof fn lemma_count_all(s: Seq<bool>, k: int)
    requires
        0 <= k <= s.len(),
        count_true(s, k) == k,
    ensures
        forall|i: int| 0 <= i < k ==> s[i],
    decreases k,
{
    if k > 0 {
        lemma_count_true_le(s, k - 1);
        assert(s[k - 1]);
        lemma_count_all(s, k - 1);
    }
}

/// A sound search is a sound tree.
proof fn lemma_search_tree(
    list: Seq<(usize, usize, i64)>,
    n: int,
    s: int,
    tree: BfsTree,
    visited: Seq<bool>,
    nvis: int,
)
    requires
        0 <= s < n,
        arcs_in(list, n),
        search_ok(list, n, s, tree, visited, nvis),
    ensures
        tree_ok(list, n, s, tree),
{
    lemma_count_true_le(visited, n);
    if nvis == n {
        lemma_count_all(visited, n);
    }
    assert forall|v: int| 0 <= v < n && #[trigger] tree.reached@[v] implies tree.level@[v] < n by {
        if nvis == n {
            assert(visited[v]);
        }
    }
}

/// The distances of a run of Dijkstra's algorithm: no settled node is
/// farther than `last`, no reached unsettled node nearer; every arc out of
/// a settled node other than `u`, and the arcs out of `u` before position
/// `i`, lead to a reached node no farther than through the arc; and every
/// reached node but `s` is exactly as far as through its tree arc.
pub open spec fn distances_ok(
    list: Seq<(usize, usize, i64)>,
    n: int,
    s: int,
    tree: BfsTree,
    visited: Seq<bool>,
    dist: Seq<i64>,
    last: int,
    u: int,
    i: int,
) -> bool {
    &&& forall|x: int| 0 <= x < n && #[trigger] visited[x] ==> dist[x] <= last
    &&& forall|x: int| 0 <= x < n && #[trigger] tree.reached@[x] && !visited[x] ==> dist[x] >= last
    &&& forall|j: int|
        0 <= j < list.len() && visited[(#[trigger] list[j]).0 as int] && (list[j].0 != u || j < i) ==> tree.reached@[
            list[j].1 as int] && dist[list[j].1 as int] <= dist[list[j].0 as int] + list[j].2
    &&& forall|v: int|
        0 <= v < n && v != s && #[trigger] tree.reached@[v] ==> dist[v] == dist[list[tree.parent@[v] as int].0 as int]
            + list[tree.parent@[v] as int].2
}

/// Dijkstra's algorithm from `s` over the arcs of `list` weighted by their
/// reduced costs. With `stop`, it ends at the first settled node whose
/// excess is negative and returns it; otherwise, or when no such node can
/// be reached, it settles every node it reaches. Returns the search tree,
/// the settled nodes and the distances too; `NotSolved` when a distance
/// leaves the range of `i64`.
#[verifier::rlimit(50)]
#[verifier::spinoff_prover]
fn dijkstra(rn: &ResidualNetwork, list: &Vec<(usize, usize, i64)>, s: usize, stop: bool) -> (r: Result<
    (Option<usize>, BfsTree, Vec<bool>, Vec<i64>),
    MinimumCostFlowError,
>)
    requires
        rn.wf(),
        arcs_in(list@, rn.num_nodes as int),
        s < rn.num_nodes,
        forall|i: int| 0 <= i < list@.len() ==> (#[trigger] list@[i]).2 >= 0,
    ensures
        r is Err ==> r == Err::<(Option<usize>, BfsTree, Vec<bool>, Vec<i64>), MinimumCostFlowError>(
            MinimumCostFlowError::NotSolved,
        ),
        rn.num_nodes * max_abs_weight(list@, list@.len() as int) < i64::MAX ==> r is Ok,
        r matches Ok((found, tree, visited, dist)) ==> {
            &&& tree_ok(list@, rn.num_nodes as int, s as int, tree)
            &&& visited@.len() == rn.num_nodes
            &&& dist@.len() == rn.num_nodes
            &&& dist@[s as int] == 0
            &&& search_ok(list@, rn.num_nodes as int, s as int, tree, visited@, count_true(visited@, rn.num_nodes as int) as int)
            &&& match found {
                Some(t) => {
                    &&& stop
                    &&& t < rn.num_nodes
                    &&& tree.reached@[t as int]
                    &&& rn.excesses@[t as int] < 0
                    &&& visited@[t as int]
                    &&& distances_ok(list@, rn.num_nodes as int, s as int, tree, visited@, dist@, dist@[t as int] as int, t as int, 0)
                },
                None => {
                    &&& forall|v: int| 0 <= v < rn.num_nodes && #[trigger] tree.reached@[v] ==> visited@[v]
                    &&& exists|last: int| #[trigger] distances_ok(list@, rn.num_nodes as int, s as int, tree, visited@, dist@, last, -1, 0)
                    &&& stop ==> forall|v: int| 0 <= v < rn.num_nodes && #[trigger] visited@[v] ==> rn.excesses@[v] >= 0
                },
            }
        },
{
    proof {
        lemma_shape(*rn);
    }
    let n = rn.num_nodes;
    let mut tree = BfsTree { reached: vec![false; n], level: vec![0usize; n], parent: vec![0usize; n] };
    let mut visited: Vec<bool> = vec![false; n];
    let mut dist: Vec<i64> = vec![0i64; n];
    tree.reached.set(s, true);
    let mut nvis: usize = 0;
    let ghost mut last: int = 0;
    let ghost wmax = max_abs_weight(list@, list@.len() as int);
    proof {
        lemma_count_false(visited@, n as int);
        if list@.len() > 0 {
            lemma_max_abs_weight(list@, list@.len() as int, 0);
        }
    }
    loop
        invariant
            rn.wf(),
            n == rn.num_nodes,
            rn.excesses@.len() == n,
            arcs_in(list@, n as int),
            forall|i: int| 0 <= i < list@.len() ==> (#[trigger] list@[i]).2 >= 0,
            s < n,
            search_ok(list@, n as int, s as int, tree, visited@, nvis as int),
            nvis == 0 ==> forall|v: int| 0 <= v < n && #[trigger] tree.reached@[v] ==> v == s,
            nvis == 0 ==> dist@[s as int] == 0 && last == 0,
            nvis > 0 ==> visited@[s as int],
            dist@.len() == n,
            dist@[s as int] == 0,
            distances_ok(list@, n as int, s as int, tree, visited@, dist@, last, -1, 0),
            stop ==> forall|v: int| 0 <= v < n && #[trigger] visited@[v] ==> rn.excesses@[v] >= 0,
            wmax == max_abs_weight(list@, list@.len() as int),
            wmax >= 0,
            forall|v: int| 0 <= v < n && #[trigger] tree.reached@[v] ==> 0 <= dist@[v] <= tree.level@[v] * wmax,
        decreases n - nvis,
    {
        let mut best: usize = n;
        let mut v: usize = 0;
        while v < n
            invariant
                n == tree.reached@.len(),
                n == visited@.len(),
                n == dist@.len(),
                v <= n,
                best == n || (best < n && tree.reached@[best as int] && !visited@[best as int]),
                best == n ==> forall|w: int| 0 <= w < v ==> !(#[trigger] tree.reached@[w] && !visited@[w]),
                best < n ==> forall|w: int|
                    0 <= w < v && #[trigger] tree.reached@[w] && !visited@[w] ==> dist@[best as int] <= dist@[w],
            decreases n - v,
        {
            if tree.reached[v] && !visited[v] && (best == n || dist[v] < dist[best]) {
                best = v;
            }
            v = v + 1;
        }
        if best == n {
            proof {
                lemma_search_tree(list@, n as int, s as int, tree, visited@, nvis as int);
                assert forall|v: int| 0 <= v < n && #[trigger] tree.reached@[v] implies visited@[v] by {
                }
            }
            return Ok((None, tree, visited, dist));
        }
        let u = best;
        proof {
            lemma_count_true_set(visited@, n as int, u as int);
            lemma_count_true_le(visited@.update(u as int, true), n as int);
            if nvis == 0 {
                assert(u == s);
            }
        }
        let ghost vis0 = visited@;
        visited.set(u, true);
        nvis = nvis + 1;
        proof {
            last = dist@[u as int] as int;
            assert forall|j: int|
                0 <= j < list@.len() && visited@[(#[trigger] list@[j]).0 as int] && (list@[j].0 != u || j < 0) implies tree.reached@[
                    list@[j].1 as int] && dist@[list@[j].1 as int] <= dist@[list@[j].0 as int] + list@[j].2 by {
                assert(vis0[list@[j].0 as int]);
            }
            assert(distances_ok(list@, n as int, s as int, tree, visited@, dist@, last, u as int, 0));
        }
        if stop && rn.excesses[u] < 0 {
            proof {
                lemma_search_tree(list@, n as int, s as int, tree, visited@, nvis as int);
            }
            return Ok((Some(u), tree, visited, dist));
        }
        let mut i: usize = 0;
        while i < list.len()
            invariant
                rn.wf(),
                n == rn.num_nodes,
                arcs_in(list@, n as int),
                forall|i: int| 0 <= i < list@.len() ==> (#[trigger] list@[i]).2 >= 0,
                s < n,
                u < n,
                visited@[u as int],
                visited@[s as int],
                search_ok(list@, n as int, s as int, tree, visited@, nvis as int),
                dist@.len() == n,
                i <= list@.len(),
                last == dist@[u as int],
                dist@[s as int] == 0,
                distances_ok(list@, n as int, s as int, tree, visited@, dist@, last, u as int, i as int),
                rn.excesses@.len() == n,
                stop ==> forall|v: int| 0 <= v < n && #[trigger] visited@[v] ==> rn.excesses@[v] >= 0,
                wmax == max_abs_weight(list@, list@.len() as int),
                wmax >= 0,
                forall|v: int| 0 <= v < n && #[trigger] tree.reached@[v] ==> 0 <= dist@[v] <= tree.level@[v] * wmax,
                nvis <= n,
            decreases list@.len() - i,
        {
            let (a, b, w) = list[i];
            if a == u && !visited[b] {
                let nd: i128 = dist[u] as i128 + w as i128;
                proof {
                    assert(list@[i as int] == (a, b, w));
                    lemma_max_abs_weight(list@, list@.len() as int, i as int);
                    let lv = tree.level@[u as int] as int;
                    assert(lv < nvis);
                    assert(lv * wmax + wmax == (lv + 1) * wmax) by (nonlinear_arith);
                    assert((lv + 1) * wmax <= n * wmax) by (nonlinear_arith)
                        requires
                            lv + 1 <= n,
                            wmax >= 0,
                    ;
                }
                if nd < i64::MIN as i128 || nd > i64::MAX as i128 {
                    return Err(MinimumCostFlowError::NotSolved);
                }
                if !tree.reached[b] || (nd as i64) < dist[b] {
                    let lu = tree.level[u];
                    tree.reached.set(b, true);
                    tree.level.set(b, lu + 1);
                    tree.parent.set(b, i);
                    dist.set(b, nd as i64);
                }
            }
            proof {
                assert(list@[i as int] == (a, b, w));
            }
            i = i + 1;
        }
        proof {
            assert(distances_ok(list@, n as int, s as int, tree, visited@, dist@, last, -1, 0));
        }
    }
}

/// Dijkstra's algorithm from `s` over the arcs of `list` weighted by their
/// reduced costs, stopping at the first settled node whose excess is
/// negative: returns it with the search tree, the settled nodes and the
/// distances; `None` when no such node can be reached; `NotSolved` when a
/// distance leaves the range of `i64`.
fn calculate_distance(rn: &ResidualNetwork, list: &Vec<(usize, usize, i64)>, s: usize) -> (r: Result<
    Option<(usize, BfsTree, Vec<bool>, Vec<i64>)>,
    MinimumCostFlowError,
>)
    requires
        rn.wf(),
        arcs_in(list@, rn.num_nodes as int),
        s < rn.num_nodes,
        forall|i: int| 0 <= i < list@.len() ==> (#[trigger] list@[i]).2 >= 0,
    ensures
        r is Err ==> r == Err::<Option<(usize, BfsTree, Vec<bool>, Vec<i64>)>, MinimumCostFlowError>(
            MinimumCostFlowError::NotSolved,
        ),
        r matches Ok(None) ==> forall|v: int|
            0 <= v < rn.num_nodes && #[trigger] reachable(list@, s as int, v) ==> rn.excesses@[v] >= 0,
        r matches Ok(Some((t, tree, visited, dist))) ==> {
            &&& t < rn.num_nodes
            &&& tree_ok(list@, rn.num_nodes as int, s as int, tree)
            &&& tree.reached@[t as int]
            &&& rn.excesses@[t as int] < 0
            &&& visited@.len() == rn.num_nodes
            &&& dist@.len() == rn.num_nodes
            &&& visited@[t as int]
            &&& search_ok(list@, rn.num_nodes as int, s as int, tree, visited@, count_true(visited@, rn.num_nodes as int) as int)
            &&& distances_ok(list@, rn.num_nodes as int, s as int, tree, visited@, dist@, dist@[t as int] as int, t as int, 0)
        },
{
    match dijkstra(rn, list, s, true) {
        Err(e) => Err(e),
        Ok((Some(t), tree, visited, dist)) => Ok(Some((t, tree, visited, dist))),
        Ok((None, tree, visited, dist)) => {
            proof {
                lemma_shape(*rn);
                let n = rn.num_nodes as int;
                let last = choose|last: int| #[trigger] distances_ok(list@, n, s as int, tree, visited@, dist@, last, -1, 0);
                assert forall|e: int| 0 <= e < list@.len() && #[trigger] visited@[list@[e].0 as int] implies visited@[
                    list@[e].1 as int] by {
                    assert(tree.reached@[list@[e].1 as int]);
                }
                assert(visited@[s as int]);
                assert forall|v: int| 0 <= v < n && #[trigger] reachable(list@, s as int, v) implies rn.excesses@[v] >= 0 by {
                    let p = choose|p: Seq<int>| is_walk(list@, s as int, p) && walk_end(list@, s as int, p) == v;
                    lemma_closed_walk(list@, s as int, visited@, p);
                }
            }
            Ok(None)
        },
    }
}

/// Arc `a` leaves a node `u` that `dist` reaches, has room, enters `v`,
/// and `v` is exactly as far as through it.
pub open spec fn tight_arc(rn: ResidualNetwork, dist: Seq<Option<i64>>, v: int, a: int) -> bool {
    exists|u: int|
        0 <= u < rn.num_nodes && rn.start@[u] <= a < rn.start@[u + 1] && rn.to@[a].0 == v && rn.residual_capacity@[a]
            > 0 && #[trigger] dist[u] is Some && dist[v] is Some && dist[v]->0 == dist[u]->0 + arc_reduced(rn, u, a)
}

impl ResidualNetwork {
    /// Dijkstra's algorithm from `source` over the arcs with room, weighted
    /// by their reduced costs: the distance of every node it reaches and the
    /// arc it reached it by (`None` for the source and for the nodes not
    /// reached). `NotSolved` when an arc with room has a negative reduced
    /// cost, for which the distances would not be shortest, or when a
    /// distance leaves the range of `i64`.
    pub fn calculate_distance_from_source(&self, source: NodeId) -> (r: Result<
        (Vec<Option<i64>>, Vec<Option<ArcId>>),
        MinimumCostFlowError,
    >)
        requires
            self.wf(),
            source.0 < self.num_nodes,
        ensures
            r is Err ==> r == Err::<(Vec<Option<i64>>, Vec<Option<ArcId>>), MinimumCostFlowError>(
                MinimumCostFlowError::NotSolved,
            ),
            r matches Ok((dist, prev)) ==> {
                &&& dist@.len() == self.num_nodes
                &&& prev@.len() == self.num_nodes
                &&& dist@[source.0 as int] == Some(0i64)
                &&& prev@[source.0 as int] is None
                &&& forall|u: int, a: int|
                    0 <= u < self.num_nodes && self.start@[u] <= a < self.start@[u + 1] && #[trigger] self.residual_capacity@[a]
                        > 0 && #[trigger] self.start@[u] <= a ==> arc_reduced(*self, u, a) >= 0
                &&& forall|v: int|
                    0 <= v < self.num_nodes && v != source.0 && (#[trigger] dist@[v]) is Some ==> (prev@[v] matches Some(
                        a,
                    ) && tight_arc(*self, dist@, v, a.0 as int))
                &&& forall|v: int| 0 <= v < self.num_nodes && (#[trigger] dist@[v]) is None ==> prev@[v] is None
                &&& forall|u: int, a: int|
                    0 <= u < self.num_nodes && self.start@[u] <= a < self.start@[u + 1] && #[trigger] self.residual_capacity@[a]
                        > 0 && (#[trigger] dist@[u]) is Some ==> dist@[self.to@[a].0 as int] is Some && dist@[self.to@[
                        a].0 as int]->0 <= dist@[u]->0 + arc_reduced(*self, u, a)
            },
        forall|w: int| #[trigger] reduced_costs_within(*self, w) && self.num_nodes * w < i64::MAX ==> r is Ok,
        r matches Ok((dist, prev)) ==> forall|v: int|
            0 <= v < self.num_nodes ==> {
                &&& (#[trigger] dist@[v] is Some) == residual_reachable(*self, source.0 as int, v, false)
                &&& dist@[v] matches Some(x) ==> residual_shortest(*self, source.0 as int, v, x as int)
            },
    {
        proof {
            lemma_shape(*self);
        }
        let n = self.num_nodes;
        let (list, info) = match residual_arcs(self) {
            Some(x) => x,
            None => {
                proof {
                    assert forall|w: int| #[trigger] reduced_costs_within(*self, w) && n * w < i64::MAX implies false by {
                        let (u, a) = choose|u: int, a: int|
                            0 <= u < n && self.start@[u] <= a < self.start@[u + 1] && self.residual_capacity@[a] > 0
                                && !(i64::MIN <= #[trigger] arc_reduced(*self, u, a) <= i64::MAX);
                        assert(0 <= arc_reduced(*self, u, a) <= w);
                        assert(w <= n * w) by (nonlinear_arith)
                            requires
                                n >= 1,
                                w >= 0,
                        ;
                    }
                }
                return Err(MinimumCostFlowError::NotSolved);
            },
        };
        let mut i: usize = 0;
        while i < list.len()
            invariant
                i <= list@.len(),
                forall|j: int| 0 <= j < i ==> (#[trigger] list@[j]).2 >= 0,
                n == self.num_nodes,
                arcs_listed(*self, list@, info@),
                forall|j: int|
                    0 <= j < list@.len() ==> (#[trigger] list@[j]).2 == self.cost@[info@[j] as int]
                        - self.potentials@[list@[j].0 as int] + self.potentials@[list@[j].1 as int],
            decreases list@.len() - i,
        {
            if list[i].2 < 0 {
                proof {
                    assert forall|w: int| #[trigger] reduced_costs_within(*self, w) && n * w < i64::MAX implies false by {
                        let t = list@[i as int].0 as int;
                        assert(arc_reduced(*self, t, info@[i as int] as int) == list@[i as int].2);
                    }
                }
                return Err(MinimumCostFlowError::NotSolved);
            }
            i = i + 1;
        }
        let (_, tree, visited, dist) = match dijkstra(self, &list, source.0, false) {
            Err(e) => {
                proof {
                    assert forall|w: int| #[trigger] reduced_costs_within(*self, w) && n * w < i64::MAX implies false by {
                        assert forall|j: int| 0 <= j < list@.len() implies -w <= (#[trigger] list@[j]).2 <= w by {
                            let t = list@[j].0 as int;
                            assert(arc_reduced(*self, t, info@[j] as int) == list@[j].2);
                        }
                        lemma_max_abs_le(list@, list@.len() as int, w);
                        let mw = max_abs_weight(list@, list@.len() as int);
                        assert(n * mw <= n * w) by (nonlinear_arith)
                            requires
                                mw <= w,
                                n >= 0,
                        ;
                    }
                }
                return Err(e);
            },
            Ok(x) => x,
        };
        let ghost last = choose|last: int|
            #[trigger] distances_ok(list@, n as int, source.0 as int, tree, visited@, dist@, last, -1, 0);
        let mut d: Vec<Option<i64>> = Vec::new();
        let mut p: Vec<Option<ArcId>> = Vec::new();
        let mut v: usize = 0;
        while v < n
            invariant
                v <= n,
                n == self.num_nodes,
                tree_ok(list@, n as int, source.0 as int, tree),
                dist@.len() == n,
                info@.len() == list@.len(),
                d@.len() == v,
                p@.len() == v,
                forall|x: int|
                    0 <= x < v ==> #[trigger] d@[x] == if tree.reached@[x] {
                        Some(dist@[x])
                    } else {
                        None
                    },
                forall|x: int|
                    0 <= x < v ==> #[trigger] p@[x] == if tree.reached@[x] && x != source.0 {
                        Some(ArcId(info@[tree.parent@[x] as int]))
                    } else {
                        None
                    },
            decreases n - v,
        {
            if tree.reached[v] {
                d.push(Some(dist[v]));
                if v == source.0 {
                    p.push(None);
                } else {
                    p.push(Some(ArcId(info[tree.parent[v]])));
                }
            } else {
                d.push(None);
                p.push(None);
            }
            v = v + 1;
        }
        proof {
            lemma_from_source(*self, list@, info@, source.0 as int, tree, visited@, dist@, last, d@, p@);
            lemma_from_source_shortest(*self, list@, info@, source.0 as int, tree, visited@, dist@, last, d@);
        }
        Ok((d, p))
    }
}

/// The list of arcs with room names each of them once, with its reduced cost.
proof fn lemma_list_faithful(rn: ResidualNetwork, list: Seq<(usize, usize, i64)>, info: Seq<usize>)
    requires
        rn.wf(),
        arcs_listed(rn, list, info),
        forall|i: int|
            0 <= i < list.len() ==> (#[trigger] list[i]).2 == rn.cost@[info[i] as int] - rn.potentials@[list[i].0 as int]
                + rn.potentials@[list[i].1 as int],
        forall|u: int, a: int|
            0 <= u < rn.num_nodes && rn.start@[u] <= a < rn.start@[u + 1] && #[trigger] rn.residual_capacity@[a] > 0
                && #[trigger] rn.start@[u] <= a ==> listed_arc(list, info, u, a),
    ensures
        listed_faithfully(rn, list, info, false),
        listed_completely(rn, list, info, false),
{
    assert forall|i: int| 0 <= i < list.len() implies {
        let t = (#[trigger] list[i]).0 as int;
        let a = info[i] as int;
        &&& 0 <= t < rn.num_nodes
        &&& rn.start@[t] <= a < rn.start@[t + 1]
        &&& rn.to@[a].0 == list[i].1
        &&& rn.residual_capacity@[a] > 0
        &&& list[i].2 == arc_reduced(rn, t, a)
        &&& false ==> list[i].2 == 0
    } by {}
    assert forall|u: int, a: int|
        0 <= u < rn.num_nodes && rn.start@[u] <= a < rn.start@[u + 1] && #[trigger] rn.residual_capacity@[a] > 0
            && #[trigger] rn.start@[u] <= a && (false ==> arc_reduced(rn, u, a) == 0) implies exists|i: int|
            0 <= i < list.len() && info[i] == a && #[trigger] list[i].0 == u by {
        assert(listed_arc(list, info, u, a));
    }
}

/// A node with supply left from which the arcs with room reach no node
/// with a demand leaves no flow of the graph that meets the supplies.
proof fn lemma_no_feasible_flow(
    rn: ResidualNetwork,
    es: Seq<Edge<MinimumCostFlowEdge>>,
    nodes: Seq<MinimumCostFlowNode>,
    s: int,
    list: Seq<(usize, usize, i64)>,
    info: Seq<usize>,
)
    requires
        rn.wf(),
        normalizes(rn, es),
        rn.num_edges == es.len(),
        forall|x: int| 0 <= x < rn.num_nodes ==> #[trigger] rn.base_balance@[x] == 0,
        nodes.len() == rn.num_nodes,
        forall|x: int|
            0 <= x < rn.num_nodes ==> #[trigger] rn.b@[x] == nodes[x].b + balance_shift(rn.edges@, es.len() as int, x),
        0 <= s < rn.num_nodes,
        rn.excesses@[s] > 0,
        arcs_listed(rn, list, info),
        forall|i: int|
            0 <= i < list.len() ==> (#[trigger] list[i]).2 == rn.cost@[info[i] as int] - rn.potentials@[list[i].0 as int]
                + rn.potentials@[list[i].1 as int],
        forall|u: int, a: int|
            0 <= u < rn.num_nodes && rn.start@[u] <= a < rn.start@[u + 1] && #[trigger] rn.residual_capacity@[a] > 0
                && #[trigger] rn.start@[u] <= a ==> listed_arc(list, info, u, a),
        forall|v: int| 0 <= v < rn.num_nodes && #[trigger] reachable(list, s, v) ==> rn.excesses@[v] >= 0,
    ensures
        forall|h: Seq<i64>| !#[trigger] feasible_flow(es, nodes, h),
{
    lemma_list_faithful(rn, list, info);
    assert forall|v: int| 0 <= v < rn.num_nodes && #[trigger] residual_reachable(rn, s, v, false) implies rn.excesses@[v]
        >= 0 by {
        lemma_reachable_same(rn, list, info, false, s, v);
    }
    assert forall|h: Seq<i64>| !#[trigger] feasible_flow(es, nodes, h) by {
        lemma_stuck_infeasible(rn, es, s, h);
        if feasible_flow(es, nodes, h) {
            assert forall|x: int| 0 <= x < rn.num_nodes implies #[trigger] graph_balance(es, h, es.len() as int, x)
                == balance_shift(rn.edges@, es.len() as int, x) - rn.b@[x] by {
                assert(graph_balance(es, h, es.len() as int, x) == -nodes[x].b);
            }
            assert(meets_supplies(rn, es, h));
        }
    }
}

/// A node the search tree reaches is the end of a walk from `s` along tree
/// arcs whose length is its distance.
proof fn lemma_tree_walk(
    list: Seq<(usize, usize, i64)>,
    n: int,
    s: int,
    tree: BfsTree,
    dist: Seq<i64>,
    v: int,
) -> (p: Seq<int>)
    requires
        tree_ok(list, n, s, tree),
        arcs_in(list, n),
        dist.len() == n,
        dist[s] == 0,
        forall|x: int|
            0 <= x < n && x != s && #[trigger] tree.reached@[x] ==> dist[x] == dist[list[tree.parent@[x] as int].0 as int]
                + list[tree.parent@[x] as int].2,
        0 <= v < n,
        tree.reached@[v],
    ensures
        is_walk(list, s, p),
        walk_end(list, s, p) == v,
        walk_len(list, p) == dist[v],
    decreases tree.level@[v],
{
    if v == s {
        Seq::empty()
    } else {
        let e = tree.parent@[v] as int;
        let t = list[e].0 as int;
        assert(0 <= e < list.len() && list[e].1 == v && tree.reached@[t]);
        assert(tree.level@[t] + 1 == tree.level@[v]);
        let q = lemma_tree_walk(list, n, s, tree, dist, t);
        lemma_walk_push(list, s, q, e);
        q.push(e)
    }
}

/// The distances of a full run of Dijkstra's algorithm are the least
/// reduced costs of walks in the network over arcs with room, and are
/// known exactly for the nodes such walks reach.
#[verifier::rlimit(60)]
#[verifier::spinoff_prover]
proof fn lemma_from_source_shortest(
    rn: ResidualNetwork,
    list: Seq<(usize, usize, i64)>,
    info: Seq<usize>,
    source: int,
    tree: BfsTree,
    visited: Seq<bool>,
    dist: Seq<i64>,
    last: int,
    d: Seq<Option<i64>>,
)
    requires
        rn.wf(),
        arcs_listed(rn, list, info),
        forall|i: int|
            0 <= i < list.len() ==> (#[trigger] list[i]).2 == rn.cost@[info[i] as int] - rn.potentials@[list[i].0 as int]
                + rn.potentials@[list[i].1 as int],
        forall|u: int, a: int|
            0 <= u < rn.num_nodes && rn.start@[u] <= a < rn.start@[u + 1] && #[trigger] rn.residual_capacity@[a] > 0
                && #[trigger] rn.start@[u] <= a ==> listed_arc(list, info, u, a),
        forall|j: int| 0 <= j < list.len() ==> (#[trigger] list[j]).2 >= 0,
        0 <= source < rn.num_nodes,
        tree_ok(list, rn.num_nodes as int, source, tree),
        visited.len() == rn.num_nodes,
        dist.len() == rn.num_nodes,
        dist[source] == 0,
        forall|v: int| 0 <= v < rn.num_nodes && #[trigger] tree.reached@[v] ==> visited[v],
        distances_ok(list, rn.num_nodes as int, source, tree, visited, dist, last, -1, 0),
        d.len() == rn.num_nodes,
        forall|x: int|
            0 <= x < rn.num_nodes ==> #[trigger] d[x] == if tree.reached@[x] {
                Some(dist[x])
            } else {
                None
            },
    ensures
        forall|v: int|
            0 <= v < rn.num_nodes ==> {
                &&& (#[trigger] d[v] is Some) == residual_reachable(rn, source, v, false)
                &&& d[v] matches Some(x) ==> residual_shortest(rn, source, v, x as int)
            },
{
    let n = rn.num_nodes as int;
    lemma_shape(rn);
    assert forall|e: int| 0 <= e < list.len() && (#[trigger] d[list[e].0 as int]) is Some implies {
        &&& d[list[e].1 as int] is Some
        &&& d[list[e].1 as int]->0 <= d[list[e].0 as int]->0 + list[e].2
    } by {
        let t = list[e].0 as int;
        assert(tree.reached@[t]);
        assert(visited[t]);
    }
    assert forall|v: int| 0 <= v < d.len() && (#[trigger] d[v]) is Some implies exists|p: Seq<int>|
        #[trigger] is_walk(list, source, p) && walk_end(list, source, p) == v && walk_len(list, p) == d[v]->0 by {
        let p = lemma_tree_walk(list, n, source, tree, dist, v);
    }
    assert(d[source] == Some(0i64));
    lemma_relaxed_is_shortest(list, source, d);
    assert forall|i: int| 0 <= i < list.len() implies {
        let t = (#[trigger] list[i]).0 as int;
        let a = info[i] as int;
        &&& 0 <= t < rn.num_nodes
        &&& rn.start@[t] <= a < rn.start@[t + 1]
        &&& rn.to@[a].0 == list[i].1
        &&& rn.residual_capacity@[a] > 0
        &&& list[i].2 == arc_reduced(rn, t, a)
        &&& false ==> list[i].2 == 0
    } by {}
    assert(listed_faithfully(rn, list, info, false));
    assert forall|u: int, a: int|
        0 <= u < rn.num_nodes && rn.start@[u] <= a < rn.start@[u + 1] && #[trigger] rn.residual_capacity@[a] > 0
            && #[trigger] rn.start@[u] <= a && (false ==> arc_reduced(rn, u, a) == 0) implies exists|i: int|
            0 <= i < list.len() && info[i] == a && #[trigger] list[i].0 == u by {
        assert(listed_arc(list, info, u, a));
    }
    assert(listed_completely(rn, list, info, false));
    assert forall|v: int| 0 <= v < n implies {
        &&& (#[trigger] d[v] is Some) == residual_reachable(rn, source, v, false)
        &&& d[v] matches Some(x) ==> residual_shortest(rn, source, v, x as int)
    } by {
        lemma_reachable_same(rn, list, info, false, source, v);
        match d[v] {
            Some(x) => {
                assert(is_shortest(list, source, v, x as int));
                lemma_shortest_same(rn, list, info, source, v, x as int);
            },
            None => {},
        }
    }
}

/// What the distances and tree arcs of a full run of Dijkstra's algorithm
/// say of the arcs of the network.
#[verifier::rlimit(60)]
#[verifier::spinoff_prover]
proof fn lemma_from_source(
    rn: ResidualNetwork,
    list: Seq<(usize, usize, i64)>,
    info: Seq<usize>,
    source: int,
    tree: BfsTree,
    visited: Seq<bool>,
    dist: Seq<i64>,
    last: int,
    d: Seq<Option<i64>>,
    p: Seq<Option<ArcId>>,
)
    requires
        rn.wf(),
        arcs_listed(rn, list, info),
        forall|i: int|
            0 <= i < list.len() ==> (#[trigger] list[i]).2 == rn.cost@[info[i] as int] - rn.potentials@[list[i].0 as int]
                + rn.potentials@[list[i].1 as int],
        forall|u: int, a: int|
            0 <= u < rn.num_nodes && rn.start@[u] <= a < rn.start@[u + 1] && #[trigger] rn.residual_capacity@[a] > 0
                && #[trigger] rn.start@[u] <= a ==> listed_arc(list, info, u, a),
        forall|j: int| 0 <= j < list.len() ==> (#[trigger] list[j]).2 >= 0,
        0 <= source < rn.num_nodes,
        tree_ok(list, rn.num_nodes as int, source, tree),
        visited.len() == rn.num_nodes,
        dist.len() == rn.num_nodes,
        forall|v: int| 0 <= v < rn.num_nodes && #[trigger] tree.reached@[v] ==> visited[v],
        distances_ok(list, rn.num_nodes as int, source, tree, visited, dist, last, -1, 0),
        d.len() == rn.num_nodes,
        p.len() == rn.num_nodes,
        forall|x: int|
            0 <= x < rn.num_nodes ==> #[trigger] d[x] == if tree.reached@[x] {
                Some(dist[x])
            } else {
                None
            },
        forall|x: int|
            0 <= x < rn.num_nodes ==> #[trigger] p[x] == if tree.reached@[x] && x != source {
                Some(ArcId(info[tree.parent@[x] as int]))
            } else {
                None
            },
    ensures
        forall|u: int, a: int|
            0 <= u < rn.num_nodes && rn.start@[u] <= a < rn.start@[u + 1] && #[trigger] rn.residual_capacity@[a] > 0
                && #[trigger] rn.start@[u] <= a ==> arc_reduced(rn, u, a) >= 0,
        forall|v: int|
            0 <= v < rn.num_nodes && v != source && (#[trigger] d[v]) is Some ==> (p[v] matches Some(a) && tight_arc(
                rn,
                d,
                v,
                a.0 as int,
            )),
        forall|u: int, a: int|
            0 <= u < rn.num_nodes && rn.start@[u] <= a < rn.start@[u + 1] && #[trigger] rn.residual_capacity@[a] > 0
                && (#[trigger] d[u]) is Some ==> d[rn.to@[a].0 as int] is Some && d[rn.to@[a].0 as int]->0 <= d[u]->0
                + arc_reduced(rn, u, a),
{
    let n = rn.num_nodes as int;
    assert forall|u: int, a: int|
        0 <= u < n && rn.start@[u] <= a < rn.start@[u + 1] && #[trigger] rn.residual_capacity@[a] > 0
            && #[trigger] rn.start@[u] <= a implies arc_reduced(rn, u, a) >= 0 by {
        assert(listed_arc(list, info, u, a));
        let k = choose|k: int| 0 <= k < list.len() && info[k] == a && #[trigger] list[k].0 == u;
        assert(list[k].2 >= 0);
    }
    assert forall|x: int|
        0 <= x < n && x != source && (#[trigger] d[x]) is Some implies (p[x] matches Some(a) && tight_arc(
            rn,
            d,
            x,
            a.0 as int,
        )) by {
        let e = tree.parent@[x] as int;
        let u = list[e].0 as int;
        let a = info[e] as int;
        assert(tree.reached@[x]);
        assert(tree.reached@[u]);
        assert(d[u] == Some(dist[u]));
        assert(dist[x] == dist[u] + list[e].2);
    }
    assert forall|u: int, a: int|
        0 <= u < n && rn.start@[u] <= a < rn.start@[u + 1] && #[trigger] rn.residual_capacity@[a] > 0
            && (#[trigger] d[u]) is Some implies d[rn.to@[a].0 as int] is Some && d[rn.to@[a].0 as int]->0
            <= d[u]->0 + arc_reduced(rn, u, a) by {
        assert(rn.start@[u] <= a);
        assert(listed_arc(list, info, u, a));
        let k = choose|k: int| 0 <= k < list.len() && info[k] == a && #[trigger] list[k].0 == u;
        assert(tree.reached@[u]);
        assert(visited[u]);
        assert(tree.reached@[list[k].1 as int] && dist[list[k].1 as int] <= dist[u] + list[k].2);
    }
}

/// Every node on the tree path from a settled `t` back to the root is
/// settled.
proof fn lemma_up_visited(
    list: Seq<(usize, usize, i64)>,
    n: int,
    s: int,
    tree: BfsTree,
    visited: Seq<bool>,
    nvis: int,
    t: int,
    j: nat,
)
    requires
        tree_ok(list, n, s, tree),
        search_ok(list, n, s, tree, visited, nvis),
        arcs_in(list, n),
        0 <= t < n,
        visited[t],
        j <= tree.level@[t],
    ensures
        visited[up(list, tree.parent@, t, j)],
    decreases j,
{
    if j > 0 {
        lemma_up_visited(list, n, s, tree, visited, nvis, t, (j - 1) as nat);
        lemma_up(list, n, s, tree, t, (j - 1) as nat);
    }
}

/// Moving the potentials of the settled nodes by their distances keeps
/// complementary slackness, and makes the arcs of the tree path to `t`
/// cost nothing.
proof fn lemma_potential_step(
    rn0: ResidualNetwork,
    rn1: ResidualNetwork,
    list: Seq<(usize, usize, i64)>,
    info: Seq<usize>,
    s: int,
    t: int,
    tree: BfsTree,
    visited: Seq<bool>,
    dist: Seq<i64>,
)
    requires
        rn0.wf(),
        slackness(rn0),
        arcs_listed(rn0, list, info),
        forall|i: int|
            0 <= i < list.len() ==> (#[trigger] list[i]).2 == rn0.cost@[info[i] as int] - rn0.potentials@[list[i].0 as int]
                + rn0.potentials@[list[i].1 as int],
        forall|u: int, a: int|
            0 <= u < rn0.num_nodes && rn0.start@[u] <= a < rn0.start@[u + 1] && #[trigger] rn0.residual_capacity@[a] > 0
                && #[trigger] rn0.start@[u] <= a ==> listed_arc(list, info, u, a),
        0 <= s < rn0.num_nodes,
        0 <= t < rn0.num_nodes,
        tree_ok(list, rn0.num_nodes as int, s, tree),
        tree.reached@[t],
        visited.len() == rn0.num_nodes,
        dist.len() == rn0.num_nodes,
        visited[t],
        search_ok(list, rn0.num_nodes as int, s, tree, visited, count_true(visited, rn0.num_nodes as int) as int),
        distances_ok(list, rn0.num_nodes as int, s, tree, visited, dist, dist[t] as int, t, 0),
        rn1.wf(),
        rn1.same_except_potentials(rn0),
        forall|u: int|
            0 <= u < rn0.num_nodes ==> #[trigger] rn1.potentials@[u] == if visited[u] {
                rn0.potentials@[u] - dist[u] + dist[t]
            } else {
                rn0.potentials@[u] as int
            },
    ensures
        slackness(rn1),
        forall|j: nat|
            j < tree.level@[t] ==> #[trigger] reduced(rn1, rn0.arc_edge@[path_arc(list, info, tree, t, j)] / 2) == 0,
{
    lemma_step_slackness(rn0, rn1, list, info, s, t, tree, visited, dist);
    lemma_step_path(rn0, rn1, list, info, s, t, tree, visited, dist);
}

/// The slackness half of the potential step.
#[verifier::rlimit(60)]
#[verifier::spinoff_prover]
proof fn lemma_step_slackness(
    rn0: ResidualNetwork,
    rn1: ResidualNetwork,
    list: Seq<(usize, usize, i64)>,
    info: Seq<usize>,
    s: int,
    t: int,
    tree: BfsTree,
    visited: Seq<bool>,
    dist: Seq<i64>,
)
    requires
        rn0.wf(),
        slackness(rn0),
        arcs_listed(rn0, list, info),
        forall|i: int|
            0 <= i < list.len() ==> (#[trigger] list[i]).2 == rn0.cost@[info[i] as int] - rn0.potentials@[list[i].0 as int]
                + rn0.potentials@[list[i].1 as int],
        forall|u: int, a: int|
            0 <= u < rn0.num_nodes && rn0.start@[u] <= a < rn0.start@[u + 1] && #[trigger] rn0.residual_capacity@[a] > 0
                && #[trigger] rn0.start@[u] <= a ==> listed_arc(list, info, u, a),
        0 <= t < rn0.num_nodes,
        visited.len() == rn0.num_nodes,
        dist.len() == rn0.num_nodes,
        distances_ok(list, rn0.num_nodes as int, s, tree, visited, dist, dist[t] as int, t, 0),
        rn1.wf(),
        rn1.same_except_potentials(rn0),
        forall|u: int|
            0 <= u < rn0.num_nodes ==> #[trigger] rn1.potentials@[u] == if visited[u] {
                rn0.potentials@[u] - dist[u] + dist[t]
            } else {
                rn0.potentials@[u] as int
            },
    ensures
        slackness(rn1),
{
    lemma_shape(rn0);
    assert forall|u: int, a: int|
        0 <= u < rn1.num_nodes && rn1.start@[u] <= a < rn1.start@[u + 1] && #[trigger] rn1.residual_capacity@[a] > 0
            && #[trigger] rn1.start@[u] <= a implies arc_reduced(rn1, u, a) >= 0 by {
        assert(rn0.start@[u] <= a);
        assert(listed_arc(list, info, u, a));
        let i = choose|i: int| 0 <= i < list.len() && info[i] == a && #[trigger] list[i].0 == u;
        let v = list[i].1 as int;
        lemma_arc_nonneg(rn0, u, a);
        assert(rn0.to@[a].0 == v);
        if visited[u] && u != t {
            assert(tree.reached@[v] && dist[v] <= dist[u] + list[i].2);
        }
    }
    lemma_slackness_from_arcs(rn1);
}

/// The path half of the potential step.
#[verifier::rlimit(60)]
#[verifier::spinoff_prover]
proof fn lemma_step_path(
    rn0: ResidualNetwork,
    rn1: ResidualNetwork,
    list: Seq<(usize, usize, i64)>,
    info: Seq<usize>,
    s: int,
    t: int,
    tree: BfsTree,
    visited: Seq<bool>,
    dist: Seq<i64>,
)
    requires
        rn0.wf(),
        arcs_listed(rn0, list, info),
        forall|i: int|
            0 <= i < list.len() ==> (#[trigger] list[i]).2 == rn0.cost@[info[i] as int] - rn0.potentials@[list[i].0 as int]
                + rn0.potentials@[list[i].1 as int],
        0 <= s < rn0.num_nodes,
        0 <= t < rn0.num_nodes,
        tree_ok(list, rn0.num_nodes as int, s, tree),
        tree.reached@[t],
        visited.len() == rn0.num_nodes,
        dist.len() == rn0.num_nodes,
        visited[t],
        search_ok(list, rn0.num_nodes as int, s, tree, visited, count_true(visited, rn0.num_nodes as int) as int),
        distances_ok(list, rn0.num_nodes as int, s, tree, visited, dist, dist[t] as int, t, 0),
        rn1.wf(),
        rn1.same_except_potentials(rn0),
        forall|u: int|
            0 <= u < rn0.num_nodes ==> #[trigger] rn1.potentials@[u] == if visited[u] {
                rn0.potentials@[u] - dist[u] + dist[t]
            } else {
                rn0.potentials@[u] as int
            },
    ensures
        forall|j: nat|
            j < tree.level@[t] ==> #[trigger] reduced(rn1, rn0.arc_edge@[path_arc(list, info, tree, t, j)] / 2) == 0,
{
    let n = rn0.num_nodes as int;
    lemma_shape(rn0);
    assert forall|j: nat| j < tree.level@[t] implies #[trigger] reduced(
        rn1,
        rn0.arc_edge@[path_arc(list, info, tree, t, j)] / 2,
    ) == 0 by {
        let v = up(list, tree.parent@, t, j);
        lemma_up(list, n, s, tree, t, j);
        lemma_up_visited(list, n, s, tree, visited, count_true(visited, n) as int, t, j);
        let e = tree.parent@[v] as int;
        let x = list[e].0 as int;
        let a = info[e] as int;
        assert(visited[x]);
        assert(dist[v] == dist[x] + list[e].2);
        assert(rn0.to@[a].0 == v);
        assert(arc_reduced(rn1, x, a) == 0);
        lemma_arc_reduced(rn1, x, a);
    }
}

/// Moves the potential of every settled node `u` by `dist[t] - dist[u]`;
/// `NotSolved` when a potential leaves the range of `i64`, the network then
/// being as it was.
fn update_potentials(rn: &mut ResidualNetwork, visited: &Vec<bool>, dist: &Vec<i64>, t: usize) -> (r: Result<
    (),
    MinimumCostFlowError,
>)
    requires
        old(rn).wf(),
        visited@.len() == old(rn).num_nodes,
        dist@.len() == old(rn).num_nodes,
        t < old(rn).num_nodes,
    ensures
        final(rn).wf(),
        final(rn).same_except_potentials(*old(rn)),
        r is Err ==> r == Err::<(), MinimumCostFlowError>(MinimumCostFlowError::NotSolved) && final(rn).potentials
            == old(rn).potentials,
        r is Ok ==> forall|u: int|
            0 <= u < old(rn).num_nodes ==> #[trigger] final(rn).potentials@[u] == if visited@[u] {
                old(rn).potentials@[u] - dist@[u] + dist@[t as int]
            } else {
                old(rn).potentials@[u] as int
            },
{
    proof {
        lemma_shape(*rn);
    }
    let n = rn.num_nodes;
    let dt = dist[t];
    let mut newp: Vec<i64> = Vec::new();
    let mut u: usize = 0;
    while u < n
        invariant
            rn.wf(),
            n == rn.num_nodes,
            rn.potentials@.len() == n,
            visited@.len() == n,
            dist@.len() == n,
            t < n,
            dt == dist@[t as int],
            u <= n,
            newp@.len() == u,
            forall|x: int|
                0 <= x < u ==> #[trigger] newp@[x] == if visited@[x] {
                    rn.potentials@[x] - dist@[x] + dist@[t as int]
                } else {
                    rn.potentials@[x] as int
                },
        decreases n - u,
    {
        let p = rn.potentials[u];
        if visited[u] {
            let q: i128 = p as i128 - dist[u] as i128 + dt as i128;
            if q < i64::MIN as i128 || q > i64::MAX as i128 {
                return Err(MinimumCostFlowError::NotSolved);
            }
            newp.push(q as i64);
        } else {
            newp.push(p);
        }
        u = u + 1;
    }
    let ghost old_rn = *rn;
    rn.potentials = newp;
    proof {
        lemma_potentials_frame(old_rn, *rn);
    }
    Ok(())
}

/// Pushes as much as the supply of `s`, the demand of `t` and the arcs of
/// the tree path from `s` to `t` allow along that path.
fn update_flow(
    rn: &mut ResidualNetwork,
    list: &Vec<(usize, usize, i64)>,
    info: &Vec<usize>,
    tree: &BfsTree,
    s: usize,
    t: usize,
) -> (delta: i64)
    requires
        old(rn).wf(),
        arcs_listed(*old(rn), list@, info@),
        s < old(rn).num_nodes,
        t < old(rn).num_nodes,
        tree_ok(list@, old(rn).num_nodes as int, s as int, *tree),
        tree.reached@[t as int],
        old(rn).excesses@[s as int] > 0,
        old(rn).excesses@[t as int] < 0,
    ensures
        final(rn).wf(),
        final(rn).same_except_flow(*old(rn)),
        1 <= delta <= old(rn).excesses@[s as int],
        delta <= -old(rn).excesses@[t as int],
        final(rn).excesses@.len() == old(rn).excesses@.len(),
        forall|x: int|
            0 <= x < old(rn).num_nodes ==> #[trigger] final(rn).excesses@[x] == old(rn).excesses@[x] + (if x == t {
                delta as int
            } else {
                0int
            }) - (if x == s {
                delta as int
            } else {
                0int
            }),
        forall|q: int|
            0 <= q < old(rn).num_edges && #[trigger] touched(*final(rn), *old(rn), q) ==> on_path(
                *old(rn),
                list@,
                info@,
                *tree,
                t as int,
                q,
                tree.level@[t as int] as nat,
            ),
{
    proof {
        lemma_shape(*rn);
    }
    let n = rn.num_nodes;
    let es = rn.excesses[s];
    let et = rn.excesses[t];
    let demand: i128 = -(et as i128);
    let cap: i64 = if (es as i128) < demand {
        es
    } else {
        demand as i64
    };
    let delta = bottleneck(rn, list, info, tree, n, s, t, cap);
    push_path(rn, list, info, tree, n, s, t, delta);
    delta
}

/// The successive shortest path solver over the residual network of a
/// graph.
pub struct SuccessiveShortestPath {
    status: Status,
    rn: ResidualNetwork,
    /// The edges of the graph the solver was built for.
    graph_edges: Ghost<Seq<Edge<MinimumCostFlowEdge>>>,
    /// The nodes of that graph.
    graph_nodes: Ghost<Seq<MinimumCostFlowNode>>,
}

impl SuccessiveShortestPath {
    closed spec fn inv(&self) -> bool {
        let m = self.rn.num_edges_original_graph as int;
        &&& self.rn.wf()
        &&& slackness(self.rn)
        &&& self.rn.original_ok()
        &&& self.graph_edges@.len() == m
        &&& forall|e: int| 0 <= e < m ==> #[trigger] self.rn.edges@[e] == normalize(self.graph_edges@[e])
        &&& forall|x: int| 0 <= x < self.rn.num_nodes ==> #[trigger] self.rn.base_balance@[x] == 0
        &&& self.rn.num_edges == self.rn.num_edges_original_graph
        &&& self.graph_nodes@.len() == self.rn.num_nodes
        &&& forall|x: int|
            0 <= x < self.rn.num_nodes ==> #[trigger] self.rn.b@[x] == self.graph_nodes@[x].b + balance_shift(
                self.rn.edges@,
                m,
                x,
            )
        &&& forall|e: int|
            0 <= e < m ==> -VALUE_LIMIT <= (#[trigger] self.graph_edges@[e]).data.lower <= self.graph_edges@[
                e].data.upper <= VALUE_LIMIT && -VALUE_LIMIT <= self.graph_edges@[e].data.cost <= VALUE_LIMIT
    }

    /// The edges of the graph the solver was built for.
    pub closed spec fn edges_of(&self) -> Seq<Edge<MinimumCostFlowEdge>> {
        self.graph_edges@
    }

    /// The nodes of the graph the solver was built for.
    pub closed spec fn nodes_of(&self) -> Seq<MinimumCostFlowNode> {
        self.graph_nodes@
    }

    /// Read on the graph, the flow takes from every node exactly its
    /// supply: what enters it less what leaves it is minus its supply.
    pub closed spec fn supplies_met_in_graph(&self) -> bool {
        forall|x: int|
            0 <= x < self.graph_nodes@.len() ==> #[trigger] graph_balance(
                self.graph_edges@,
                graph_flows(self.rn),
                self.graph_edges@.len() as int,
                x,
            ) + self.graph_nodes@[x].b == 0
    }

    /// Every node's supply has left it along the flow.
    pub closed spec fn supplies_met(&self) -> bool {
        forall|x: int| 0 <= x < self.rn.num_nodes ==> #[trigger] self.rn.excesses@[x] == 0
    }


    /// No flow on the edges of the network, within their capacities and
    /// leaving every node with the balance the solver's flow leaves it,
    /// costs less than the solver's flow.
    pub closed spec fn least_cost(&self) -> bool {
        let m = self.rn.num_edges as int;
        forall|g: Seq<i64>|
            g.len() == m && (forall|e: int| 0 <= e < m ==> 0 <= #[trigger] g[e] <= self.rn.edges@[e].upper) && (forall|
                x: int,
            |
                0 <= x < self.rn.num_nodes ==> #[trigger] balance(with_flows(self.rn, g), m, x) == balance(
                    self.rn.flow_edges(),
                    m,
                    x,
                )) ==> flow_cost(self.rn, flows_of(self.rn), m) <= #[trigger] flow_cost(self.rn, g, m)
    }

    /// No flow on the edges of the graph, within their bounds and leaving
    /// every node with the balance that the solver's flow leaves it, costs
    /// less than the solver's flow.
    pub closed spec fn least_cost_in_graph(&self) -> bool {
        let es = self.graph_edges@;
        let m = es.len() as int;
        forall|h: Seq<i64>|
            within_graph_bounds(es, h) && (forall|x: int|
                0 <= x < self.rn.num_nodes ==> #[trigger] graph_balance(es, h, m, x) == graph_balance(
                    es,
                    graph_flows(self.rn),
                    m,
                    x,
                )) ==> self.rn.objective(m) <= #[trigger] graph_cost(es, h, m)
    }

    /// The supplies of the network add up to those of the graph.
    proof fn lemma_supply_total(&self)
        requires
            self.inv(),
        ensures
            total(self.rn.b@, self.rn.num_nodes as int) == supply_sum(self.graph_nodes@, self.graph_nodes@.len() as int),
    {
        let m = self.rn.num_edges_original_graph as int;
        let n = self.rn.num_nodes as int;
        lemma_shape(self.rn);
        lemma_total_split(self.rn.b@, self.graph_nodes@, self.rn.edges@, m, n);
        assert forall|e: int| 0 <= e < m implies (#[trigger] self.rn.edges@[e]).u.0 < n && self.rn.edges@[e].v.0 < n by {
            crate::minimum_cost_flow::optimality::lemma_edge_ends(self.rn, e);
        }
        lemma_shift_sum_zero(self.rn.edges@, m, n);
    }

    /// A solver in its invariant holds a flow that costs least on the
    /// graph for its balances.
    proof fn lemma_least_cost_in_graph(&self)
        requires
            self.inv(),
        ensures
            self.least_cost_in_graph(),
    {
        let es = self.graph_edges@;
        let m = es.len() as int;
        lemma_shape(self.rn);
        assert(normalizes(self.rn, es));
        assert forall|h: Seq<i64>|
            within_graph_bounds(es, h) && (forall|x: int|
                0 <= x < self.rn.num_nodes ==> #[trigger] graph_balance(es, h, m, x) == graph_balance(
                    es,
                    graph_flows(self.rn),
                    m,
                    x,
                )) implies self.rn.objective(m) <= #[trigger] graph_cost(es, h, m) by {
            lemma_graph_optimal(self.rn, es, h);
        }
    }

    /// A solver in its invariant whose supplies are met holds a flow that
    /// meets the supplies of the graph.
    proof fn lemma_supplies_in_graph(&self)
        requires
            self.inv(),
            self.supplies_met(),
        ensures
            self.supplies_met_in_graph(),
    {
        let es = self.graph_edges@;
        lemma_shape(self.rn);
        assert(normalizes(self.rn, es));
        assert forall|x: int| 0 <= x < self.graph_nodes@.len() implies #[trigger] graph_balance(
            es,
            graph_flows(self.rn),
            es.len() as int,
            x,
        ) + self.graph_nodes@[x].b == 0 by {
            lemma_graph_balance_of(self.rn, es, x);
            lemma_excess_of(self.rn, x);
            assert(self.rn.excesses@[x] == 0);
            assert(self.rn.base_balance@[x] == 0);
        }
    }

    /// A solver in its invariant holds a flow of least cost for its
    /// balances.
    proof fn lemma_least_cost(&self)
        requires
            self.inv(),
        ensures
            self.least_cost(),
    {
        let m = self.rn.num_edges as int;
        assert forall|g: Seq<i64>|
            g.len() == m && (forall|e: int| 0 <= e < m ==> 0 <= #[trigger] g[e] <= self.rn.edges@[e].upper) && (forall|
                x: int,
            |
                0 <= x < self.rn.num_nodes ==> #[trigger] balance(with_flows(self.rn, g), m, x) == balance(
                    self.rn.flow_edges(),
                    m,
                    x,
                )) implies flow_cost(self.rn, flows_of(self.rn), m) <= #[trigger] flow_cost(self.rn, g, m) by {
            lemma_slackness_optimal(self.rn, g);
        }
    }

    /// A solver for `graph`, not yet run.
    pub fn new(graph: &Graph<Directed, MinimumCostFlowNode, MinimumCostFlowEdge>) -> (r: Self)
        requires
            network_ok(*graph),
        ensures
            r.ready(),
            !r.solved(),
            r.edge_count() == graph.edges@.len(),
            r.node_count() == graph.nodes@.len(),
            r.edges_of() == graph.edges@,
            r.nodes_of() == graph.nodes@,
            forall|e: int| 0 <= e < graph.edges@.len() ==> #[trigger] r.flow_of(e) == resting_flow(graph.edges@[e]),
            forall|x: int| 0 <= x < graph.nodes@.len() ==> #[trigger] r.potential_of(x) == 0,
    {
        let nn = NormalizedNetwork::from(graph);
        let ghost ges = graph.edges@;
        proof {
            let b = nn.supplies();
            let es = nn.normalized_edges();
            let n = nn.node_count();
            lemma_capacity_bound(es, es.len() as int, 2 * VALUE_LIMIT);
            assert(es.len() * (2 * VALUE_LIMIT) <= VALUE_LIMIT * (2 * VALUE_LIMIT)) by (nonlinear_arith)
                requires
                    es.len() <= VALUE_LIMIT,
            ;
            let all = all_of(nn, None);
            assert(all =~= es);
            assert forall|e: int| 0 <= e < all.len() implies 0 <= #[trigger] initial_flow(None, e) <= all[e].upper by {
            }
            assert forall|x: int| 0 <= x < total_nodes(nn, None) implies -TOTAL_LIMIT <= #[trigger] start_supply(
                nn,
                None,
                x,
            ) <= TOTAL_LIMIT by {
            }
        }
        let rn = ResidualNetwork::new(&nn, None, None, None, None);
        proof {
            assert forall|x: int| 0 <= x < rn.num_nodes implies #[trigger] rn.base_balance@[x] == 0 by {
                lemma_shape(rn);
                let fe = rn.flow_edges();
                assert forall|e: int| 0 <= e < fe.len() implies (#[trigger] fe[e]).data.flow == 0 by {
                    assert(rn.flow(e) == 0);
                }
                lemma_balance_zero(fe, rn.num_edges as int, x);
            }
            assert forall|e: int| 0 <= e < rn.num_edges_original_graph implies #[trigger] rn.edges@[e] == normalize(
                ges[e],
            ) by {
                assert(rn.edges@[e] == nn.normalized_edges()[e]);
            }
            lemma_shape(rn);
            assert forall|e: int| 0 <= e < rn.num_edges implies #[trigger] slack_ok(rn, e) by {
                crate::minimum_cost_flow::optimality::lemma_edge_ends(rn, e);
                assert(rn.flow(e) == 0);
                let a = rn.edges@[e].u.0 as int;
                let b = rn.edges@[e].v.0 as int;
                assert(rn.b@[a] == start_supply(nn, None, a));
                assert(rn.b@[b] == start_supply(nn, None, b));
                assert(rn.potentials@[a] == 0);
                assert(rn.potentials@[b] == 0);
            }
        }
        proof {
            assert forall|x: int| 0 <= x < rn.num_nodes implies #[trigger] rn.b@[x] == graph.nodes@[x].b + balance_shift(
                rn.edges@,
                ges.len() as int,
                x,
            ) by {
                assert(normalizes(rn, ges));
                lemma_shift_supply(rn, *graph, ges.len() as int, x);
                assert(rn.b@[x] == start_supply(nn, None, x));
            }
        }
        proof {
            lemma_shape(rn);
            assert forall|x: int| 0 <= x < graph.nodes@.len() implies #[trigger] rn.potentials@[x] == 0 by {
                assert(rn.b@[x] == start_supply(nn, None, x));
            }
        }
        SuccessiveShortestPath { status: Status::NotSolved, rn, graph_edges: Ghost(ges), graph_nodes: Ghost(graph.nodes@) }
    }

    /// Runs the solver: from each node in turn, sends its supply to the
    /// nearest nodes with a demand until it has none left or none can be
    /// reached.
    pub fn run(&mut self) -> (r: Result<i64, MinimumCostFlowError>)
        requires
            old(self).ready(),
        ensures
            final(self).ready(),
            final(self).edges_of() == old(self).edges_of(),
            final(self).edge_count() == old(self).edge_count(),
            final(self).node_count() == old(self).node_count(),
            r matches Ok(v) ==> final(self).solved() && v == final(self).cost_of_flow() && final(self).supplies_met()
                && final(self).least_cost() && final(self).least_cost_in_graph() && final(self).supplies_met_in_graph(),
            r is Err ==> final(self).solved() == old(self).solved(),
            (r == Err::<i64, MinimumCostFlowError>(MinimumCostFlowError::Unbalanced)) <==> supply_sum(
                old(self).nodes_of(),
                old(self).nodes_of().len() as int,
            ) != 0,
            old(self).edges_of().len() == 0 ==> r == edgeless_answer(old(self).nodes_of()),
            final(self).nodes_of() == old(self).nodes_of(),
            r == Err::<i64, MinimumCostFlowError>(MinimumCostFlowError::Infeasible) ==> forall|h: Seq<i64>|
                !#[trigger] feasible_flow(old(self).edges_of(), old(self).nodes_of(), h),
            (exists|h: Seq<i64>| #[trigger] feasible_flow(old(self).edges_of(), old(self).nodes_of(), h)) ==> (r is Ok || r
                == Err::<i64, MinimumCostFlowError>(MinimumCostFlowError::NotSolved)),
    {
        proof {
            if exists|h: Seq<i64>| #[trigger] feasible_flow(self.graph_edges@, self.graph_nodes@, h) {
                let h = choose|h: Seq<i64>| #[trigger] feasible_flow(self.graph_edges@, self.graph_nodes@, h);
                lemma_shape(self.rn);
                assert forall|e: int| 0 <= e < self.graph_edges@.len() implies (#[trigger] self.graph_edges@[e]).u.0
                    < self.graph_nodes@.len() && self.graph_edges@[e].v.0 < self.graph_nodes@.len() by {
                    crate::minimum_cost_flow::optimality::lemma_edge_ends(self.rn, e);
                    assert(self.rn.edges@[e] == normalize(self.graph_edges@[e]));
                }
                lemma_feasible_balanced(self.graph_edges@, self.graph_nodes@, h);
            }
            self.lemma_least_cost();
            self.lemma_least_cost_in_graph();
            self.lemma_supply_total();
            if self.graph_edges@.len() == 0 {
                lemma_shape(self.rn);
                assert forall|x: int| 0 <= x < self.rn.num_nodes implies #[trigger] self.rn.b@[x]
                    == self.graph_nodes@[x].b by {
                    assert(balance_shift(self.rn.edges@, 0, x) == 0);
                }
                if !(exists|x: int| 0 <= x < self.graph_nodes@.len() && #[trigger] self.graph_nodes@[x].b != 0) {
                    lemma_supply_sum_zero(self.graph_nodes@, self.graph_nodes@.len() as int);
                } else {
                    let x = choose|x: int| 0 <= x < self.graph_nodes@.len() && #[trigger] self.graph_nodes@[x].b != 0;
                    assert(self.rn.b@[x] != 0);
                }
            }
        }
        match validate_balance(&self.rn) {
            Err(e) => {
                return Err(e);
            },
            Ok(()) => {},
        }
        match validate_infeasible(&self.rn) {
            Err(e) => {
                proof {
                    lemma_shape(self.rn);
                    let x = choose|x: int| 0 <= x < self.rn.num_nodes && #[trigger] self.rn.b@[x] != 0;
                    assert(balance_shift(self.rn.edges@, 0, x) == 0);
                    assert forall|h: Seq<i64>| !#[trigger] feasible_flow(self.graph_edges@, self.graph_nodes@, h) by {
                        if feasible_flow(self.graph_edges@, self.graph_nodes@, h) {
                            assert(graph_balance(self.graph_edges@, h, 0, x) == 0);
                        }
                    }
                }
                return Err(e);
            },
            Ok(()) => {},
        }
        match trivial_solution_if_any(&self.rn) {
            Some(res) => {
                proof {
                    lemma_shape(self.rn);
                    if self.rn.num_nodes == 0 {
                        lemma_no_nodes(self.rn);
                    }
                    assert forall|x: int| 0 <= x < self.rn.num_nodes implies #[trigger] self.rn.excesses@[x] == 0 by {
                        lemma_excess_of(self.rn, x);
                        assert(self.rn.b@[x] == 0);
                    }
                }
                self.status = Status::Optimal;
                proof {
                    self.lemma_supplies_in_graph();
                }
                return res;
            },
            None => {},
        }
        proof {
            lemma_shape(self.rn);
        }
        let n = self.rn.num_nodes;
        let mut s: usize = 0;
        let ghost mut stuck: bool = false;
        while s < n
            invariant
                self.inv(),
                self.status == old(self).status,
                self.graph_edges == old(self).graph_edges,
                self.graph_nodes == old(self).graph_nodes,
                stuck ==> forall|h: Seq<i64>| !#[trigger] feasible_flow(self.graph_edges@, self.graph_nodes@, h),
                !stuck ==> forall|x: int| 0 <= x < s ==> #[trigger] self.rn.excesses@[x] <= 0,
                self.rn.num_nodes == old(self).rn.num_nodes,
                self.rn.num_edges_original_graph == old(self).rn.num_edges_original_graph,
                self.rn.num_nodes_original_graph == old(self).rn.num_nodes_original_graph,
                self.rn.b == old(self).rn.b,
                total(self.rn.b@, self.rn.num_nodes as int) == 0,
                supply_sum(old(self).graph_nodes@, old(self).graph_nodes@.len() as int) == 0,
                old(self).graph_edges@.len() != 0,
                n == self.rn.num_nodes,
                self.rn.excesses@.len() == n,
                s <= n,
            decreases n - s,
        {
            while self.rn.excesses[s] > 0
                invariant
                    self.inv(),
                    self.status == old(self).status,
                    self.graph_edges == old(self).graph_edges,
                    self.graph_nodes == old(self).graph_nodes,
                    stuck ==> forall|h: Seq<i64>| !#[trigger] feasible_flow(self.graph_edges@, self.graph_nodes@, h),
                    !stuck ==> forall|x: int| 0 <= x < s ==> #[trigger] self.rn.excesses@[x] <= 0,
                    self.rn.num_nodes == old(self).rn.num_nodes,
                    self.rn.num_edges_original_graph == old(self).rn.num_edges_original_graph,
                    self.rn.num_nodes_original_graph == old(self).rn.num_nodes_original_graph,
                    self.rn.b == old(self).rn.b,
                    total(self.rn.b@, self.rn.num_nodes as int) == 0,
                    supply_sum(old(self).graph_nodes@, old(self).graph_nodes@.len() as int) == 0,
                    old(self).graph_edges@.len() != 0,
                    n == self.rn.num_nodes,
                    self.rn.excesses@.len() == n,
                    s < n,
                    slackness(self.rn),
                ensures
                    self.inv(),
                    !stuck ==> self.rn.excesses@[s as int] <= 0,
                decreases self.rn.excesses@[s as int],
            {
                let (list, info) = match residual_arcs(&self.rn) {
                    Some(x) => x,
                    None => {
                        return Err(MinimumCostFlowError::NotSolved);
                    },
                };
                proof {
                    assert forall|i: int| 0 <= i < list@.len() implies (#[trigger] list@[i]).2 >= 0 by {
                        lemma_arc_nonneg(self.rn, list@[i].0 as int, info@[i] as int);
                    }
                }
                match calculate_distance(&self.rn, &list, s) {
                    Err(e) => {
                        return Err(e);
                    },
                    Ok(None) => {
                        proof {
                            lemma_shape(self.rn);
                            assert(normalizes(self.rn, self.graph_edges@));
                            lemma_no_feasible_flow(
                                self.rn,
                                self.graph_edges@,
                                self.graph_nodes@,
                                s as int,
                                list@,
                                info@,
                            );
                            stuck = true;
                        }
                        break;
                    },
                    Ok(Some((t, tree, visited, dist))) => {
                        let ghost rn0 = self.rn;
                        match update_potentials(&mut self.rn, &visited, &dist, t) {
                            Err(e) => {
                                return Err(e);
                            },
                            Ok(()) => {},
                        }
                        proof {
                            lemma_shape(self.rn);
                            assert(arcs_listed(self.rn, list@, info@));
                            assert(t != s);
                        }
                        let ghost rn1 = self.rn;
                        proof {
                            lemma_potential_step(rn0, rn1, list@, info@, s as int, t as int, tree, visited@, dist@);
                        }
                        update_flow(&mut self.rn, &list, &info, &tree, s, t);
                        proof {
                            assert forall|x: int| 0 <= x < s implies #[trigger] self.rn.excesses@[x] <= rn1.excesses@[x]
                                || self.rn.excesses@[x] <= 0 by {}
                            assert(self.rn.excesses@[s as int] < rn1.excesses@[s as int]);
                            assert forall|q: int| 0 <= q < rn1.num_edges && #[trigger] touched(self.rn, rn1, q) implies reduced(
                                rn1,
                                q,
                            ) == 0 by {
                                assert(on_path(rn1, list@, info@, tree, t as int, q, tree.level@[t as int] as nat));
                                let j = choose|j: nat|
                                    j < tree.level@[t as int] && #[trigger] rn1.arc_edge@[path_arc(
                                        list@,
                                        info@,
                                        tree,
                                        t as int,
                                        j,
                                    )] / 2 == q;
                                assert(reduced(rn1, rn0.arc_edge@[path_arc(list@, info@, tree, t as int, j)] / 2) == 0);
                            }
                            lemma_push_step(rn1, self.rn);
                        }
                    },
                }
            }
            s = s + 1;
        }
        proof {
            if !stuck {
                lemma_excess_total(self.rn);
                lemma_nonpos_total_zero(self.rn.excesses@, n as int);
            }
        }
        if self.rn.have_excess() {
            return Err(MinimumCostFlowError::Infeasible);
        }
        self.status = Status::Optimal;
        proof {
            self.lemma_least_cost();
            self.lemma_least_cost_in_graph();
            self.lemma_supplies_in_graph();
        }
        Ok(self.rn.calculate_objective_value_original_graph())
    }
}

impl MinimumCostFlowSolver for SuccessiveShortestPath {
    closed spec fn ready(&self) -> bool {
        self.inv()
    }

    closed spec fn solved(&self) -> bool {
        self.status == Status::Optimal
    }

    closed spec fn edge_count(&self) -> nat {
        self.rn.num_edges_original_graph as nat
    }

    closed spec fn node_count(&self) -> nat {
        self.rn.num_nodes_original_graph as nat
    }

    closed spec fn flow_of(&self, e: int) -> int {
        self.rn.original_flow(e)
    }

    closed spec fn potential_of(&self, x: int) -> int {
        self.rn.potentials@[x] as int
    }

    closed spec fn cost_of_flow(&self) -> int {
        self.rn.objective(self.rn.num_edges_original_graph as int)
    }

    fn new(graph: &Graph<Directed, MinimumCostFlowNode, MinimumCostFlowEdge>) -> (s: Self) {
        SuccessiveShortestPath::new(graph)
    }

    fn solve(&mut self) -> (r: Result<i64, MinimumCostFlowError>)
        ensures
            (r == Err::<i64, MinimumCostFlowError>(MinimumCostFlowError::Unbalanced)) <==> supply_sum(
                old(self).nodes_of(),
                old(self).nodes_of().len() as int,
            ) != 0,
            old(self).edges_of().len() == 0 ==> r == edgeless_answer(old(self).nodes_of()),
            final(self).edges_of() == old(self).edges_of(),
            r is Ok ==> forall|e: int|
                0 <= e < final(self).edge_count() ==> final(self).edges_of()[e].data.lower
                    <= #[trigger] final(self).flow_of(e) <= final(self).edges_of()[e].data.upper,
            r is Ok ==> final(self).supplies_met() && final(self).least_cost_in_graph()
                && final(self).supplies_met_in_graph(),
            r == Err::<i64, MinimumCostFlowError>(MinimumCostFlowError::Infeasible) ==> forall|h: Seq<i64>|
                !#[trigger] feasible_flow(old(self).edges_of(), old(self).nodes_of(), h),
            (exists|h: Seq<i64>| #[trigger] feasible_flow(old(self).edges_of(), old(self).nodes_of(), h)) ==> (r is Ok || r
                == Err::<i64, MinimumCostFlowError>(MinimumCostFlowError::NotSolved)),
    {
        let r = self.run();
        proof {
            if r is Ok {
                lemma_shape(self.rn);
                lemma_flow_bounds(self.rn);
                assert forall|e: int| 0 <= e < self.edge_count() implies self.edges_of()[e].data.lower
                    <= #[trigger] self.flow_of(e) <= self.edges_of()[e].data.upper by {
                    let ge = self.graph_edges@[e];
                    assert(self.rn.edges@[e] == normalize(ge));
                    assert(0 <= self.rn.flow(e) <= self.rn.edges@[e].upper);
                    assert(self.rn.edges@[e].upper == ge.data.upper - ge.data.lower);
                    assert(self.rn.edges@[e].lower == ge.data.lower);
                }
            }
        }
        r
    }

    fn flow(&self, edge_id: EdgeId) -> (r: Result<i64, MinimumCostFlowError>) {
        if self.status != Status::Optimal {
            return Err(MinimumCostFlowError::NotSolved);
        }
        Ok(self.rn.flow_original_graph(edge_id))
    }

    fn flows(&self) -> (r: Result<Vec<i64>, MinimumCostFlowError>) {
        if self.status != Status::Optimal {
            return Err(MinimumCostFlowError::NotSolved);
        }
        Ok(self.rn.flows_original_graph())
    }

    fn potential(&self, node_id: NodeId) -> (r: Result<i64, MinimumCostFlowError>) {
        if self.status != Status::Optimal {
            return Err(MinimumCostFlowError::NotSolved);
        }
        proof {
            lemma_shape(self.rn);
        }
        Ok(self.rn.potential_original_graph(node_id))
    }

    fn potentials(&self) -> (r: Result<Vec<i64>, MinimumCostFlowError>) {
        if self.status != Status::Optimal {
            return Err(MinimumCostFlowError::NotSolved);
        }
        proof {
            lemma_shape(self.rn);
        }
        let ps = self.rn.potentials_original_graph();
        proof {
            assert forall|x: int| 0 <= x < ps@.len() implies #[trigger] ps@[x] == self.potential_of(x) by {
                assert(ps@[x] == self.rn.potentials@[x]);
            }
        }
        Ok(ps)
    }
}

} // verus!
