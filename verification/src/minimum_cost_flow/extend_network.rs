//! Extra nodes and edges that reshape a normalized network for a solver.
use crate::graph::ids::NodeId;
use crate::minimum_cost_flow::graph::VALUE_LIMIT;
use crate::minimum_cost_flow::normalized_network::{NormalizedEdge, NormalizedNetwork, SUPPLY_LIMIT};
use crate::minimum_cost_flow::residual_network::capacity_sum;
use vstd::prelude::*;

verus! {

/// The sum of the positive entries among the first `k` of `b`.
pub open spec fn positive_sum(b: Seq<i64>, k: int) -> int
    decreases k,
{
    if k <= 0 {
        0
    } else {
        positive_sum(b, k - 1) + if b[k - 1] > 0 {
            b[k - 1] as int
        } else {
            0
        }
    }
}

/// The sum of the negative entries among the first `k` of `b`.
pub open spec fn negative_sum(b: Seq<i64>, k: int) -> int
    decreases k,
{
    if k <= 0 {
        0
    } else {
        negative_sum(b, k - 1) + if b[k - 1] < 0 {
            b[k - 1] as int
        } else {
            0
        }
    }
}

/// The sum of the first `k` entries of `b`.
pub open spec fn total(b: Seq<i64>, k: int) -> int
    decreases k,
{
    if k <= 0 {
        0
    } else {
        total(b, k - 1) + b[k - 1]
    }
}

/// For the first `k` nodes: an edge of cost 0 from `source` to each node
/// with a supply, of that capacity, and from each node with a demand to
/// `sink`, of that capacity.
pub open spec fn supply_demand_edges(b: Seq<i64>, k: int, source: NodeId, sink: NodeId) -> Seq<NormalizedEdge>
    decreases k,
{
    if k <= 0 {
        Seq::empty()
    } else {
        let u = NodeId((k - 1) as usize);
        let x = b[k - 1];
        supply_demand_edges(b, k - 1, source, sink) + if x > 0 {
            seq![NormalizedEdge { u: source, v: u, lower: 0, upper: x, cost: 0, is_reversed: false }]
        } else if x < 0 {
            seq![NormalizedEdge { u: u, v: sink, lower: 0, upper: (-x) as i64, cost: 0, is_reversed: false }]
        } else {
            Seq::empty()
        }
    }
}

/// For the first `k` nodes: an edge of cost `c` from each node with a
/// supply (or none) to `root`, and from `root` to each node with a demand,
/// of capacity the size of the supply or demand.
pub open spec fn root_edges(b: Seq<i64>, k: int, root: NodeId, c: i64) -> Seq<NormalizedEdge>
    decreases k,
{
    if k <= 0 {
        Seq::empty()
    } else {
        let u = NodeId((k - 1) as usize);
        let x = b[k - 1];
        root_edges(b, k - 1, root, c) + if x >= 0 {
            seq![NormalizedEdge { u: u, v: root, lower: 0, upper: x, cost: c, is_reversed: false }]
        } else {
            seq![NormalizedEdge { u: root, v: u, lower: 0, upper: (-x) as i64, cost: c, is_reversed: false }]
        }
    }
}

/// The sizes of the supplies and demands of the first `k` nodes.
pub open spec fn magnitudes(b: Seq<i64>, k: int) -> Seq<i64>
    decreases k,
{
    if k <= 0 {
        Seq::empty()
    } else {
        magnitudes(b, k - 1).push(if b[k - 1] >= 0 {
            b[k - 1]
        } else {
            (-b[k - 1]) as i64
        })
    }
}

/// One plus the sum of the first `k` edge costs.
pub open spec fn cost_bound(es: Seq<NormalizedEdge>, k: int) -> int
    decreases k,
{
    if k <= 0 {
        1
    } else {
        cost_bound(es, k - 1) + es[k - 1].cost
    }
}

pub proof fn lemma_sums_bound(b: Seq<i64>, k: int)
    requires
        0 <= k <= b.len(),
        forall|x: int| 0 <= x < b.len() ==> -SUPPLY_LIMIT <= #[trigger] b[x] <= SUPPLY_LIMIT,
    ensures
        0 <= positive_sum(b, k) <= k * SUPPLY_LIMIT,
        -k * SUPPLY_LIMIT <= negative_sum(b, k) <= 0,
        -k * SUPPLY_LIMIT <= total(b, k) <= k * SUPPLY_LIMIT,
    decreases k,
{
    if k > 0 {
        lemma_sums_bound(b, k - 1);
        assert(-SUPPLY_LIMIT <= b[k - 1] <= SUPPLY_LIMIT);
    }
}

pub(crate) proof fn lemma_cost_bound(es: Seq<NormalizedEdge>, k: int)
    requires
        0 <= k <= es.len(),
        forall|e: int| 0 <= e < es.len() ==> 0 <= (#[trigger] es[e]).cost <= VALUE_LIMIT,
    ensures
        1 <= cost_bound(es, k) <= 1 + k * VALUE_LIMIT,
    decreases k,
{
    if k > 0 {
        lemma_cost_bound(es, k - 1);
        assert(0 <= es[k - 1].cost <= VALUE_LIMIT);
    }
}

/// The sum of the costs of the edges among the first `k` that `pick` marks.
pub open spec fn chosen_cost(es: Seq<NormalizedEdge>, pick: Seq<bool>, k: int) -> int
    decreases k,
{
    if k <= 0 {
        0
    } else {
        chosen_cost(es, pick, k - 1) + if pick[k - 1] {
            es[k - 1].cost as int
        } else {
            0
        }
    }
}

/// Edges of costs at least zero cost less together, whichever of them are
/// taken, than one plus all their costs.
pub proof fn lemma_chosen_below_bound(es: Seq<NormalizedEdge>, pick: Seq<bool>, k: int)
    requires
        0 <= k <= es.len(),
        forall|e: int| 0 <= e < es.len() ==> 0 <= (#[trigger] es[e]).cost,
    ensures
        0 <= chosen_cost(es, pick, k) < cost_bound(es, k),
    decreases k,
{
    if k > 0 {
        lemma_chosen_below_bound(es, pick, k - 1);
        assert(0 <= es[k - 1].cost);
    }
}

/// Turns a normalized network into one with a single supply node (a new
/// node `source`) and a single demand node (a new node `sink`): returns
/// `source`, `sink`, the edges that join them to the supplies and demands,
/// and the supply to add to each node.
pub fn construct_extend_network_one_supply_one_demand(graph: &NormalizedNetwork) -> (r: (
    NodeId,
    NodeId,
    Vec<NormalizedEdge>,
    Vec<i64>,
))
    requires
        graph.bounded(),
    ensures
        r.0 == NodeId(graph.node_count() as usize),
        r.1 == NodeId((graph.node_count() + 1) as usize),
        r.2@ == supply_demand_edges(graph.supplies(), graph.node_count() as int, r.0, r.1),
        r.3@.len() == graph.node_count() + 2,
        forall|u: int| 0 <= u < graph.node_count() ==> #[trigger] r.3@[u] == -graph.supplies()[u],
        r.3@[graph.node_count() as int] == positive_sum(graph.supplies(), graph.node_count() as int),
        r.3@[graph.node_count() + 1int] == negative_sum(graph.supplies(), graph.node_count() as int),
{
    let n = graph.num_nodes();
    let b = graph.excesses();
    let source = NodeId(n);
    let sink = NodeId(n + 1);
    let mut edges: Vec<NormalizedEdge> = Vec::new();
    let mut excesses: Vec<i64> = vec![0i64; n + 2];
    let mut total_excess_positive: i64 = 0;
    let mut total_excess_negative: i64 = 0;
    let mut u: usize = 0;
    while u < n
        invariant
            graph.bounded(),
            n == graph.node_count(),
            b@ == graph.supplies(),
            source == NodeId(n),
            sink == NodeId((n + 1) as usize),
            u <= n,
            excesses@.len() == n + 2,
            forall|x: int| 0 <= x < u ==> #[trigger] excesses@[x] == -b@[x],
            forall|x: int| u <= x < n + 2 ==> #[trigger] excesses@[x] == 0,
            edges@ == supply_demand_edges(b@, u as int, source, sink),
            total_excess_positive == positive_sum(b@, u as int),
            total_excess_negative == negative_sum(b@, u as int),
        decreases n - u,
    {
        proof {
            lemma_sums_bound(b@, u as int);
            lemma_sums_bound(b@, (u + 1) as int);
            assert(u * SUPPLY_LIMIT <= VALUE_LIMIT * SUPPLY_LIMIT) by (nonlinear_arith)
                requires
                    u <= VALUE_LIMIT,
            ;
        }
        let excess = b[u];
        let ghost before = edges@;
        if excess > 0 {
            edges.push(NormalizedEdge { u: source, v: NodeId(u), lower: 0, upper: excess, cost: 0, is_reversed: false });
            total_excess_positive = total_excess_positive + excess;
        } else if excess < 0 {
            edges.push(NormalizedEdge { u: NodeId(u), v: sink, lower: 0, upper: -excess, cost: 0, is_reversed: false });
            total_excess_negative = total_excess_negative + excess;
        }
        proof {
            assert(edges@ =~= supply_demand_edges(b@, (u + 1) as int, source, sink));
        }
        excesses.set(u, -excess);
        u = u + 1;
    }
    excesses.set(n, total_excess_positive);
    excesses.set(n + 1, total_excess_negative);
    (source, sink, edges, excesses)
}

/// Adds a node `root` joined to every node by an edge of cost above any
/// path cost that carries that node's whole supply (to `root`) or demand
/// (from `root`): returns `root`, these edges, a flow (zero on the original
/// edges, full on the new ones) and the supply to add to each node.
pub fn construct_extend_network_feasible_solution(graph: &NormalizedNetwork) -> (r: (
    NodeId,
    Vec<NormalizedEdge>,
    Vec<i64>,
    Vec<i64>,
))
    requires
        graph.bounded(),
    ensures
        r.0 == NodeId(graph.node_count() as usize),
        r.1@ == root_edges(
            graph.supplies(),
            graph.node_count() as int,
            r.0,
            cost_bound(graph.normalized_edges(), graph.normalized_edges().len() as int) as i64,
        ),
        r.2@ == Seq::new(graph.normalized_edges().len(), |i: int| 0i64) + magnitudes(
            graph.supplies(),
            graph.node_count() as int,
        ),
        r.3@.len() == graph.node_count() + 1,
        forall|u: int| 0 <= u < graph.node_count() ==> #[trigger] r.3@[u] == -graph.supplies()[u],
        r.3@[graph.node_count() as int] == total(graph.supplies(), graph.node_count() as int),
        forall|pick: Seq<bool>, i: int|
            0 <= i < r.1@.len() ==> #[trigger] chosen_cost(graph.normalized_edges(), pick, graph.normalized_edges().len() as int)
                < #[trigger] r.1@[i].cost,
{
    let n = graph.num_nodes();
    let m = graph.num_edges();
    let b = graph.excesses();
    let es = graph.iter_edges();
    let mut inf_cost: i64 = 1;
    let mut k: usize = 0;
    while k < m
        invariant
            graph.bounded(),
            m == graph.normalized_edges().len(),
            es@ == graph.normalized_edges(),
            k <= m,
            inf_cost == cost_bound(es@, k as int),
        decreases m - k,
    {
        proof {
            lemma_cost_bound(es@, k as int);
            assert(k * VALUE_LIMIT <= VALUE_LIMIT * VALUE_LIMIT) by (nonlinear_arith)
                requires
                    k <= VALUE_LIMIT,
            ;
            assert(0 <= es@[k as int].cost <= VALUE_LIMIT);
        }
        inf_cost = inf_cost + es[k].cost;
        k = k + 1;
    }
    let root = NodeId(n);
    let mut artificial_edges: Vec<NormalizedEdge> = Vec::new();
    let mut flows: Vec<i64> = vec![0i64; m];
    let mut fix_excess: Vec<i64> = vec![0i64; n + 1];
    let ghost zeros = flows@;
    let mut sum: i64 = 0;
    let mut u: usize = 0;
    while u < n
        invariant
            graph.bounded(),
            n == graph.node_count(),
            b@ == graph.supplies(),
            root == NodeId(n),
            zeros == Seq::new(m as nat, |i: int| 0i64),
            u <= n,
            fix_excess@.len() == n + 1,
            forall|x: int| 0 <= x < u ==> #[trigger] fix_excess@[x] == -b@[x],
            forall|x: int| u <= x < n + 1 ==> #[trigger] fix_excess@[x] == 0,
            artificial_edges@ == root_edges(b@, u as int, root, inf_cost),
            flows@ == zeros + magnitudes(b@, u as int),
            sum == total(b@, u as int),
        decreases n - u,
    {
        proof {
            lemma_sums_bound(b@, u as int);
            assert(u * SUPPLY_LIMIT <= VALUE_LIMIT * SUPPLY_LIMIT) by (nonlinear_arith)
                requires
                    u <= VALUE_LIMIT,
            ;
        }
        let excess = b[u];
        if excess >= 0 {
            artificial_edges.push(
                NormalizedEdge { u: NodeId(u), v: root, lower: 0, upper: excess, cost: inf_cost, is_reversed: false },
            );
            flows.push(excess);
        } else {
            artificial_edges.push(
                NormalizedEdge { u: root, v: NodeId(u), lower: 0, upper: -excess, cost: inf_cost, is_reversed: false },
            );
            flows.push(-excess);
        }
        proof {
            assert(artificial_edges@ =~= root_edges(b@, (u + 1) as int, root, inf_cost));
            assert(flows@ =~= zeros + magnitudes(b@, (u + 1) as int));
        }
        fix_excess.set(u, -excess);
        sum = sum + excess;
        u = u + 1;
    }
    fix_excess.set(n, sum);
    proof {
        assert(zeros =~= Seq::new(graph.normalized_edges().len(), |i: int| 0i64));
        lemma_root_edges(b@, n as int, root, inf_cost);
        assert forall|pick: Seq<bool>, i: int| 0 <= i < artificial_edges@.len() implies #[trigger] chosen_cost(
            graph.normalized_edges(),
            pick,
            graph.normalized_edges().len() as int,
        ) < #[trigger] artificial_edges@[i].cost by {
            assert forall|e: int| 0 <= e < es@.len() implies 0 <= (#[trigger] es@[e]).cost by {
                assert(graph.normalized_edges()[e] == es@[e]);
            }
            lemma_chosen_below_bound(es@, pick, m as int);
        }
    }
    (root, artificial_edges, flows, fix_excess)
}

} // verus!

verus! {

/// There is at most one edge per node, each from `source` or to `sink`, of
/// cost 0 and of capacity the size of that node's supply or demand.
pub proof fn lemma_supply_demand_edges(b: Seq<i64>, k: int, source: NodeId, sink: NodeId)
    requires
        0 <= k <= b.len(),
        forall|x: int| 0 <= x < b.len() ==> -SUPPLY_LIMIT <= #[trigger] b[x] <= SUPPLY_LIMIT,
    ensures
        supply_demand_edges(b, k, source, sink).len() <= k,
        forall|i: int|
            0 <= i < supply_demand_edges(b, k, source, sink).len() ==> {
                let e = #[trigger] supply_demand_edges(b, k, source, sink)[i];
                &&& (e.u == source && e.v.0 < k) || (e.v == sink && e.u.0 < k)
                &&& e.cost == 0
                &&& 0 < e.upper <= SUPPLY_LIMIT
                &&& e.lower == 0
                &&& !e.is_reversed
            },
        0 <= capacity_sum(supply_demand_edges(b, k, source, sink), supply_demand_edges(b, k, source, sink).len() as int)
            <= k * SUPPLY_LIMIT,
    decreases k,
{
    if k > 0 {
        lemma_supply_demand_edges(b, k - 1, source, sink);
        let prev = supply_demand_edges(b, k - 1, source, sink);
        let cur = supply_demand_edges(b, k, source, sink);
        let x = b[k - 1];
        assert(-SUPPLY_LIMIT <= x <= SUPPLY_LIMIT);
        if x != 0 {
            assert(cur.len() == prev.len() + 1);
            assert(cur.subrange(0, prev.len() as int) =~= prev);
            lemma_capacity_prefix(cur, prev, prev.len() as int);
        } else {
            assert(cur =~= prev);
        }
    }
}

/// The capacity sum of a prefix depends on the prefix only.
pub proof fn lemma_capacity_prefix(a: Seq<NormalizedEdge>, b: Seq<NormalizedEdge>, j: int)
    requires
        0 <= j <= a.len(),
        j <= b.len(),
        forall|i: int| 0 <= i < j ==> #[trigger] a[i] == b[i],
    ensures
        capacity_sum(a, j) == capacity_sum(b, j),
    decreases j,
{
    if j > 0 {
        lemma_capacity_prefix(a, b, j - 1);
    }
}

/// The capacities of two lists put together add up.
pub proof fn lemma_capacity_concat(a: Seq<NormalizedEdge>, b: Seq<NormalizedEdge>, j: int)
    requires
        0 <= j <= b.len(),
    ensures
        capacity_sum(a + b, a.len() + j) == capacity_sum(a, a.len() as int) + capacity_sum(b, j),
    decreases j,
{
    if j > 0 {
        lemma_capacity_concat(a, b, j - 1);
        assert((a + b)[a.len() + j - 1] == b[j - 1]);
    } else {
        lemma_capacity_prefix(a + b, a, a.len() as int);
    }
}

/// With every capacity between 0 and `c`, `k` edges hold at most `k * c`.
pub proof fn lemma_capacity_bound(es: Seq<NormalizedEdge>, k: int, c: int)
    requires
        0 <= k <= es.len(),
        0 <= c,
        forall|i: int| 0 <= i < es.len() ==> 0 <= (#[trigger] es[i]).upper <= c,
    ensures
        0 <= capacity_sum(es, k) <= k * c,
    decreases k,
{
    if k == 0 {
        assert(k * c == 0);
    } else {
        lemma_capacity_bound(es, k - 1, c);
        assert(0 <= es[k - 1].upper <= c);
        assert((k - 1) * c + c == k * c) by (nonlinear_arith);
    }
}

/// One edge per node, between it and `root`, of cost `c`, its capacity
/// the size of the node's supply or demand, which `magnitudes` lists.
pub proof fn lemma_root_edges(b: Seq<i64>, k: int, root: NodeId, c: i64)
    requires
        0 <= k <= b.len(),
        forall|x: int| 0 <= x < b.len() ==> -SUPPLY_LIMIT <= #[trigger] b[x] <= SUPPLY_LIMIT,
    ensures
        root_edges(b, k, root, c).len() == k,
        magnitudes(b, k).len() == k,
        forall|i: int|
            0 <= i < k ==> {
                let e = #[trigger] root_edges(b, k, root, c)[i];
                &&& b[i] >= 0 ==> e.u == NodeId(i as usize) && e.v == root
                &&& b[i] < 0 ==> e.u == root && e.v == NodeId(i as usize)
                &&& magnitudes(b, k)[i] == if b[i] >= 0 {
                    b[i] as int
                } else {
                    -b[i]
                }
                &&& e.cost == c
                &&& 0 <= e.upper <= SUPPLY_LIMIT
                &&& e.upper == magnitudes(b, k)[i]
                &&& e.lower == 0
                &&& !e.is_reversed
            },
        0 <= capacity_sum(root_edges(b, k, root, c), k) <= k * SUPPLY_LIMIT,
    decreases k,
{
    if k > 0 {
        lemma_root_edges(b, k - 1, root, c);
        let prev = root_edges(b, k - 1, root, c);
        let cur = root_edges(b, k, root, c);
        assert(-SUPPLY_LIMIT <= b[k - 1] <= SUPPLY_LIMIT);
        assert(cur.subrange(0, k - 1) =~= prev);
        lemma_capacity_prefix(cur, prev, k - 1);
        assert forall|i: int| 0 <= i < k - 1 implies #[trigger] cur[i] == prev[i] && magnitudes(b, k)[i] == magnitudes(
            b,
            k - 1,
        )[i] by {
        }
    }
}

/// Zeros add up to zero.
pub proof fn lemma_total_zeros(b: Seq<i64>, k: int)
    requires
        forall|x: int| 0 <= x < k ==> #[trigger] b[x] == 0,
    ensures
        total(b, k) == 0,
    decreases k,
{
    if k > 0 {
        lemma_total_zeros(b, k - 1);
        assert(b[k - 1] == 0);
    }
}

/// The positive and the negative entries together add up to all.
pub proof fn lemma_positive_negative(b: Seq<i64>, k: int)
    ensures
        positive_sum(b, k) + negative_sum(b, k) == total(b, k),
    decreases k,
{
    if k > 0 {
        lemma_positive_negative(b, k - 1);
    }
}

/// With no supply among the first `k` entries of `b`, no node is joined
/// to the source or the sink, and both sums are zero.
pub proof fn lemma_zero_supplies(b: Seq<i64>, k: int, source: NodeId, sink: NodeId)
    requires
        forall|x: int| 0 <= x < k ==> #[trigger] b[x] == 0,
    ensures
        supply_demand_edges(b, k, source, sink).len() == 0,
        positive_sum(b, k) == 0,
        negative_sum(b, k) == 0,
    decreases k,
{
    if k > 0 {
        lemma_zero_supplies(b, k - 1, source, sink);
        assert(b[k - 1] == 0);
    }
}

} // verus!
