//! Edmonds' algorithm: pick the cheapest edge into every node, contract
//! the cycles they form, solve the contracted graph and expand.
use crate::graph::direction::Directed;
use crate::graph::graph::{Edge, Graph};
use crate::graph::ids::EdgeId;
use crate::shortest_path::csr::WeightEdge;
use vstd::prelude::*;
use vstd::set_lib::{lemma_int_range, lemma_len_subset, set_int_range};

verus! {

/// No edge weighs more than this in absolute value.
pub const WEIGHT_LIMIT: i64 = 0x10_0000;

/// The most nodes a graph may have.
pub const NODE_LIMIT: usize = 0x10_0000;

/// The bound on the cost of an arborescence of `n` nodes that the
/// arithmetic is proved against.
pub open spec fn cost_bound(n: int) -> int {
    0x20_0000 * n * n
}

/// An edge of the graph at some level of contraction: `id` is the edge of
/// the input it stands for.
#[derive(Clone, Copy)]
pub struct LevelEdge {
    pub id: usize,
    pub from: usize,
    pub to: usize,
    pub cost: i64,
}

/// Some edge carries the id `id`.
pub open spec fn has_id(edges: Seq<LevelEdge>, id: usize) -> bool {
    exists|i: int| 0 <= i < edges.len() && #[trigger] edges[i].id == id
}

/// The head of the edge with id `id`.
pub open spec fn id_to(edges: Seq<LevelEdge>, id: usize) -> int {
    edges[choose|i: int| 0 <= i < edges.len() && #[trigger] edges[i].id == id].to as int
}

/// The weights are those of a graph, or of a graph contracted at least
/// once: edges into the root weigh at most the limit either way, and the
/// others too, or they are reduced to between zero and twice the limit.
pub open spec fn weights_ok(edges: Seq<LevelEdge>, root: int) -> bool {
    &&& forall|i: int|
        0 <= i < edges.len() && (#[trigger] edges[i]).to == root ==> -WEIGHT_LIMIT <= edges[i].cost <= WEIGHT_LIMIT
    &&& (forall|i: int|
        0 <= i < edges.len() && (#[trigger] edges[i]).to != root ==> -WEIGHT_LIMIT <= edges[i].cost <= WEIGHT_LIMIT)
        || (forall|i: int|
        0 <= i < edges.len() && (#[trigger] edges[i]).to != root ==> 0 <= edges[i].cost <= 2 * WEIGHT_LIMIT)
}

/// The edges of one level: ends among `n` nodes, distinct ids below `m`.
pub open spec fn level_ok(edges: Seq<LevelEdge>, n: int, m: int, root: int) -> bool {
    &&& 0 <= root < n <= NODE_LIMIT
    &&& forall|i: int|
        0 <= i < edges.len() ==> (#[trigger] edges[i]).from < n && edges[i].to < n && edges[i].id < m
    &&& forall|i: int, j: int| 0 <= i < j < edges.len() ==> (#[trigger] edges[i]).id != (#[trigger] edges[j]).id
    &&& weights_ok(edges, root)
}

/// `s` is a non-empty set of nodes without the root that no edge enters
/// from outside: its nodes cannot be reached from the root.
pub open spec fn closed_off(edges: Seq<LevelEdge>, n: int, root: int, s: Set<int>) -> bool {
    &&& forall|x: int| #[trigger] s.contains(x) ==> 0 <= x < n
    &&& !s.contains(root)
    &&& exists|x: int| #[trigger] s.contains(x)
    &&& forall|i: int| 0 <= i < edges.len() && s.contains(#[trigger] edges[i].to as int) ==> s.contains(edges[i].from as int)
}

/// Some edge of `t` enters `x`.
pub open spec fn entered(edges: Seq<LevelEdge>, t: Seq<EdgeId>, x: int) -> bool {
    exists|j: int| 0 <= j < t.len() && #[trigger] id_to(edges, t[j].0) == x
}

/// The tail of the edge with id `id`.
pub open spec fn id_from(edges: Seq<LevelEdge>, id: usize) -> int {
    edges[choose|i: int| 0 <= i < edges.len() && #[trigger] edges[i].id == id].from as int
}

/// Every node but the root is entered by exactly one edge of `t`, the root
/// by none.
pub open spec fn enters_once(edges: Seq<LevelEdge>, n: int, root: int, t: Seq<EdgeId>) -> bool {
    &&& forall|j: int| 0 <= j < t.len() ==> has_id(edges, #[trigger] t[j].0)
    &&& forall|x: int| 0 <= x < n && x != root ==> #[trigger] entered(edges, t, x)
    &&& forall|j1: int, j2: int|
        0 <= j1 < t.len() && 0 <= j2 < t.len() && #[trigger] id_to(edges, t[j1].0) == #[trigger] id_to(edges, t[j2].0)
            ==> j1 == j2
    &&& forall|j: int| 0 <= j < t.len() ==> #[trigger] id_to(edges, t[j].0) != root
}

/// The tail of the edge of `t` that enters `x`.
pub open spec fn tail_of(edges: Seq<LevelEdge>, t: Seq<EdgeId>, x: int) -> int {
    id_from(edges, t[choose|j: int| 0 <= j < t.len() && #[trigger] id_to(edges, t[j].0) == x].0)
}

/// For each node, the tail of the edge of `t` that enters it.
pub open spec fn t_parent(edges: Seq<LevelEdge>, t: Seq<EdgeId>, n: int) -> Seq<usize> {
    Seq::new(n as nat, |x: int| tail_of(edges, t, x) as usize)
}

/// Going back along the edges of `t` leads from every node to the root.
pub open spec fn rooted(edges: Seq<LevelEdge>, t: Seq<EdgeId>, n: int, root: int) -> bool {
    forall|x: int| 0 <= x < n ==> #[trigger] leads(t_parent(edges, t, n), x, root)
}

/// Where no two edges of `t` share a head, the tail found for the head of
/// its edge `i` is the tail of that edge.
proof fn lemma_tail_of(edges: Seq<LevelEdge>, t: Seq<EdgeId>, i: int)
    requires
        0 <= i < t.len(),
        forall|j1: int, j2: int|
            0 <= j1 < t.len() && 0 <= j2 < t.len() && #[trigger] id_to(edges, t[j1].0) == #[trigger] id_to(
                edges,
                t[j2].0,
            ) ==> j1 == j2,
    ensures
        tail_of(edges, t, id_to(edges, t[i].0)) == id_from(edges, t[i].0),
{
    let x = id_to(edges, t[i].0);
    assert(id_to(edges, t[i].0) == x);
    let j = choose|j: int| 0 <= j < t.len() && #[trigger] id_to(edges, t[j].0) == x;
    assert(j == i);
}

/// With distinct ids, the edge found for the id of edge `i` is edge `i`.
pub proof fn lemma_id_to(edges: Seq<LevelEdge>, i: int)
    requires
        0 <= i < edges.len(),
        forall|a: int, b: int| 0 <= a < b < edges.len() ==> (#[trigger] edges[a]).id != (#[trigger] edges[b]).id,
    ensures
        has_id(edges, edges[i].id),
        id_to(edges, edges[i].id) == edges[i].to,
        id_from(edges, edges[i].id) == edges[i].from,
        id_cost(edges, edges[i].id) == edges[i].cost,
{
    assert(edges[i].id == edges[i].id);
    let k = choose|k: int| 0 <= k < edges.len() && #[trigger] edges[k].id == edges[i].id;
    if k < i {
        assert(edges[k].id != edges[i].id);
    } else if k > i {
        assert(edges[i].id != edges[k].id);
    }
}

/// The cost of the edge with id `id`.
pub open spec fn id_cost(edges: Seq<LevelEdge>, id: usize) -> int {
    edges[choose|i: int| 0 <= i < edges.len() && #[trigger] edges[i].id == id].cost as int
}

/// The total cost of the edges of `t`.
pub open spec fn t_cost(edges: Seq<LevelEdge>, t: Seq<EdgeId>) -> int
    decreases t.len(),
{
    if t.len() == 0 {
        0
    } else {
        t_cost(edges, t.drop_last()) + id_cost(edges, t.last().0)
    }
}

/// The heads of the edges of `t`, in order.
pub open spec fn heads(edges: Seq<LevelEdge>, t: Seq<EdgeId>) -> Seq<int> {
    Seq::new(t.len(), |j: int| id_to(edges, t[j].0))
}

/// The sum of `f` over the nodes of `h`.
pub open spec fn heads_sum(f: Seq<i64>, h: Seq<int>) -> int
    decreases h.len(),
{
    if h.len() == 0 {
        0
    } else {
        heads_sum(f, h.drop_last()) + f[h.last()]
    }
}

/// The sum of `f` over the nodes below `k` other than `root`.
pub open spec fn excl_sum(f: Seq<i64>, root: int, k: int) -> int
    decreases k,
{
    if k <= 0 {
        0
    } else {
        excl_sum(f, root, k - 1) + if k - 1 == root {
            0
        } else {
            f[k - 1] as int
        }
    }
}

/// Taking node `h[p]` out of `h` takes its term out of the sum.
proof fn lemma_heads_sum_remove(f: Seq<i64>, h: Seq<int>, p: int)
    requires
        0 <= p < h.len(),
    ensures
        heads_sum(f, h) == heads_sum(f, h.remove(p)) + f[h[p]],
    decreases h.len(),
{
    if p == h.len() - 1 {
        assert(h.remove(p) =~= h.drop_last());
    } else {
        lemma_heads_sum_remove(f, h.drop_last(), p);
        assert(h.remove(p).drop_last() =~= h.drop_last().remove(p));
        assert(h.remove(p).last() == h.last());
    }
}

/// The sum over a concatenation is the sum of the sums.
proof fn lemma_heads_sum_concat(f: Seq<i64>, h1: Seq<int>, h2: Seq<int>)
    ensures
        heads_sum(f, h1 + h2) == heads_sum(f, h1) + heads_sum(f, h2),
    decreases h2.len(),
{
    if h2.len() == 0 {
        assert(h1 + h2 =~= h1);
    } else {
        lemma_heads_sum_concat(f, h1, h2.drop_last());
        assert((h1 + h2).drop_last() =~= h1 + h2.drop_last());
    }
}

/// The cost of a concatenation is the sum of the costs.
proof fn lemma_t_cost_concat(edges: Seq<LevelEdge>, t1: Seq<EdgeId>, t2: Seq<EdgeId>)
    ensures
        t_cost(edges, t1 + t2) == t_cost(edges, t1) + t_cost(edges, t2),
    decreases t2.len(),
{
    if t2.len() == 0 {
        assert(t1 + t2 =~= t1);
    } else {
        lemma_t_cost_concat(edges, t1, t2.drop_last());
        assert((t1 + t2).drop_last() =~= t1 + t2.drop_last());
    }
}

/// A list of distinct nodes that are exactly those below `n` but `root`
/// sums `f` as the nodes below `n` but `root` do.
proof fn lemma_perm_sum(f: Seq<i64>, h: Seq<int>, root: int, n: int)
    requires
        0 <= n,
        forall|a: int, b: int| 0 <= a < b < h.len() ==> (#[trigger] h[a]) != (#[trigger] h[b]),
        forall|j: int| 0 <= j < h.len() ==> 0 <= (#[trigger] h[j]) < n && h[j] != root,
        forall|x: int| 0 <= x < n && x != root ==> #[trigger] listed(h, x),
    ensures
        heads_sum(f, h) == excl_sum(f, root, n),
    decreases n,
{
    if n == 0 {
        if h.len() > 0 {
            assert(h[0] < n);
        }
    } else {
        let y = n - 1;
        if y == root {
            assert forall|j: int| 0 <= j < h.len() implies 0 <= (#[trigger] h[j]) < n - 1 && h[j] != root by {
            }
            lemma_perm_sum(f, h, root, n - 1);
        } else {
            assert(listed(h, y));
            let p = choose|p: int| 0 <= p < h.len() && h[p] == y;
            let h2 = h.remove(p);
            assert forall|a: int, b: int| 0 <= a < b < h2.len() implies (#[trigger] h2[a]) != (#[trigger] h2[b]) by {
                let a1 = if a < p { a } else { a + 1 };
                let b1 = if b < p { b } else { b + 1 };
                assert(h2[a] == h[a1] && h2[b] == h[b1]);
            }
            assert forall|j: int| 0 <= j < h2.len() implies 0 <= (#[trigger] h2[j]) < n - 1 && h2[j] != root by {
                let j1 = if j < p { j } else { j + 1 };
                assert(h2[j] == h[j1]);
            }
            assert forall|x: int| 0 <= x < n - 1 && x != root implies #[trigger] listed(h2, x) by {
                assert(listed(h, x));
                let q = choose|q: int| 0 <= q < h.len() && h[q] == x;
                if q < p {
                    assert(h2[q] == x);
                } else {
                    assert(q != p);
                    assert(h2[q - 1] == x);
                }
            }
            lemma_perm_sum(f, h2, root, n - 1);
            lemma_heads_sum_remove(f, h, p);
        }
    }
}

/// The heads of edges that enter every node but the root once sum `f` as
/// the nodes but the root do.
proof fn lemma_heads_total(edges: Seq<LevelEdge>, n: int, m: int, root: int, t: Seq<EdgeId>, f: Seq<i64>)
    requires
        level_ok(edges, n, m, root),
        enters_once(edges, n, root, t),
    ensures
        heads_sum(f, heads(edges, t)) == excl_sum(f, root, n),
{
    let h = heads(edges, t);
    assert forall|a: int, b: int| 0 <= a < b < h.len() implies (#[trigger] h[a]) != (#[trigger] h[b]) by {
        if h[a] == h[b] {
            assert(id_to(edges, t[a].0) == id_to(edges, t[b].0));
        }
    }
    assert forall|j: int| 0 <= j < h.len() implies 0 <= (#[trigger] h[j]) < n && h[j] != root by {
        assert(has_id(edges, t[j].0));
        let i = choose|i: int| 0 <= i < edges.len() && #[trigger] edges[i].id == t[j].0;
        lemma_id_to(edges, i);
        assert(id_to(edges, t[j].0) != root);
    }
    assert forall|x: int| 0 <= x < n && x != root implies #[trigger] listed(h, x) by {
        assert(entered(edges, t, x));
        let j = choose|j: int| 0 <= j < t.len() && #[trigger] id_to(edges, t[j].0) == x;
        assert(h[j] == x);
    }
    lemma_perm_sum(f, h, root, n);
}

/// The cheapest edges into `owners` cost what `in_cost` says of them, and
/// their heads are `owners`.
proof fn lemma_owner_cost(
    edges: Seq<LevelEdge>,
    n: int,
    m: int,
    root: int,
    in_cost: Seq<i64>,
    parent: Seq<usize>,
    in_edge: Seq<usize>,
    c: Seq<EdgeId>,
    owners: Seq<int>,
)
    requires
        level_ok(edges, n, m, root),
        forall|x: int|
            0 <= x < n && x != root ==> in_entry(edges, x, #[trigger] in_cost[x], parent[x], in_edge[x]),
        c.len() == owners.len(),
        forall|j: int|
            0 <= j < owners.len() ==> {
                let o = #[trigger] owners[j];
                &&& 0 <= o < n
                &&& o != root
                &&& c[j].0 == in_edge[o]
            },
    ensures
        t_cost(edges, c) == heads_sum(in_cost, owners),
        heads(edges, c) == owners,
    decreases c.len(),
{
    assert forall|j: int| 0 <= j < owners.len() implies id_to(edges, #[trigger] c[j].0) == owners[j] && id_cost(
        edges,
        c[j].0,
    ) == in_cost[owners[j]] by {
        let o = owners[j];
        assert(in_entry(edges, o, in_cost[o], parent[o], in_edge[o]));
        let i = choose|i: int|
            0 <= i < edges.len() && (#[trigger] edges[i]).id == in_edge[o] && edges[i].to == o && edges[i].from
                == parent[o] && parent[o] != o && edges[i].cost == in_cost[o];
        lemma_id_to(edges, i);
    }
    assert(heads(edges, c) =~= owners);
    if c.len() > 0 {
        lemma_owner_cost(edges, n, m, root, in_cost, parent, in_edge, c.drop_last(), owners.drop_last());
        assert(c.last().0 == c[c.len() - 1].0);
    }
}

/// The edges of the first level: edge `i` keeps its id.
pub open spec fn graph_level(edges: Seq<Edge<WeightEdge>>) -> Seq<LevelEdge> {
    Seq::new(
        edges.len(),
        |i: int| LevelEdge { id: i as usize, from: edges[i].u.0, to: edges[i].v.0, cost: edges[i].data.weight },
    )
}

/// Node `x` other than the root has an entering edge of cost `c` from
/// `p`, recorded under `eid`.
pub open spec fn in_entry(edges: Seq<LevelEdge>, x: int, c: i64, p: usize, eid: usize) -> bool {
    exists|k: int|
        0 <= k < edges.len() && (#[trigger] edges[k]).id == eid && edges[k].to == x && edges[k].from == p && p
            != x && edges[k].cost == c
}

/// The nodes that have an id.
pub open spec fn marked(ids: Seq<usize>, n: int) -> Set<int> {
    Set::new(|x: int| 0 <= x < n && ids[x] != usize::MAX)
}

/// The parents form a function from the nodes but the root to nodes other
/// than themselves.
pub open spec fn parents_ok(parent: Seq<usize>, n: int, root: int) -> bool {
    &&& parent.len() == n
    &&& forall|x: int| 0 <= x < n && x != root ==> (#[trigger] parent[x]) < n && parent[x] != x
}

/// Every id below `k` is an id of some node.
pub open spec fn onto(ids: Seq<usize>, n: int, k: int) -> bool {
    forall|c: int| 0 <= c < k ==> #[trigger] id_used(ids, n, c)
}

/// Some node has the id `c`.
pub open spec fn id_used(ids: Seq<usize>, n: int, c: int) -> bool {
    exists|x: int| 0 <= x < n && #[trigger] ids[x] == c
}

/// Each node with an id below `k0` is not the root and shares it with its
/// parent.
pub open spec fn cycles_closed(ids: Seq<usize>, parent: Seq<usize>, n: int, root: int, k0: int) -> bool {
    forall|x: int| 0 <= x < n && (#[trigger] ids[x]) < k0 ==> x != root && ids[parent[x] as int] == ids[x]
}

/// Nodes that share an id below `k` lead to each other along the parents.
pub open spec fn groups_lead(ids: Seq<usize>, parent: Seq<usize>, n: int, k: int) -> bool {
    forall|x: int, y: int|
        0 <= x < n && 0 <= y < n && #[trigger] ids[x] == #[trigger] ids[y] && ids[x] < k ==> leads(parent, x, y)
}

/// `v` occurs in `path`.
pub open spec fn on_path(path: Seq<usize>, v: usize) -> bool {
    exists|j: int| 0 <= j < path.len() && path[j] == v
}

/// The node reached from `x` after `j` steps along the parents.
pub open spec fn iterate(parent: Seq<usize>, x: int, j: nat) -> int
    decreases j,
{
    if j == 0 {
        x
    } else {
        parent[iterate(parent, x, (j - 1) as nat)] as int
    }
}

/// Following the parents from `x` reaches `y`.
pub open spec fn leads(parent: Seq<usize>, x: int, y: int) -> bool {
    exists|j: nat| #[trigger] iterate(parent, x, j) == y
}

/// Along a path of parents, `d` steps from one node reach the node `d`
/// places further on.
proof fn lemma_path_steps(parent: Seq<usize>, path: Seq<usize>, a: int, d: nat)
    requires
        0 <= a,
        a + d < path.len(),
        forall|j: int| 0 <= j < path.len() - 1 ==> parent[(#[trigger] path[j]) as int] == path[j + 1],
    ensures
        iterate(parent, path[a] as int, d) == path[a + d],
    decreases d,
{
    if d > 0 {
        lemma_path_steps(parent, path, a, (d - 1) as nat);
        assert(parent[path[a + d - 1] as int] == path[a + d - 1 + 1]);
    }
}

/// Steps along the parents add up.
proof fn lemma_iterate_add(parent: Seq<usize>, x: int, a: nat, b: nat)
    ensures
        iterate(parent, x, a + b) == iterate(parent, iterate(parent, x, a), b),
    decreases b,
{
    if b > 0 {
        lemma_iterate_add(parent, x, a, (b - 1) as nat);
        assert((a + b - 1) as nat == a + (b - 1) as nat);
    }
}

/// Everything reached along the parents from a node of a closed-off set
/// lies in the set, as each node but the root has an edge from its parent.
proof fn lemma_closed_iterate(
    edges: Seq<LevelEdge>,
    n: int,
    root: int,
    in_cost: Seq<i64>,
    parent: Seq<usize>,
    in_edge: Seq<usize>,
    s: Set<int>,
    x: int,
    j: nat,
)
    requires
        closed_off(edges, n, root, s),
        s.contains(x),
        forall|y: int|
            0 <= y < n && y != root ==> in_entry(edges, y, #[trigger] in_cost[y], parent[y], in_edge[y]),
    ensures
        s.contains(iterate(parent, x, j)),
    decreases j,
{
    if j > 0 {
        lemma_closed_iterate(edges, n, root, in_cost, parent, in_edge, s, x, (j - 1) as nat);
        let y = iterate(parent, x, (j - 1) as nat);
        assert(in_entry(edges, y, in_cost[y], parent[y], in_edge[y]));
        let i = choose|i: int|
            0 <= i < edges.len() && (#[trigger] edges[i]).id == in_edge[y] && edges[i].to == y && edges[i].from
                == parent[y] && parent[y] != y && edges[i].cost == in_cost[y];
        assert(s.contains(edges[i].to as int));
    }
}

/// Where every node leads to the root, no set is closed off.
proof fn lemma_none_closed(
    edges: Seq<LevelEdge>,
    n: int,
    root: int,
    in_cost: Seq<i64>,
    parent: Seq<usize>,
    in_edge: Seq<usize>,
)
    requires
        forall|y: int|
            0 <= y < n && y != root ==> in_entry(edges, y, #[trigger] in_cost[y], parent[y], in_edge[y]),
        forall|x: int| 0 <= x < n ==> #[trigger] leads(parent, x, root),
    ensures
        forall|s: Set<int>| !closed_off(edges, n, root, s),
{
    assert forall|s: Set<int>| !closed_off(edges, n, root, s) by {
        if closed_off(edges, n, root, s) {
            let x = choose|x: int| #[trigger] s.contains(x);
            assert(leads(parent, x, root));
            let j = choose|j: nat| #[trigger] iterate(parent, x, j) == root;
            lemma_closed_iterate(edges, n, root, in_cost, parent, in_edge, s, x, j);
        }
    }
}

/// Along the parents `p`, `x` reaches `target`, and `q` agrees with `p` on
/// the nodes of `d` but `target`, which `p` keeps within `d`: along `q`,
/// `x` reaches `target` too.
proof fn lemma_leads_within(p: Seq<usize>, q: Seq<usize>, d: Set<int>, x: int, target: int, j: nat)
    requires
        d.contains(x),
        forall|y: int| #[trigger] d.contains(y) && y != target ==> q[y] == p[y] && d.contains(p[y] as int),
        iterate(p, x, j) == target,
    ensures
        leads(q, x, target),
    decreases j,
{
    if x == target {
        assert(iterate(q, x, 0) == target);
    } else {
        assert(j > 0);
        lemma_iterate_add(p, x, 1, (j - 1) as nat);
        assert(iterate(p, x, 0) == x);
        assert(iterate(p, x, 1) == p[x] as int);
        lemma_leads_within(p, q, d, p[x] as int, target, (j - 1) as nat);
        let j2 = choose|j2: nat| #[trigger] iterate(q, p[x] as int, j2) == target;
        lemma_iterate_add(q, x, 1, j2);
        assert(iterate(q, x, 0) == x);
        assert(iterate(q, x, 1) == q[x] as int);
        assert(iterate(q, x, 1 + j2) == target);
    }
}

/// Giving an id to a node without one marks one more node.
proof fn lemma_marked_insert(before: Seq<usize>, after: Seq<usize>, n: int, w: int, k: usize)
    requires
        0 <= w < n,
        before.len() == n,
        before[w] == usize::MAX,
        k != usize::MAX,
        after == before.update(w, k),
    ensures
        marked(after, n).finite(),
        marked(after, n).len() == marked(before, n).len() + 1,
{
    lemma_marked_bound(before, n);
    lemma_marked_bound(after, n);
    assert(marked(after, n) =~= marked(before, n).insert(w));
}

/// The marked nodes lie among the first `n`.
proof fn lemma_marked_bound(ids: Seq<usize>, n: int)
    requires
        0 <= n,
    ensures
        marked(ids, n).finite(),
        marked(ids, n).len() <= n,
{
    lemma_int_range(0, n);
    lemma_len_subset(marked(ids, n), set_int_range(0, n));
}

/// The walk from `u` along the parents, stamping each node with `u`,
/// until it meets a node stamped `u`, a node with an id or the root.
fn walk(n: usize, parent: &Vec<usize>, root: usize, ids: &Vec<usize>, stamp: &mut Vec<usize>, u: usize) -> (r: (
    usize,
    Ghost<Seq<usize>>,
))
    requires
        0 <= root < n <= NODE_LIMIT,
        parents_ok(parent@, n as int, root as int),
        u < n,
        ids@.len() == n,
        old(stamp)@.len() == n,
        forall|x: int| 0 <= x < n ==> (#[trigger] old(stamp)@[x]) == usize::MAX || old(stamp)@[x] < u,
    ensures
        r.0 < n,
        final(stamp)@.len() == n,
        forall|x: int| 0 <= x < n ==> (#[trigger] final(stamp)@[x]) == usize::MAX || final(stamp)@[x] <= u,
        forall|j: int, l: int| 0 <= j < l < r.1@.len() ==> (#[trigger] r.1@[j]) != (#[trigger] r.1@[l]),
        forall|j: int|
            0 <= j < r.1@.len() ==> (#[trigger] r.1@[j]) < n && r.1@[j] != root && ids@[r.1@[j] as int] == usize::MAX,
        r.1@.len() > 0 ==> parent@[r.1@.last() as int] == r.0,
        forall|j: int| 0 <= j < r.1@.len() - 1 ==> parent@[(#[trigger] r.1@[j]) as int] == r.1@[j + 1],
        r.0 != root && ids@[r.0 as int] == usize::MAX ==> on_path(r.1@, r.0),
        iterate(parent@, u as int, r.1@.len()) == r.0,
{
    let mut v: usize = u;
    let ghost mut path: Seq<usize> = Seq::empty();
    let ghost mut visited: Set<int> = Set::empty();
    while stamp[v] != u && ids[v] == usize::MAX && v != root
        invariant
            0 <= root < n <= NODE_LIMIT,
            parents_ok(parent@, n as int, root as int),
            u < n,
            v < n,
            ids@.len() == n,
            stamp@.len() == n,
            forall|x: int| 0 <= x < n ==> (#[trigger] stamp@[x]) == usize::MAX || stamp@[x] <= u,
            forall|x: int| 0 <= x < n ==> (stamp@[x] == u <==> #[trigger] visited.contains(x)),
            forall|x: int| #[trigger] visited.contains(x) ==> 0 <= x < n,
            visited.finite(),
            visited.len() == path.len(),
            forall|j: int| 0 <= j < path.len() ==> visited.contains(#[trigger] path[j] as int),
            forall|x: int|
                #[trigger] visited.contains(x) ==> exists|j: int| 0 <= j < path.len() && path[j] as int == x,
            forall|j: int, l: int| 0 <= j < l < path.len() ==> (#[trigger] path[j]) != (#[trigger] path[l]),
            forall|j: int|
                0 <= j < path.len() ==> (#[trigger] path[j]) < n && path[j] != root && ids@[path[j] as int]
                    == usize::MAX,
            path.len() == 0 ==> v == u,
            iterate(parent@, u as int, path.len()) == v,
            path.len() > 0 ==> parent@[path.last() as int] == v,
            forall|j: int| 0 <= j < path.len() - 1 ==> parent@[(#[trigger] path[j]) as int] == path[j + 1],
        decreases n - path.len(),
    {
        proof {
            lemma_int_range(0, n as int);
            lemma_len_subset(visited.insert(v as int), set_int_range(0, n as int));
            assert(!visited.contains(v as int));
        }
        stamp.set(v, u);
        proof {
            let ghost old_path = path;
            path = path.push(v);
            visited = visited.insert(v as int);
            assert forall|x: int| #[trigger] visited.contains(x) implies exists|j: int|
                0 <= j < path.len() && path[j] as int == x by {
                if x == v as int {
                    assert(path[path.len() - 1] == v);
                } else {
                    let j = choose|j: int| 0 <= j < old_path.len() && old_path[j] as int == x;
                    assert(path[j] == old_path[j]);
                }
            }
        }
        v = parent[v];
    }
    proof {
        if v != root && ids@[v as int] == usize::MAX {
            assert(visited.contains(v as int));
            let j = choose|j: int| 0 <= j < path.len() && path[j] as int == v as int;
            assert(path[j] == v);
            assert(on_path(path, v));
        }
    }
    (v, Ghost(path))
}

#[verifier::rlimit(100)]
#[verifier::spinoff_prover]
/// Gives id `k` to the nodes of `path` from position `i0` on, which close
/// a cycle of the parents back to `v`.
fn mark_cycle(
    ids: &mut Vec<usize>,
    parent: &Vec<usize>,
    n: usize,
    root: usize,
    v: usize,
    k: usize,
    Ghost(path): Ghost<Seq<usize>>,
    Ghost(i0): Ghost<int>,
)
    requires
        parents_ok(parent@, n as int, root as int),
        k < usize::MAX,
        old(ids)@.len() == n,
        0 <= i0 && i0 + 1 < path.len(),
        path[i0] == v,
        parent@[path.last() as int] == v,
        forall|j: int| 0 <= j < path.len() - 1 ==> parent@[(#[trigger] path[j]) as int] == path[j + 1],
        forall|j: int, l: int| 0 <= j < l < path.len() ==> (#[trigger] path[j]) != (#[trigger] path[l]),
        forall|j: int|
            0 <= j < path.len() ==> (#[trigger] path[j]) < n && path[j] != root && old(ids)@[path[j] as int]
                == usize::MAX,
    ensures
        final(ids)@.len() == n,
        forall|j: int| i0 <= j < path.len() ==> final(ids)@[(#[trigger] path[j]) as int] == k,
        forall|x: int|
            0 <= x < n && #[trigger] final(ids)@[x] != old(ids)@[x] ==> exists|j: int|
                i0 <= j < path.len() && path[j] == x,
        marked(final(ids)@, n as int).len() == marked(old(ids)@, n as int).len() + (path.len() - i0),
{
    let ghost ids0 = ids@;
    let ghost m0 = marked(ids@, n as int);
    proof {
        lemma_marked_bound(ids@, n as int);
    }
    let mut w = parent[v];
    ids.set(v, k);
    proof {
        lemma_marked_insert(ids0, ids@, n as int, v as int, k);
        assert forall|x: int| 0 <= x < n && #[trigger] ids@[x] != ids0[x] implies exists|j: int|
            i0 <= j < i0 + 1 && path[j] == x by {
            assert(x == path[i0]);
        }
    }
    let ghost mut idx: int = i0 + 1;
    while w != v
        invariant
            parents_ok(parent@, n as int, root as int),
            k < usize::MAX,
            ids@.len() == n,
            0 <= i0 < idx <= path.len(),
            path[i0] == v,
            parent@[path.last() as int] == v,
            forall|j: int| 0 <= j < path.len() - 1 ==> parent@[(#[trigger] path[j]) as int] == path[j + 1],
            w == (if idx < path.len() { path[idx] } else { v }),
            forall|j: int, l: int| 0 <= j < l < path.len() ==> (#[trigger] path[j]) != (#[trigger] path[l]),
            forall|j: int|
                0 <= j < path.len() ==> (#[trigger] path[j]) < n && path[j] != root && ids0[path[j] as int]
                    == usize::MAX,
            forall|j: int| i0 <= j < idx ==> ids@[(#[trigger] path[j]) as int] == k,
            forall|j: int| idx <= j < path.len() ==> ids@[(#[trigger] path[j]) as int] == usize::MAX,
            forall|x: int|
                0 <= x < n && #[trigger] ids@[x] != ids0[x] ==> exists|j: int| i0 <= j < idx && path[j] == x,
            m0 == marked(ids0, n as int),
            m0.finite(),
            marked(ids@, n as int).finite(),
            marked(ids@, n as int).len() == m0.len() + (idx - i0),
        decreases path.len() - idx,
    {
        proof {
            assert(idx < path.len());
            assert(ids@[w as int] == usize::MAX);
        }
        let ghost before = ids@;
        ids.set(w, k);
        proof {
            lemma_marked_insert(before, ids@, n as int, w as int, k);
            assert forall|x: int| 0 <= x < n && #[trigger] ids@[x] != ids0[x] implies exists|j: int|
                i0 <= j < idx + 1 && path[j] == x by {
                if x == w as int {
                    assert(path[idx] == x);
                }
            }
            idx = idx + 1;
        }
        w = parent[w];
    }
}

/// The nodes of a newly marked cycle lead to each other along the parents;
/// the groups marked before are left as they were.
proof fn lemma_cycle_leads(
    ids0: Seq<usize>,
    ids: Seq<usize>,
    parent: Seq<usize>,
    n: int,
    k: int,
    path: Seq<usize>,
    i0: int,
    v: usize,
)
    requires
        ids0.len() == n,
        ids.len() == n,
        0 <= i0 && i0 + 1 < path.len(),
        path[i0] == v,
        parent[path.last() as int] == v,
        forall|j: int| 0 <= j < path.len() - 1 ==> parent[(#[trigger] path[j]) as int] == path[j + 1],
        forall|j: int| i0 <= j < path.len() ==> ids[(#[trigger] path[j]) as int] == k,
        forall|x: int|
            0 <= x < n && #[trigger] ids[x] != ids0[x] ==> exists|j: int| i0 <= j < path.len() && path[j] == x,
        forall|x: int| 0 <= x < n ==> (#[trigger] ids0[x]) == usize::MAX || ids0[x] < k,
        0 <= k < usize::MAX,
        groups_lead(ids0, parent, n, k),
    ensures
        groups_lead(ids, parent, n, k + 1),
{
    assert forall|x: int, y: int|
        0 <= x < n && 0 <= y < n && #[trigger] ids[x] == #[trigger] ids[y] && ids[x] < k + 1 implies leads(
        parent,
        x,
        y,
    ) by {
        if ids[x] == k {
            assert(ids[x] != ids0[x]);
            assert(ids[y] != ids0[y]);
            let a = choose|a: int| i0 <= a < path.len() && path[a] == x;
            let b = choose|b: int| i0 <= b < path.len() && path[b] == y;
            if a <= b {
                lemma_path_steps(parent, path, a, (b - a) as nat);
                assert(iterate(parent, x, (b - a) as nat) == y);
            } else {
                let last = path.len() - 1;
                lemma_path_steps(parent, path, a, (last - a) as nat);
                assert(iterate(parent, x, (last - a + 1) as nat) == v);
                lemma_path_steps(parent, path, i0, (b - i0) as nat);
                lemma_iterate_add(parent, x, (last - a + 1) as nat, (b - i0) as nat);
                assert(iterate(parent, x, ((last - a + 1) + (b - i0)) as nat) == y);
            }
        } else {
            if ids[x] != ids0[x] {
                let a = choose|a: int| i0 <= a < path.len() && path[a] == x;
                assert(ids[path[a] as int] == k);
            }
            if ids[y] != ids0[y] {
                let b = choose|b: int| i0 <= b < path.len() && path[b] == y;
                assert(ids[path[b] as int] == k);
            }
            assert(ids0[x] == ids0[y] && ids0[x] < k);
        }
    }
}

/// After a cycle is marked with `k`, the nodes with an id below `k + 1`
/// still share it with their parents, and every id is used.
proof fn lemma_cycle_marked(
    ids0: Seq<usize>,
    ids: Seq<usize>,
    parent: Seq<usize>,
    n: int,
    root: int,
    k: int,
    path: Seq<usize>,
    i0: int,
    v: usize,
)
    requires
        ids0.len() == n,
        ids.len() == n,
        parents_ok(parent, n, root),
        0 <= i0 && i0 + 1 < path.len(),
        path[i0] == v,
        parent[path.last() as int] == v,
        forall|j: int| 0 <= j < path.len() - 1 ==> parent[(#[trigger] path[j]) as int] == path[j + 1],
        forall|j: int|
            0 <= j < path.len() ==> (#[trigger] path[j]) < n && path[j] != root && ids0[path[j] as int] == usize::MAX,
        forall|j: int| i0 <= j < path.len() ==> ids[(#[trigger] path[j]) as int] == k,
        forall|x: int|
            0 <= x < n && #[trigger] ids[x] != ids0[x] ==> exists|j: int| i0 <= j < path.len() && path[j] == x,
        0 <= k < usize::MAX,
        forall|x: int| 0 <= x < n ==> (#[trigger] ids0[x]) == usize::MAX || ids0[x] < k,
        cycles_closed(ids0, parent, n, root, k),
        onto(ids0, n, k),
    ensures
        forall|x: int| 0 <= x < n ==> (#[trigger] ids[x]) == usize::MAX || ids[x] < k + 1,
        cycles_closed(ids, parent, n, root, k + 1),
        onto(ids, n, k + 1),
{
    assert forall|x: int| 0 <= x < n implies (#[trigger] ids[x]) == usize::MAX || ids[x] < k + 1 by {
        if exists|j: int| i0 <= j < path.len() && #[trigger] path[j] == x {
        } else {
            assert(ids[x] == ids0[x]);
        }
    }
    assert forall|x: int| 0 <= x < n && (#[trigger] ids[x]) < k + 1 implies x != root && ids[parent[x] as int]
        == ids[x] by {
        if exists|j: int| i0 <= j < path.len() && #[trigger] path[j] == x {
            let j = choose|j: int| i0 <= j < path.len() && #[trigger] path[j] == x;
            if j < path.len() - 1 {
                assert(parent[path[j] as int] == path[j + 1]);
            } else {
                assert(parent[path[j] as int] == v);
            }
        } else {
            assert(ids[x] == ids0[x]);
            assert(ids0[x] < k);
            let p = parent[x] as int;
            assert(ids0[p] == ids0[x]);
            if exists|j: int| i0 <= j < path.len() && #[trigger] path[j] == p {
                let j = choose|j: int| i0 <= j < path.len() && #[trigger] path[j] == p;
                assert(ids0[path[j] as int] == usize::MAX);
            }
            assert(ids[p] == ids0[p]);
        }
    }
    assert forall|c: int| 0 <= c < k + 1 implies #[trigger] id_used(ids, n, c) by {
        if c == k {
            assert(ids[v as int] == k);
        } else {
            assert(id_used(ids0, n, c));
            let x = choose|x: int| 0 <= x < n && #[trigger] ids0[x] == c;
            if exists|j: int| i0 <= j < path.len() && #[trigger] path[j] == x {
                let j = choose|j: int| i0 <= j < path.len() && #[trigger] path[j] == x;
                assert(ids0[path[j] as int] == usize::MAX);
            }
            assert(ids[x] == c);
        }
    }
}

/// Gives the nodes of each cycle of the parents a common id, the cycles
/// numbered from zero; the other nodes keep no id.
fn find_cycles(n: usize, parent: &Vec<usize>, root: usize) -> (r: (Vec<usize>, usize))
    requires
        0 <= root < n <= NODE_LIMIT,
        parents_ok(parent@, n as int, root as int),
    ensures
        ({
            let (ids, k) = r;
            &&& ids@.len() == n
            &&& forall|x: int| 0 <= x < n ==> (#[trigger] ids@[x]) == usize::MAX || ids@[x] < k
            &&& cycles_closed(ids@, parent@, n as int, root as int, k as int)
            &&& onto(ids@, n as int, k as int)
            &&& marked(ids@, n as int).len() >= 2 * k
            &&& groups_lead(ids@, parent@, n as int, k as int)
            &&& k == 0 ==> forall|x: int| 0 <= x < n ==> #[trigger] leads(parent@, x, root as int)
        }),
{
    let mut ids: Vec<usize> = vec![usize::MAX; n];
    let mut stamp: Vec<usize> = vec![usize::MAX; n];
    let mut k: usize = 0;
    proof {
        assert(marked(ids@, n as int) =~= Set::empty());
    }
    let mut u: usize = 0;
    while u < n
        invariant
            0 <= root < n <= NODE_LIMIT,
            parents_ok(parent@, n as int, root as int),
            u <= n,
            ids@.len() == n,
            stamp@.len() == n,
            forall|x: int| 0 <= x < n ==> (#[trigger] stamp@[x]) == usize::MAX || stamp@[x] < u,
            forall|x: int| 0 <= x < n ==> (#[trigger] ids@[x]) == usize::MAX || ids@[x] < k,
            cycles_closed(ids@, parent@, n as int, root as int, k as int),
            onto(ids@, n as int, k as int),
            marked(ids@, n as int).len() >= 2 * k,
            groups_lead(ids@, parent@, n as int, k as int),
            k == 0 ==> forall|x: int| 0 <= x < u ==> #[trigger] leads(parent@, x, root as int),
        decreases n - u,
    {
        let (v, Ghost(path)) = walk(n, parent, root, &ids, &mut stamp, u);
        if v != root && ids[v] == usize::MAX {
            let ghost i0 = choose|j: int| 0 <= j < path.len() && path[j] == v;
            proof {
                lemma_marked_bound(ids@, n as int);
                if i0 == path.len() - 1 {
                    assert(parent@[v as int] == v);
                }
            }
            let ghost ids0 = ids@;
            mark_cycle(&mut ids, parent, n, root, v, k, Ghost(path), Ghost(i0));
            proof {
                lemma_cycle_marked(ids0, ids@, parent@, n as int, root as int, k as int, path, i0, v);
                lemma_cycle_leads(ids0, ids@, parent@, n as int, k as int, path, i0, v);
            }
            k = k + 1;
        } else {
            proof {
                if k == 0 {
                    assert(v == root);
                    assert(iterate(parent@, u as int, path.len()) == root);
                    assert forall|x: int| 0 <= x < u + 1 implies #[trigger] leads(parent@, x, root as int) by {
                        if x == u {
                            assert(iterate(parent@, u as int, path.len()) == root);
                        }
                    }
                }
            }
        }
        u = u + 1;
    }
    (ids, k)
}

/// Gives each node without an id a fresh one of its own, counting on from
/// `k0`; returns the number of ids.
fn number_rest(ids: &mut Vec<usize>, n: usize, k0: usize) -> (k: usize)
    requires
        old(ids)@.len() == n,
        n <= NODE_LIMIT,
        forall|x: int| 0 <= x < n ==> (#[trigger] old(ids)@[x]) == usize::MAX || old(ids)@[x] < k0,
        marked(old(ids)@, n as int).len() >= 2 * k0,
        onto(old(ids)@, n as int, k0 as int),
    ensures
        final(ids)@.len() == n,
        forall|x: int| 0 <= x < n ==> (#[trigger] final(ids)@[x]) < k,
        forall|x: int| 0 <= x < n && old(ids)@[x] != usize::MAX ==> #[trigger] final(ids)@[x] == old(ids)@[x],
        forall|x: int| 0 <= x < n && old(ids)@[x] == usize::MAX ==> #[trigger] final(ids)@[x] >= k0,
        forall|x: int, y: int|
            0 <= x < n && 0 <= y < n && #[trigger] final(ids)@[x] == #[trigger] final(ids)@[y] && final(ids)@[x] >= k0
                ==> x == y,
        onto(final(ids)@, n as int, k as int),
        k + k0 <= n,
{
    let ghost ids0 = ids@;
    let mut k: usize = k0;
    let mut u: usize = 0;
    proof {
        lemma_marked_bound(ids@, n as int);
    }
    while u < n
        invariant
            ids@.len() == n,
            n <= NODE_LIMIT,
            ids0.len() == n,
            u <= n,
            k0 <= k,
            forall|x: int| 0 <= x < u ==> (#[trigger] ids@[x]) < k,
            forall|x: int| u <= x < n ==> (#[trigger] ids@[x]) == ids0[x],
            forall|x: int| 0 <= x < n ==> (#[trigger] ids0[x]) == usize::MAX || ids0[x] < k0,
            forall|x: int| 0 <= x < u && ids0[x] != usize::MAX ==> #[trigger] ids@[x] == ids0[x],
            forall|x: int| 0 <= x < u && ids0[x] == usize::MAX ==> #[trigger] ids@[x] >= k0,
            forall|x: int, y: int|
                0 <= x < n && 0 <= y < n && #[trigger] ids@[x] == #[trigger] ids@[y] && k0 <= ids@[x] < usize::MAX
                    ==> x == y,
            onto(ids@, n as int, k as int),
            marked(ids@, n as int).finite(),
            marked(ids@, n as int).len() >= k + k0,
            marked(ids@, n as int).len() <= n,
        decreases n - u,
    {
        if ids[u] == usize::MAX {
            let ghost before = ids@;
            proof {
                lemma_marked_insert(before, before.update(u as int, k), n as int, u as int, k);
                lemma_marked_bound(before.update(u as int, k), n as int);
            }
            ids.set(u, k);
            proof {
                assert forall|x: int, y: int|
                    0 <= x < n && 0 <= y < n && #[trigger] ids@[x] == #[trigger] ids@[y] && k0 <= ids@[x]
                        < usize::MAX implies x == y by {
                    if x != u && y != u {
                        assert(before[x] == before[y]);
                    } else if x == u && y != u {
                        assert(before[y] == k);
                        if y < u {
                        } else {
                            assert(before[y] == ids0[y]);
                        }
                    } else if y == u && x != u {
                        assert(before[x] == k);
                        if x < u {
                        } else {
                            assert(before[x] == ids0[x]);
                        }
                    }
                }
                assert forall|c: int| 0 <= c < k + 1 implies #[trigger] id_used(ids@, n as int, c) by {
                    if c == k {
                        assert(ids@[u as int] == k);
                    } else {
                        assert(id_used(before, n as int, c));
                        let x = choose|x: int| 0 <= x < n && #[trigger] before[x] == c;
                        assert(ids@[x] == c);
                    }
                }
            }
            k = k + 1;
        }
        u = u + 1;
    }
    k
}

/// `c` is the cost of an edge into `x` from another node.
pub open spec fn cost_into(edges: Seq<LevelEdge>, x: int, c: i64) -> bool {
    exists|i: int| 0 <= i < edges.len() && (#[trigger] edges[i]).to == x && edges[i].from != x && edges[i].cost == c
}

/// `next` is `edges` between different groups of `ids`, in order, each
/// taken from position `src[j]`, its ends replaced by their groups and its
/// cost reduced by the cost of the cheapest edge into its head.
pub open spec fn contracted(
    edges: Seq<LevelEdge>,
    next: Seq<LevelEdge>,
    src: Seq<int>,
    ids: Seq<usize>,
    in_cost: Seq<i64>,
) -> bool {
    &&& next.len() == src.len()
    &&& forall|j: int|
        0 <= j < next.len() ==> {
            let e = edges[#[trigger] src[j]];
            &&& 0 <= src[j] < edges.len()
            &&& ids[e.from as int] != ids[e.to as int]
            &&& next[j].id == e.id
            &&& next[j].from == ids[e.from as int]
            &&& next[j].to == ids[e.to as int]
            &&& next[j].cost == e.cost - in_cost[e.to as int]
        }
    &&& forall|a: int, b: int| 0 <= a < b < next.len() ==> #[trigger] src[a] < #[trigger] src[b]
    &&& forall|i: int|
        0 <= i < edges.len() && ids[(#[trigger] edges[i]).from as int] != ids[edges[i].to as int] ==> exists|j: int|
            0 <= j < next.len() && src[j] == i
}

/// The edges between different groups, with their ends replaced by the
/// groups and their costs reduced by the cheapest cost into their heads.
fn contract_edges(
    edges: &Vec<LevelEdge>,
    ids: &Vec<usize>,
    in_cost: &Vec<i64>,
    n: usize,
    k: usize,
    m: usize,
    root: usize,
) -> (r: (Vec<LevelEdge>, Ghost<Seq<int>>))
    requires
        level_ok(edges@, n as int, m as int, root as int),
        ids@.len() == n,
        in_cost@.len() == n,
        k <= NODE_LIMIT,
        forall|x: int| 0 <= x < n ==> (#[trigger] ids@[x]) < k,
        forall|x: int| 0 <= x < n && #[trigger] ids@[x] == ids@[root as int] ==> x == root,
        forall|i: int|
            0 <= i < edges@.len() && (#[trigger] edges@[i]).from != edges@[i].to && edges@[i].to != root
                ==> in_cost@[edges@[i].to as int] <= edges@[i].cost,
        forall|x: int| 0 <= x < n && x != root ==> cost_into(edges@, x, #[trigger] in_cost@[x]),
        in_cost@[root as int] == 0,
    ensures
        contracted(edges@, r.0@, r.1@, ids@, in_cost@),
        level_ok(r.0@, k as int, m as int, ids@[root as int] as int),
{
    let mut next: Vec<LevelEdge> = Vec::new();
    let ghost mut src: Seq<int> = Seq::empty();
    let ghost low = forall|i: int|
        0 <= i < edges@.len() && (#[trigger] edges@[i]).to != root ==> -WEIGHT_LIMIT <= edges@[i].cost <= WEIGHT_LIMIT;
    let mut i: usize = 0;
    while i < edges.len()
        invariant
            level_ok(edges@, n as int, m as int, root as int),
            ids@.len() == n,
            in_cost@.len() == n,
            k <= NODE_LIMIT,
            forall|x: int| 0 <= x < n ==> (#[trigger] ids@[x]) < k,
            forall|x: int| 0 <= x < n && #[trigger] ids@[x] == ids@[root as int] ==> x == root,
            forall|i: int|
                0 <= i < edges@.len() && (#[trigger] edges@[i]).from != edges@[i].to && edges@[i].to != root
                    ==> in_cost@[edges@[i].to as int] <= edges@[i].cost,
            forall|x: int| 0 <= x < n && x != root ==> cost_into(edges@, x, #[trigger] in_cost@[x]),
            in_cost@[root as int] == 0,
            low == forall|i: int|
                0 <= i < edges@.len() && (#[trigger] edges@[i]).to != root ==> -WEIGHT_LIMIT <= edges@[i].cost
                    <= WEIGHT_LIMIT,
            i <= edges@.len(),
            next@.len() == src.len(),
            forall|j: int|
                0 <= j < next@.len() ==> {
                    let e = edges@[#[trigger] src[j]];
                    &&& 0 <= src[j] < i
                    &&& ids@[e.from as int] != ids@[e.to as int]
                    &&& next@[j].id == e.id
                    &&& next@[j].from == ids@[e.from as int]
                    &&& next@[j].to == ids@[e.to as int]
                    &&& next@[j].cost == e.cost - in_cost@[e.to as int]
                },
            forall|a: int, b: int| 0 <= a < b < next@.len() ==> #[trigger] src[a] < #[trigger] src[b],
            forall|l: int|
                0 <= l < i && ids@[(#[trigger] edges@[l]).from as int] != ids@[edges@[l].to as int] ==> exists|j: int|
                    0 <= j < next@.len() && src[j] == l,
            forall|j: int|
                0 <= j < next@.len() ==> {
                    let ne = #[trigger] next@[j];
                    &&& ne.to == ids@[root as int] ==> -WEIGHT_LIMIT <= ne.cost <= WEIGHT_LIMIT
                    &&& ne.to != ids@[root as int] ==> 0 <= ne.cost <= 2 * WEIGHT_LIMIT
                },
        decreases edges@.len() - i,
    {
        let e = edges[i];
        let a = ids[e.from];
        let b = ids[e.to];
        let ghost src0 = src;
        if a != b {
            proof {
                assert(edges@[i as int] == e);
                if e.to != root {
                    assert(cost_into(edges@, e.to as int, in_cost@[e.to as int]));
                    let l = choose|l: int|
                        0 <= l < edges@.len() && (#[trigger] edges@[l]).to == e.to && edges@[l].from != e.to
                            && edges@[l].cost == in_cost@[e.to as int];
                    assert(edges@[l].to != root);
                    if !low {
                        assert(0 <= edges@[l].cost <= 2 * WEIGHT_LIMIT);
                        assert(0 <= e.cost <= 2 * WEIGHT_LIMIT);
                    }
                    assert(in_cost@[e.to as int] <= e.cost);
                } else {
                    assert(-WEIGHT_LIMIT <= e.cost <= WEIGHT_LIMIT);
                }
            }
            let reduced = e.cost - in_cost[e.to];
            next.push(LevelEdge { id: e.id, from: a, to: b, cost: reduced });
            proof {
                src = src.push(i as int);
            }
        }
        proof {
            assert(edges@[i as int] == e);
            assert forall|l: int|
                0 <= l < i + 1 && ids@[(#[trigger] edges@[l]).from as int] != ids@[edges@[l].to as int] implies exists|j: int|
                    0 <= j < next@.len() && src[j] == l by {
                if l == i {
                    assert(src[src.len() - 1] == l);
                } else {
                    let j = choose|j: int| 0 <= j < src0.len() && src0[j] == l;
                    assert(src[j] == src0[j]);
                }
            }
        }
        i = i + 1;
    }
    proof {
        assert forall|x: int, y: int| 0 <= x < y < next@.len() implies (#[trigger] next@[x]).id != (#[trigger] next@[y]).id by {
            assert(src[x] < src[y]);
        }
        assert forall|j: int| 0 <= j < next@.len() implies (#[trigger] next@[j]).from < k && next@[j].to < k
            && next@[j].id < m by {
            let e = edges@[src[j]];
        }
    }
    (next, Ghost(src))
}

/// An id of the contracted edges is an id of the edges, and its head there
/// is the group of its head here.
proof fn lemma_next_id(
    edges: Seq<LevelEdge>,
    next: Seq<LevelEdge>,
    src: Seq<int>,
    ids: Seq<usize>,
    in_cost: Seq<i64>,
    n: int,
    m: int,
    root: int,
    k: int,
    id: usize,
)
    requires
        level_ok(edges, n, m, root),
        level_ok(next, k, m, ids[root] as int),
        contracted(edges, next, src, ids, in_cost),
        has_id(next, id),
    ensures
        has_id(edges, id),
        0 <= id_to(edges, id) < n,
        id_to(next, id) == ids[id_to(edges, id)],
        0 <= id_from(edges, id) < n,
        id_from(next, id) == ids[id_from(edges, id)],
        id_cost(next, id) == id_cost(edges, id) - in_cost[id_to(edges, id)],
{
    let j = choose|j: int| 0 <= j < next.len() && #[trigger] next[j].id == id;
    lemma_id_to(next, j);
    let i = src[j];
    assert(edges[i].id == id);
    lemma_id_to(edges, i);
}

/// The contracted solution costs its cost here less the cheapest costs
/// into the heads of its edges.
proof fn lemma_t_cost_next(
    edges: Seq<LevelEdge>,
    next: Seq<LevelEdge>,
    src: Seq<int>,
    ids: Seq<usize>,
    in_cost: Seq<i64>,
    n: int,
    m: int,
    root: int,
    k: int,
    a: Seq<EdgeId>,
)
    requires
        level_ok(edges, n, m, root),
        level_ok(next, k, m, ids[root] as int),
        contracted(edges, next, src, ids, in_cost),
        forall|j: int| 0 <= j < a.len() ==> has_id(next, #[trigger] a[j].0),
    ensures
        t_cost(next, a) == t_cost(edges, a) - heads_sum(in_cost, heads(edges, a)),
    decreases a.len(),
{
    if a.len() > 0 {
        let b = a.drop_last();
        assert forall|j: int| 0 <= j < b.len() implies has_id(next, #[trigger] b[j].0) by {
            assert(b[j] == a[j]);
        }
        lemma_t_cost_next(edges, next, src, ids, in_cost, n, m, root, k, b);
        assert(has_id(next, a[a.len() - 1].0));
        lemma_next_id(edges, next, src, ids, in_cost, n, m, root, k, a.last().0);
        assert(heads(edges, a).drop_last() =~= heads(edges, b));
    }
}

/// The expanded solution costs the contracted one plus the cheapest costs
/// into all nodes but the root.
proof fn lemma_expand_cost(
    edges: Seq<LevelEdge>,
    next: Seq<LevelEdge>,
    src: Seq<int>,
    ids: Seq<usize>,
    in_cost: Seq<i64>,
    parent: Seq<usize>,
    in_edge: Seq<usize>,
    n: int,
    m: int,
    root: int,
    k: int,
    arb: Seq<EdgeId>,
    result: Seq<EdgeId>,
    owners: Seq<int>,
)
    requires
        level_ok(edges, n, m, root),
        level_ok(next, k, m, ids[root] as int),
        contracted(edges, next, src, ids, in_cost),
        forall|x: int|
            0 <= x < n && x != root ==> in_entry(edges, x, #[trigger] in_cost[x], parent[x], in_edge[x]),
        enters_once(next, k, ids[root] as int, arb),
        enters_once(edges, n, root, result),
        result.len() == arb.len() + owners.len(),
        forall|j: int| 0 <= j < arb.len() ==> #[trigger] result[j] == arb[j],
        forall|j: int|
            0 <= j < owners.len() ==> {
                let o = #[trigger] owners[j];
                &&& 0 <= o < n
                &&& o != root
                &&& result[arb.len() + j].0 == in_edge[o]
            },
    ensures
        t_cost(edges, result) == t_cost(next, arb) + excl_sum(in_cost, root, n),
{
    let cpart = result.subrange(arb.len() as int, result.len() as int);
    assert(result =~= arb + cpart);
    lemma_t_cost_concat(edges, arb, cpart);
    assert forall|l: int| 0 <= l < owners.len() implies {
        let o = #[trigger] owners[l];
        &&& 0 <= o < n
        &&& o != root
        &&& cpart[l].0 == in_edge[o]
    } by {
        assert(cpart[l] == result[arb.len() + l]);
    }
    lemma_owner_cost(edges, n, m, root, in_cost, parent, in_edge, cpart, owners);
    assert forall|l: int| 0 <= l < arb.len() implies has_id(next, #[trigger] arb[l].0) by {
    }
    lemma_t_cost_next(edges, next, src, ids, in_cost, n, m, root, k, arb);
    lemma_heads_total(edges, n, m, root, result, in_cost);
    assert(heads(edges, result) =~= heads(edges, arb) + heads(edges, cpart));
    lemma_heads_sum_concat(in_cost, heads(edges, arb), heads(edges, cpart));
}

/// A set closed off in the contracted graph is closed off here, taken as
/// the nodes of its groups.
proof fn lemma_lift_closed(
    edges: Seq<LevelEdge>,
    next: Seq<LevelEdge>,
    src: Seq<int>,
    ids: Seq<usize>,
    in_cost: Seq<i64>,
    n: int,
    m: int,
    root: int,
    k: int,
    s2: Set<int>,
)
    requires
        level_ok(edges, n, m, root),
        ids.len() == n,
        forall|x: int| 0 <= x < n ==> (#[trigger] ids[x]) < k,
        onto(ids, n, k),
        contracted(edges, next, src, ids, in_cost),
        closed_off(next, k, ids[root] as int, s2),
    ensures
        exists|s: Set<int>| closed_off(edges, n, root, s),
{
    let s = Set::new(|x: int| 0 <= x < n && s2.contains(ids[x] as int));
    let c = choose|c: int| #[trigger] s2.contains(c);
    assert(id_used(ids, n, c));
    let x = choose|x: int| 0 <= x < n && #[trigger] ids[x] == c;
    assert(s.contains(x));
    assert forall|i: int| 0 <= i < edges.len() && s.contains(#[trigger] edges[i].to as int) implies s.contains(
        edges[i].from as int,
    ) by {
        let e = edges[i];
        if !s2.contains(ids[e.from as int] as int) {
            assert(ids[e.from as int] != ids[e.to as int]);
            let j = choose|j: int| 0 <= j < next.len() && src[j] == i;
            assert(next[j].to == ids[e.to as int]);
        }
    }
    assert(closed_off(edges, n, root, s));
}

/// The cheapest edges into the nodes of the cycles that the contracted
/// solution does not enter, added to it, enter every node once.
#[verifier::rlimit(60)]
proof fn lemma_expand(
    edges: Seq<LevelEdge>,
    next: Seq<LevelEdge>,
    src: Seq<int>,
    ids: Seq<usize>,
    in_cost: Seq<i64>,
    parent: Seq<usize>,
    in_edge: Seq<usize>,
    n: int,
    m: int,
    root: int,
    k: int,
    k0: int,
    arb: Seq<EdgeId>,
    has_entry: Seq<bool>,
    result: Seq<EdgeId>,
    owners: Seq<int>,
)
    requires
        level_ok(edges, n, m, root),
        level_ok(next, k, m, ids[root] as int),
        contracted(edges, next, src, ids, in_cost),
        ids.len() == n,
        forall|x: int| 0 <= x < n ==> (#[trigger] ids[x]) < k,
        forall|x: int, y: int|
            0 <= x < n && 0 <= y < n && #[trigger] ids[x] == #[trigger] ids[y] && ids[x] >= k0 ==> x == y,
        cycles_closed(ids, parent, n, root, k0),
        ids[root] >= k0,
        forall|x: int|
            0 <= x < n && x != root ==> in_entry(edges, x, #[trigger] in_cost[x], parent[x], in_edge[x]),
        enters_once(next, k, ids[root] as int, arb),
        has_entry.len() == n,
        forall|x: int| 0 <= x < n ==> #[trigger] has_entry[x] == entered(edges, arb, x),
        result.len() == arb.len() + owners.len(),
        forall|j: int| 0 <= j < arb.len() ==> #[trigger] result[j] == arb[j],
        forall|j: int|
            0 <= j < owners.len() ==> {
                let o = #[trigger] owners[j];
                &&& 0 <= o < n
                &&& o != root
                &&& !has_entry[o]
                &&& result[arb.len() + j].0 == in_edge[o]
            },
        forall|a: int, b: int| 0 <= a < b < owners.len() ==> #[trigger] owners[a] < #[trigger] owners[b],
        forall|x: int|
            0 <= x < n && x != root && !has_entry[x] && ids[x] == ids[parent[x] as int] ==> #[trigger] listed(owners, x),
    ensures
        enters_once(edges, n, root, result),
{
    let alen = arb.len();
    assert forall|j: int| 0 <= j < owners.len() implies has_id(edges, #[trigger] result[alen + j].0) && id_to(
        edges,
        result[alen + j].0,
    ) == owners[j] by {
        let o = owners[j];
        assert(in_entry(edges, o, in_cost[o], parent[o], in_edge[o]));
        let i = choose|i: int|
            0 <= i < edges.len() && (#[trigger] edges[i]).id == in_edge[o] && edges[i].to == o && edges[i].from
                == parent[o] && parent[o] != o && edges[i].cost == in_cost[o];
        lemma_id_to(edges, i);
    }
    assert forall|j: int| 0 <= j < alen implies has_id(edges, #[trigger] result[j].0) && 0 <= id_to(edges, result[j].0)
        < n && id_to(next, result[j].0) == ids[id_to(edges, result[j].0)] by {
        assert(has_id(next, arb[j].0));
        lemma_next_id(edges, next, src, ids, in_cost, n, m, root, k, arb[j].0);
    }
    assert forall|j: int| 0 <= j < result.len() implies has_id(edges, #[trigger] result[j].0) by {
        if j >= alen {
            assert(result[alen + (j - alen)] == result[j]);
        }
    }
    assert forall|x: int| 0 <= x < n && x != root implies #[trigger] entered(edges, result, x) by {
        let c = ids[x] as int;
        if c == ids[root] {
            assert(x == root);
        }
        assert(entered(next, arb, c));
        let j = choose|j: int| 0 <= j < arb.len() && #[trigger] id_to(next, arb[j].0) == c;
        assert(result[j] == arb[j]);
        let y = id_to(edges, arb[j].0);
        if has_entry[x] {
            assert(entered(edges, arb, x));
            let j2 = choose|j2: int| 0 <= j2 < arb.len() && #[trigger] id_to(edges, arb[j2].0) == x;
            assert(result[j2] == arb[j2]);
            assert(id_to(edges, result[j2].0) == x);
        } else {
            if y == x {
                assert(entered(edges, arb, x));
            }
            assert(ids[y] == ids[x]);
            if c >= k0 {
                assert(x == y);
            }
            assert(ids[x] == ids[parent[x] as int]);
            assert(listed(owners, x));
            let jo = choose|jo: int| 0 <= jo < owners.len() && owners[jo] == x;
            assert(id_to(edges, result[alen + jo].0) == x);
        }
    }
    assert forall|j1: int, j2: int|
        0 <= j1 < result.len() && 0 <= j2 < result.len() && #[trigger] id_to(edges, result[j1].0) == #[trigger] id_to(
            edges,
            result[j2].0,
        ) implies j1 == j2 by {
        let z = id_to(edges, result[j1].0);
        if j1 < alen && j2 < alen {
            assert(result[j1] == arb[j1] && result[j2] == arb[j2]);
            assert(id_to(next, arb[j1].0) == id_to(next, arb[j2].0));
        } else if j1 >= alen && j2 >= alen {
            let a = j1 - alen;
            let b = j2 - alen;
            assert(result[alen + a] == result[j1]);
            assert(result[alen + b] == result[j2]);
            if a < b {
                assert(owners[a] < owners[b]);
            } else if b < a {
                assert(owners[b] < owners[a]);
            }
        } else if j1 < alen {
            let b = j2 - alen;
            assert(result[alen + b] == result[j2]);
            assert(result[j1] == arb[j1]);
            assert(entered(edges, arb, owners[b]));
        } else {
            let a = j1 - alen;
            assert(result[alen + a] == result[j1]);
            assert(result[j2] == arb[j2]);
            assert(entered(edges, arb, owners[a]));
        }
    }
    assert forall|j: int| 0 <= j < result.len() implies #[trigger] id_to(edges, result[j].0) != root by {
        if j < alen {
            assert(result[j] == arb[j]);
            assert(id_to(next, arb[j].0) != ids[root]);
        } else {
            assert(result[alen + (j - alen)] == result[j]);
        }
    }
}

/// A set closed off here, taken as the set of its nodes' groups, is closed
/// off in the contracted graph: a group with a node in the set lies in it
/// whole, as its nodes lead to each other along edges of the graph.
proof fn lemma_lower_closed(
    edges: Seq<LevelEdge>,
    next: Seq<LevelEdge>,
    src: Seq<int>,
    ids: Seq<usize>,
    in_cost: Seq<i64>,
    parent: Seq<usize>,
    in_edge: Seq<usize>,
    n: int,
    root: int,
    k: int,
    k0: int,
    s: Set<int>,
)
    requires
        ids.len() == n,
        0 <= root < n,
        forall|x: int| 0 <= x < n ==> (#[trigger] ids[x]) < k,
        contracted(edges, next, src, ids, in_cost),
        forall|i: int| 0 <= i < edges.len() ==> (#[trigger] edges[i]).to < n,
        forall|x: int, y: int|
            0 <= x < n && 0 <= y < n && #[trigger] ids[x] == #[trigger] ids[y] && ids[x] >= k0 ==> x == y,
        groups_lead(ids, parent, n, k0),
        forall|y: int| 0 <= y < n && #[trigger] ids[y] == ids[root] ==> y == root,
        forall|y: int|
            0 <= y < n && y != root ==> in_entry(edges, y, #[trigger] in_cost[y], parent[y], in_edge[y]),
        closed_off(edges, n, root, s),
    ensures
        exists|s2: Set<int>| closed_off(next, k, ids[root] as int, s2),
{
    let s2 = Set::new(|c: int| exists|x: int| #[trigger] s.contains(x) && ids[x] as int == c);
    assert forall|c: int| #[trigger] s2.contains(c) implies 0 <= c < k by {
        let x = choose|x: int| #[trigger] s.contains(x) && ids[x] as int == c;
    }
    if s2.contains(ids[root] as int) {
        let x = choose|x: int| #[trigger] s.contains(x) && ids[x] as int == ids[root] as int;
        assert(x == root);
    }
    let x0 = choose|x: int| #[trigger] s.contains(x);
    assert(s2.contains(ids[x0] as int));
    assert forall|j: int| 0 <= j < next.len() && s2.contains(#[trigger] next[j].to as int) implies s2.contains(
        next[j].from as int,
    ) by {
        let i = src[j];
        let e = edges[i];
        let x = choose|x: int| #[trigger] s.contains(x) && ids[x] as int == next[j].to as int;
        let y = e.to as int;
        assert(0 <= i < edges.len());
        assert(0 <= y < n && 0 <= x < n);
        assert(ids[x] == ids[y]);
        if ids[x] >= k0 {
            assert(x == y);
        } else {
            assert(leads(parent, x, y));
            let jj = choose|jj: nat| #[trigger] iterate(parent, x, jj) == y;
            lemma_closed_iterate(edges, n, root, in_cost, parent, in_edge, s, x, jj);
        }
        assert(s.contains(edges[i].to as int));
        assert(s.contains(edges[i].from as int));
        assert(s2.contains(ids[e.from as int] as int));
    }
    assert(closed_off(next, k, ids[root] as int, s2));
}

/// Where nothing is closed off in the contracted graph, nothing is closed
/// off here.
proof fn lemma_lift_open(
    edges: Seq<LevelEdge>,
    next: Seq<LevelEdge>,
    src: Seq<int>,
    ids1: Seq<usize>,
    ids: Seq<usize>,
    in_cost: Seq<i64>,
    parent: Seq<usize>,
    in_edge: Seq<usize>,
    n: int,
    root: int,
    k: int,
    k0: int,
)
    requires
        ids.len() == n,
        ids1.len() == n,
        0 <= root < n,
        forall|x: int| 0 <= x < n ==> (#[trigger] ids[x]) < k,
        contracted(edges, next, src, ids, in_cost),
        forall|i: int| 0 <= i < edges.len() ==> (#[trigger] edges[i]).to < n,
        forall|x: int, y: int|
            0 <= x < n && 0 <= y < n && #[trigger] ids[x] == #[trigger] ids[y] && ids[x] >= k0 ==> x == y,
        groups_lead(ids1, parent, n, k0),
        forall|x: int| 0 <= x < n && ids1[x] != usize::MAX ==> #[trigger] ids[x] == ids1[x],
        forall|x: int| 0 <= x < n && ids1[x] == usize::MAX ==> #[trigger] ids[x] >= k0,
        forall|y: int| 0 <= y < n && #[trigger] ids[y] == ids[root] ==> y == root,
        forall|y: int|
            0 <= y < n && y != root ==> in_entry(edges, y, #[trigger] in_cost[y], parent[y], in_edge[y]),
        forall|s2: Set<int>| !closed_off(next, k, ids[root] as int, s2),
    ensures
        forall|s: Set<int>| !closed_off(edges, n, root, s),
        groups_lead(ids, parent, n, k0),
{
    assert forall|x: int, y: int|
        0 <= x < n && 0 <= y < n && #[trigger] ids[x] == #[trigger] ids[y] && ids[x] < k0 implies leads(
        parent,
        x,
        y,
    ) by {
        assert(ids1[x] != usize::MAX && ids1[y] != usize::MAX);
    }
    assert forall|s: Set<int>| !closed_off(edges, n, root, s) by {
        if closed_off(edges, n, root, s) {
            lemma_lower_closed(edges, next, src, ids, in_cost, parent, in_edge, n, root, k, k0, s);
        }
    }
}

/// What the expansion of a contracted solution into `result` leaves: the
/// contracted solution first, then the cheapest edges into the nodes of
/// the cycles that it does not enter.
pub open spec fn expanded(
    edges: Seq<LevelEdge>,
    next: Seq<LevelEdge>,
    src: Seq<int>,
    ids: Seq<usize>,
    in_cost: Seq<i64>,
    parent: Seq<usize>,
    in_edge: Seq<usize>,
    n: int,
    m: int,
    root: int,
    k: int,
    k0: int,
    arb: Seq<EdgeId>,
    has_entry: Seq<bool>,
    result: Seq<EdgeId>,
    owners: Seq<int>,
) -> bool {
    &&& level_ok(edges, n, m, root)
    &&& level_ok(next, k, m, ids[root] as int)
    &&& contracted(edges, next, src, ids, in_cost)
    &&& ids.len() == n
    &&& forall|x: int| 0 <= x < n ==> (#[trigger] ids[x]) < k
    &&& forall|x: int, y: int|
        0 <= x < n && 0 <= y < n && #[trigger] ids[x] == #[trigger] ids[y] && ids[x] >= k0 ==> x == y
    &&& cycles_closed(ids, parent, n, root, k0)
    &&& groups_lead(ids, parent, n, k0)
    &&& ids[root] >= k0
    &&& forall|x: int|
        0 <= x < n && x != root ==> in_entry(edges, x, #[trigger] in_cost[x], parent[x], in_edge[x])
    &&& enters_once(next, k, ids[root] as int, arb)
    &&& enters_once(edges, n, root, result)
    &&& has_entry.len() == n
    &&& forall|x: int| 0 <= x < n ==> #[trigger] has_entry[x] == entered(edges, arb, x)
    &&& result.len() == arb.len() + owners.len()
    &&& forall|j: int| 0 <= j < arb.len() ==> #[trigger] result[j] == arb[j]
    &&& forall|j: int|
        0 <= j < owners.len() ==> {
            let o = #[trigger] owners[j];
            &&& 0 <= o < n
            &&& o != root
            &&& !has_entry[o]
            &&& result[arb.len() + j].0 == in_edge[o]
        }
    &&& forall|x: int|
        0 <= x < n && x != root && !has_entry[x] && ids[x] == ids[parent[x] as int] ==> #[trigger] listed(owners, x)
}

/// A group other than the root's is entered at one node `e` by the
/// contracted solution; going back from `e` leaves for the group that the
/// contracted solution goes back to, and from the group's other nodes it
/// follows the parents within the group.
proof fn lemma_group_entry(
    edges: Seq<LevelEdge>,
    next: Seq<LevelEdge>,
    src: Seq<int>,
    ids: Seq<usize>,
    in_cost: Seq<i64>,
    parent: Seq<usize>,
    in_edge: Seq<usize>,
    n: int,
    m: int,
    root: int,
    k: int,
    k0: int,
    arb: Seq<EdgeId>,
    has_entry: Seq<bool>,
    result: Seq<EdgeId>,
    owners: Seq<int>,
    c: int,
) -> (e: int)
    requires
        expanded(edges, next, src, ids, in_cost, parent, in_edge, n, m, root, k, k0, arb, has_entry, result, owners),
        0 <= c < k,
        c != ids[root],
    ensures
        0 <= e < n,
        ids[e] == c,
        0 <= t_parent(edges, result, n)[e] < n,
        ids[t_parent(edges, result, n)[e] as int] == t_parent(next, arb, k)[c],
        forall|y: int|
            0 <= y < n && #[trigger] ids[y] == c && y != e ==> t_parent(edges, result, n)[y] == parent[y] && parent[y]
                < n && ids[parent[y] as int] == c,
{
    let alen = arb.len();
    assert(entered(next, arb, c));
    let j = choose|j: int| 0 <= j < arb.len() && #[trigger] id_to(next, arb[j].0) == c;
    assert(has_id(next, arb[j].0));
    lemma_next_id(edges, next, src, ids, in_cost, n, m, root, k, arb[j].0);
    let e = id_to(edges, arb[j].0);
    assert(result[j] == arb[j]);
    lemma_tail_of(edges, result, j);
    lemma_tail_of(next, arb, j);
    assert forall|y: int| 0 <= y < n && #[trigger] ids[y] == c && y != e implies t_parent(edges, result, n)[y]
        == parent[y] && parent[y] < n && ids[parent[y] as int] == c by {
        if ids[y] >= k0 {
            assert(ids[y] == ids[e]);
        }
        assert(ids[y] < k0);
        if has_entry[y] {
            assert(entered(edges, arb, y));
            let j2 = choose|j2: int| 0 <= j2 < arb.len() && #[trigger] id_to(edges, arb[j2].0) == y;
            assert(has_id(next, arb[j2].0));
            lemma_next_id(edges, next, src, ids, in_cost, n, m, root, k, arb[j2].0);
            assert(id_to(next, arb[j2].0) == c);
            assert(j2 == j);
        }
        assert(listed(owners, y));
        let l = choose|l: int| 0 <= l < owners.len() && owners[l] == y;
        assert(in_entry(edges, y, in_cost[y], parent[y], in_edge[y]));
        let i = choose|i: int|
            0 <= i < edges.len() && (#[trigger] edges[i]).id == in_edge[y] && edges[i].to == y && edges[i].from
                == parent[y] && parent[y] != y && edges[i].cost == in_cost[y];
        lemma_id_to(edges, i);
        assert(result[alen + l].0 == in_edge[y]);
        lemma_tail_of(edges, result, alen + l);
    }
    e
}

/// The nodes of a group from which the contracted solution goes back to
/// the root's group in `d` steps lead to the root along the expansion.
proof fn lemma_depth(
    edges: Seq<LevelEdge>,
    next: Seq<LevelEdge>,
    src: Seq<int>,
    ids: Seq<usize>,
    in_cost: Seq<i64>,
    parent: Seq<usize>,
    in_edge: Seq<usize>,
    n: int,
    m: int,
    root: int,
    k: int,
    k0: int,
    arb: Seq<EdgeId>,
    has_entry: Seq<bool>,
    result: Seq<EdgeId>,
    owners: Seq<int>,
    d: nat,
)
    requires
        expanded(edges, next, src, ids, in_cost, parent, in_edge, n, m, root, k, k0, arb, has_entry, result, owners),
    ensures
        forall|c: int, x: int|
            0 <= c < k && 0 <= x < n && #[trigger] ids[x] == c && #[trigger] iterate(t_parent(next, arb, k), c, d)
                == ids[root] as int ==> leads(t_parent(edges, result, n), x, root),
    decreases d,
{
    let tp = t_parent(edges, result, n);
    let tp2 = t_parent(next, arb, k);
    assert forall|c: int, x: int|
        0 <= c < k && 0 <= x < n && #[trigger] ids[x] == c && #[trigger] iterate(tp2, c, d) == ids[root] as int implies leads(
        tp,
        x,
        root,
    ) by {
        if c == ids[root] {
            assert(ids[x] == ids[root]);
            assert(x == root);
            assert(iterate(tp, x, 0) == root);
        } else {
            assert(iterate(tp2, c, 0) == c);
            assert(d > 0);
            let e = lemma_group_entry(
                edges,
                next,
                src,
                ids,
                in_cost,
                parent,
                in_edge,
                n,
                m,
                root,
                k,
                k0,
                arb,
                has_entry,
                result,
                owners,
                c,
            );
            let f = tp[e] as int;
            let c2 = ids[f] as int;
            lemma_iterate_add(tp2, c, 1, (d - 1) as nat);
            assert(iterate(tp2, c, 1) == tp2[c] as int);
            assert(iterate(tp2, c2, (d - 1) as nat) == ids[root] as int);
            lemma_depth(
                edges,
                next,
                src,
                ids,
                in_cost,
                parent,
                in_edge,
                n,
                m,
                root,
                k,
                k0,
                arb,
                has_entry,
                result,
                owners,
                (d - 1) as nat,
            );
            assert(leads(tp, f, root));
            let j1 = choose|j1: nat| #[trigger] iterate(tp, f, j1) == root;
            lemma_iterate_add(tp, e, 1, j1);
            assert(iterate(tp, e, 0) == e);
            assert(iterate(tp, e, 1) == f);
            if x == e {
                assert(iterate(tp, x, 1 + j1) == root);
            } else {
                if ids[x] >= k0 {
                    assert(ids[x] == ids[e]);
                }
                assert(leads(parent, x, e));
                let j0 = choose|j0: nat| #[trigger] iterate(parent, x, j0) == e;
                let dset = Set::new(|y: int| 0 <= y < n && ids[y] as int == c);
                lemma_leads_within(parent, tp, dset, x, e, j0);
                let j3 = choose|j3: nat| #[trigger] iterate(tp, x, j3) == e;
                lemma_iterate_add(tp, x, j3, 1 + j1);
                assert(iterate(tp, x, j3 + (1 + j1)) == root);
            }
        }
    }
}

/// Where the contracted solution leads back to the root's group from every
/// group, its expansion leads back to the root from every node.
proof fn lemma_expand_rooted(
    edges: Seq<LevelEdge>,
    next: Seq<LevelEdge>,
    src: Seq<int>,
    ids: Seq<usize>,
    in_cost: Seq<i64>,
    parent: Seq<usize>,
    in_edge: Seq<usize>,
    n: int,
    m: int,
    root: int,
    k: int,
    k0: int,
    arb: Seq<EdgeId>,
    has_entry: Seq<bool>,
    result: Seq<EdgeId>,
    owners: Seq<int>,
)
    requires
        expanded(edges, next, src, ids, in_cost, parent, in_edge, n, m, root, k, k0, arb, has_entry, result, owners),
        rooted(next, arb, k, ids[root] as int),
    ensures
        rooted(edges, result, n, root),
{
    let tp2 = t_parent(next, arb, k);
    assert forall|x: int| 0 <= x < n implies #[trigger] leads(t_parent(edges, result, n), x, root) by {
        let c = ids[x] as int;
        assert(leads(tp2, c, ids[root] as int));
        let d = choose|d: nat| #[trigger] iterate(tp2, c, d) == ids[root] as int;
        lemma_depth(edges, next, src, ids, in_cost, parent, in_edge, n, m, root, k, k0, arb, has_entry, result, owners, d);
    }
}

/// The expansion enters every node once and leads back from every node to
/// the root.
proof fn lemma_expansion(
    edges: Seq<LevelEdge>,
    next: Seq<LevelEdge>,
    src: Seq<int>,
    ids: Seq<usize>,
    in_cost: Seq<i64>,
    parent: Seq<usize>,
    in_edge: Seq<usize>,
    n: int,
    m: int,
    root: int,
    k: int,
    k0: int,
    arb: Seq<EdgeId>,
    has_entry: Seq<bool>,
    result: Seq<EdgeId>,
    owners: Seq<int>,
)
    requires
        level_ok(edges, n, m, root),
        level_ok(next, k, m, ids[root] as int),
        contracted(edges, next, src, ids, in_cost),
        ids.len() == n,
        forall|x: int| 0 <= x < n ==> (#[trigger] ids[x]) < k,
        forall|x: int, y: int|
            0 <= x < n && 0 <= y < n && #[trigger] ids[x] == #[trigger] ids[y] && ids[x] >= k0 ==> x == y,
        cycles_closed(ids, parent, n, root, k0),
        ids[root] >= k0,
        forall|x: int|
            0 <= x < n && x != root ==> in_entry(edges, x, #[trigger] in_cost[x], parent[x], in_edge[x]),
        enters_once(next, k, ids[root] as int, arb),
        has_entry.len() == n,
        forall|x: int| 0 <= x < n ==> #[trigger] has_entry[x] == entered(edges, arb, x),
        result.len() == arb.len() + owners.len(),
        forall|j: int| 0 <= j < arb.len() ==> #[trigger] result[j] == arb[j],
        forall|j: int|
            0 <= j < owners.len() ==> {
                let o = #[trigger] owners[j];
                &&& 0 <= o < n
                &&& o != root
                &&& !has_entry[o]
                &&& result[arb.len() + j].0 == in_edge[o]
            },
        forall|a: int, b: int| 0 <= a < b < owners.len() ==> #[trigger] owners[a] < #[trigger] owners[b],
        groups_lead(ids, parent, n, k0),
        rooted(next, arb, k, ids[root] as int),
        forall|x: int|
            0 <= x < n && x != root && !has_entry[x] && ids[x] == ids[parent[x] as int] ==> #[trigger] listed(owners, x),
    ensures
        enters_once(edges, n, root, result),
        rooted(edges, result, n, root),
{
    lemma_expand(edges, next, src, ids, in_cost, parent, in_edge, n, m, root, k, k0, arb, has_entry, result, owners);
    assert(expanded(edges, next, src, ids, in_cost, parent, in_edge, n, m, root, k, k0, arb, has_entry, result, owners));
    lemma_expand_rooted(edges, next, src, ids, in_cost, parent, in_edge, n, m, root, k, k0, arb, has_entry, result, owners);
}

/// `t` is an arborescence of the level: it enters every node but the root
/// once and leads back from every node to the root.
pub open spec fn arborescence(edges: Seq<LevelEdge>, n: int, root: int, t: Seq<EdgeId>) -> bool {
    enters_once(edges, n, root, t) && rooted(edges, t, n, root)
}

/// The cost of the edges of `t`, each less `f` at its head.
pub open spec fn red_cost(edges: Seq<LevelEdge>, f: Seq<i64>, t: Seq<EdgeId>) -> int
    decreases t.len(),
{
    if t.len() == 0 {
        0
    } else {
        red_cost(edges, f, t.drop_last()) + id_cost(edges, t.last().0) - f[id_to(edges, t.last().0)]
    }
}

/// The entries of `t` that satisfy `p`, in order.
pub open spec fn keep_by(t: Seq<EdgeId>, p: spec_fn(EdgeId) -> bool) -> Seq<EdgeId>
    decreases t.len(),
{
    if t.len() == 0 {
        t
    } else {
        let s = keep_by(t.drop_last(), p);
        if p(t.last()) {
            s.push(t.last())
        } else {
            s
        }
    }
}

/// The cost of `t` is its reduced cost plus `f` over its heads.
proof fn lemma_red_split(edges: Seq<LevelEdge>, f: Seq<i64>, t: Seq<EdgeId>)
    ensures
        t_cost(edges, t) == red_cost(edges, f, t) + heads_sum(f, heads(edges, t)),
    decreases t.len(),
{
    if t.len() > 0 {
        lemma_red_split(edges, f, t.drop_last());
        assert(heads(edges, t).drop_last() =~= heads(edges, t.drop_last()));
    }
}

/// What `keep_by` keeps comes from `t` and satisfies `p`; everything in `t`
/// that satisfies `p` is kept; distinct entries stay distinct; and where
/// what is dropped has a reduced cost of at least zero, the kept entries
/// cost no more than all.
proof fn lemma_keep_by(edges: Seq<LevelEdge>, f: Seq<i64>, t: Seq<EdgeId>, p: spec_fn(EdgeId) -> bool)
    requires
        forall|j: int|
            0 <= j < t.len() && !p(#[trigger] t[j]) ==> id_cost(edges, t[j].0) - f[id_to(edges, t[j].0)] >= 0,
    ensures
        forall|i: int|
            0 <= i < keep_by(t, p).len() ==> p(#[trigger] keep_by(t, p)[i]) && t.contains(keep_by(t, p)[i]),
        forall|j: int| 0 <= j < t.len() && p(#[trigger] t[j]) ==> keep_by(t, p).contains(t[j]),
        t.no_duplicates() ==> keep_by(t, p).no_duplicates(),
        red_cost(edges, f, keep_by(t, p)) <= red_cost(edges, f, t),
    decreases t.len(),
{
    if t.len() > 0 {
        let d = t.drop_last();
        assert forall|j: int| 0 <= j < d.len() && !p(#[trigger] d[j]) implies id_cost(edges, d[j].0) - f[id_to(
            edges,
            d[j].0,
        )] >= 0 by {
            assert(d[j] == t[j]);
        }
        lemma_keep_by(edges, f, d, p);
        let s = keep_by(d, p);
        let k = keep_by(t, p);
        let last = t.last();
        assert forall|i: int| 0 <= i < k.len() implies p(#[trigger] k[i]) && t.contains(k[i]) by {
            if i < s.len() {
                assert(k[i] == s[i]);
                assert(d.contains(s[i]));
                let j = choose|j: int| 0 <= j < d.len() && d[j] == s[i];
                assert(t[j] == s[i]);
            } else {
                assert(k[i] == last);
                assert(t[t.len() - 1] == last);
            }
        }
        assert forall|j: int| 0 <= j < t.len() && p(#[trigger] t[j]) implies k.contains(t[j]) by {
            if j < t.len() - 1 {
                assert(d[j] == t[j]);
                assert(s.contains(d[j]));
                let i = choose|i: int| 0 <= i < s.len() && s[i] == d[j];
                assert(k[i] == s[i]);
            } else {
                assert(k[k.len() - 1] == t[j]);
            }
        }
        if t.no_duplicates() {
            assert(d.no_duplicates()) by {
                assert forall|a: int, b: int| 0 <= a < d.len() && 0 <= b < d.len() && a != b implies d[a] != d[b] by {
                    assert(d[a] == t[a] && d[b] == t[b]);
                }
            }
            if p(last) {
                assert forall|a: int, b: int| 0 <= a < k.len() && 0 <= b < k.len() && a != b implies k[a] != k[b] by {
                    if a < s.len() && b < s.len() {
                        assert(k[a] == s[a] && k[b] == s[b]);
                    } else if a < s.len() {
                        assert(k[a] == s[a]);
                        assert(d.contains(s[a]));
                        let j = choose|j: int| 0 <= j < d.len() && d[j] == s[a];
                        assert(t[j] == s[a]);
                        assert(t[t.len() - 1] == last);
                    } else if b < s.len() {
                        assert(k[b] == s[b]);
                        assert(d.contains(s[b]));
                        let j = choose|j: int| 0 <= j < d.len() && d[j] == s[b];
                        assert(t[j] == s[b]);
                        assert(t[t.len() - 1] == last);
                    }
                }
            }
        }
        if p(last) {
            assert(k.drop_last() =~= s);
        } else {
            assert(!p(t[t.len() - 1]));
        }
    }
}

/// Going back along the parents from a node that is its own parent stays
/// there.
proof fn lemma_fixed_point(tp: Seq<usize>, x: int, j: nat)
    requires
        tp[x] == x,
    ensures
        iterate(tp, x, j) == x,
    decreases j,
{
    if j > 0 {
        lemma_fixed_point(tp, x, (j - 1) as nat);
    }
}

/// The fewest steps back along `tp` that lead from `x` to `root`.
#[verifier::opaque]
pub open spec fn dist(tp: Seq<usize>, root: int, x: int) -> nat {
    choose|j: nat| iterate(tp, x, j) == root && forall|i: nat| i < j ==> #[trigger] iterate(tp, x, i) != root
}

/// Where `x` leads to `root`, it does so in a fewest number of steps.
proof fn lemma_dist(tp: Seq<usize>, root: int, x: int, j0: nat)
    requires
        iterate(tp, x, j0) == root,
    ensures
        iterate(tp, x, dist(tp, root, x)) == root,
        forall|i: nat| i < dist(tp, root, x) ==> #[trigger] iterate(tp, x, i) != root,
        dist(tp, root, x) <= j0,
    decreases j0,
{
    reveal(dist);
    if exists|i: nat| i < j0 && #[trigger] iterate(tp, x, i) == root {
        let i = choose|i: nat| i < j0 && #[trigger] iterate(tp, x, i) == root;
        lemma_dist(tp, root, x, i);
    } else {
        assert(iterate(tp, x, j0) == root && forall|i: nat| i < j0 ==> #[trigger] iterate(tp, x, i) != root);
    }
}

/// A node of group `c` that leads back to the root in the fewest steps.
pub open spec fn best(tp: Seq<usize>, root: int, ids: Seq<usize>, n: int, c: int) -> int {
    choose|x: int|
        0 <= x < n && ids[x] == c && forall|y: int|
            0 <= y < n && ids[y] == c ==> dist(tp, root, x) <= #[trigger] dist(tp, root, y)
}

/// Among the first `k` nodes, one of group `c` leads back in the fewest
/// steps, if any is of group `c`.
proof fn lemma_best_below(tp: Seq<usize>, root: int, ids: Seq<usize>, c: int, k: int)
    requires
        0 <= k,
        exists|y: int| 0 <= y < k && ids[y] == c,
    ensures
        exists|x: int|
            0 <= x < k && ids[x] == c && forall|y: int|
                0 <= y < k && ids[y] == c ==> dist(tp, root, x) <= #[trigger] dist(tp, root, y),
    decreases k,
{
    if exists|y: int| 0 <= y < k - 1 && ids[y] == c {
        lemma_best_below(tp, root, ids, c, k - 1);
        let x = choose|x: int|
            0 <= x < k - 1 && ids[x] == c && forall|y: int|
                0 <= y < k - 1 && ids[y] == c ==> dist(tp, root, x) <= #[trigger] dist(tp, root, y);
        if ids[k - 1] == c && dist(tp, root, k - 1) < dist(tp, root, x) {
            assert forall|y: int| 0 <= y < k && ids[y] == c implies dist(tp, root, k - 1) <= #[trigger] dist(
                tp,
                root,
                y,
            ) by {
                if y < k - 1 {
                    assert(dist(tp, root, x) <= dist(tp, root, y));
                }
            }
        } else {
            assert forall|y: int| 0 <= y < k && ids[y] == c implies dist(tp, root, x) <= #[trigger] dist(
                tp,
                root,
                y,
            ) by {
            }
        }
    } else {
        assert(ids[k - 1] == c);
        assert forall|y: int| 0 <= y < k && ids[y] == c implies dist(tp, root, k - 1) <= #[trigger] dist(
            tp,
            root,
            y,
        ) by {
            assert(y == k - 1);
        }
    }
}

/// A group with a node has a best node.
proof fn lemma_best(tp: Seq<usize>, root: int, ids: Seq<usize>, n: int, c: int)
    requires
        0 <= n,
        exists|y: int| 0 <= y < n && ids[y] == c,
    ensures
        0 <= best(tp, root, ids, n, c) < n,
        ids[best(tp, root, ids, n, c)] == c,
        forall|y: int|
            0 <= y < n && ids[y] == c ==> dist(tp, root, best(tp, root, ids, n, c)) <= #[trigger] dist(tp, root, y),
{
    lemma_best_below(tp, root, ids, c, n);
}

/// What an arborescence of a level shows: no edge of it is a loop, each
/// costs at least the cheapest entry into its head, its entries are
/// distinct, and going back along it brings every node but the root
/// strictly nearer to the root.
proof fn lemma_arb_facts(edges: Seq<LevelEdge>, n: int, m: int, root: int, t: Seq<EdgeId>, in_cost: Seq<i64>)
    requires
        level_ok(edges, n, m, root),
        arborescence(edges, n, root, t),
        forall|i: int|
            0 <= i < edges.len() && (#[trigger] edges[i]).from != edges[i].to && edges[i].to != root
                ==> in_cost[edges[i].to as int] <= edges[i].cost,
    ensures
        t.no_duplicates(),
        forall|j: int|
            0 <= j < t.len() ==> {
                &&& 0 <= #[trigger] id_from(edges, t[j].0) < n
                &&& 0 <= id_to(edges, t[j].0) < n
                &&& id_from(edges, t[j].0) != id_to(edges, t[j].0)
                &&& id_cost(edges, t[j].0) - in_cost[id_to(edges, t[j].0)] >= 0
                &&& t_parent(edges, t, n)[id_to(edges, t[j].0)] == id_from(edges, t[j].0)
            },
        forall|x: int|
            0 <= x < n && x != root ==> {
                &&& (#[trigger] t_parent(edges, t, n)[x]) < n
                &&& dist(t_parent(edges, t, n), root, t_parent(edges, t, n)[x] as int) < dist(
                    t_parent(edges, t, n),
                    root,
                    x,
                )
            },
        forall|x: int|
            0 <= x < n ==> iterate(t_parent(edges, t, n), x, #[trigger] dist(t_parent(edges, t, n), root, x)) == root,
{
    let tp = t_parent(edges, t, n);
    assert forall|j: int| 0 <= j < t.len() implies {
        &&& 0 <= #[trigger] id_from(edges, t[j].0) < n
        &&& 0 <= id_to(edges, t[j].0) < n
        &&& id_from(edges, t[j].0) != id_to(edges, t[j].0)
        &&& id_cost(edges, t[j].0) - in_cost[id_to(edges, t[j].0)] >= 0
        &&& tp[id_to(edges, t[j].0)] == id_from(edges, t[j].0)
    } by {
        assert(has_id(edges, t[j].0));
        let i = choose|i: int| 0 <= i < edges.len() && #[trigger] edges[i].id == t[j].0;
        lemma_id_to(edges, i);
        lemma_tail_of(edges, t, j);
        let x = edges[i].to as int;
        assert(x != root);
        if edges[i].from == edges[i].to {
            assert(tp[x] == x);
            assert(leads(tp, x, root));
            let k = choose|k: nat| #[trigger] iterate(tp, x, k) == root;
            lemma_fixed_point(tp, x, k);
        }
    }
    assert(t.no_duplicates()) by {
        assert forall|a: int, b: int| 0 <= a < t.len() && 0 <= b < t.len() && a != b implies t[a] != t[b] by {
            if t[a] == t[b] {
                assert(id_to(edges, t[a].0) == id_to(edges, t[b].0));
            }
        }
    }
    assert forall|x: int| 0 <= x < n implies iterate(tp, x, #[trigger] dist(tp, root, x)) == root by {
        assert(leads(tp, x, root));
        let k = choose|k: nat| #[trigger] iterate(tp, x, k) == root;
        lemma_dist(tp, root, x, k);
    }
    assert forall|x: int| 0 <= x < n && x != root implies {
        &&& (#[trigger] tp[x]) < n
        &&& dist(tp, root, tp[x] as int) < dist(tp, root, x)
    } by {
        assert(entered(edges, t, x));
        let j = choose|j: int| 0 <= j < t.len() && #[trigger] id_to(edges, t[j].0) == x;
        assert(tp[id_to(edges, t[j].0)] == id_from(edges, t[j].0));
        let p = tp[x] as int;
        assert(0 <= p < n);
        assert(leads(tp, x, root));
        let k = choose|k: nat| #[trigger] iterate(tp, x, k) == root;
        lemma_dist(tp, root, x, k);
        let d = dist(tp, root, x);
        assert(iterate(tp, x, 0) == x);
        assert(d > 0);
        lemma_iterate_add(tp, x, 1, (d - 1) as nat);
        assert(iterate(tp, x, 1) == p);
        assert(iterate(tp, p, (d - 1) as nat) == root);
        lemma_dist(tp, root, p, (d - 1) as nat);
    }
}

/// Where each step back along `tp` from a node other than `root` lowers a
/// measure, every node leads back to `root`.
proof fn lemma_measure_leads(tp: Seq<usize>, k: int, root: int, g: spec_fn(int) -> nat, c: int, d: nat)
    requires
        0 <= c < k,
        g(c) == d,
        forall|y: int| 0 <= y < k && y != root ==> (#[trigger] tp[y]) < k && g(tp[y] as int) < g(y),
    ensures
        leads(tp, c, root),
    decreases d,
{
    if c == root {
        assert(iterate(tp, c, 0) == root);
    } else {
        let c2 = tp[c] as int;
        lemma_measure_leads(tp, k, root, g, c2, g(c2));
        let j = choose|j: nat| #[trigger] iterate(tp, c2, j) == root;
        lemma_iterate_add(tp, c, 1, j);
        assert(iterate(tp, c, 0) == c);
        assert(iterate(tp, c, 1 + j) == root);
    }
}

/// Where each edge costs in the contracted level its cost here less `f`
/// at its head here, the contracted cost is the reduced cost.
proof fn lemma_red_next(edges: Seq<LevelEdge>, next: Seq<LevelEdge>, f: Seq<i64>, a: Seq<EdgeId>)
    requires
        forall|j: int|
            0 <= j < a.len() ==> #[trigger] id_cost(next, a[j].0) == id_cost(edges, a[j].0) - f[id_to(edges, a[j].0)],
    ensures
        t_cost(next, a) == red_cost(edges, f, a),
    decreases a.len(),
{
    if a.len() > 0 {
        let b = a.drop_last();
        assert forall|j: int| 0 <= j < b.len() implies #[trigger] id_cost(next, b[j].0) == id_cost(edges, b[j].0)
            - f[id_to(edges, b[j].0)] by {
            assert(b[j] == a[j]);
        }
        lemma_red_next(edges, next, f, b);
        assert(id_cost(next, a[a.len() - 1].0) == id_cost(edges, a[a.len() - 1].0) - f[id_to(edges, a[a.len() - 1].0)]);
    }
}

/// The levels before and after a contraction, as `minimum_cost` leaves
/// them.
pub open spec fn contract_ok(
    edges: Seq<LevelEdge>,
    next: Seq<LevelEdge>,
    src: Seq<int>,
    ids: Seq<usize>,
    in_cost: Seq<i64>,
    n: int,
    m: int,
    root: int,
    k: int,
) -> bool {
    &&& level_ok(edges, n, m, root)
    &&& level_ok(next, k, m, ids[root] as int)
    &&& contracted(edges, next, src, ids, in_cost)
    &&& ids.len() == n
    &&& forall|x: int| 0 <= x < n ==> (#[trigger] ids[x]) < k
    &&& onto(ids, n, k)
    &&& forall|y: int| 0 <= y < n && #[trigger] ids[y] == ids[root] ==> y == root
    &&& forall|i: int|
        0 <= i < edges.len() && (#[trigger] edges[i]).from != edges[i].to && edges[i].to != root
            ==> in_cost[edges[i].to as int] <= edges[i].cost
}

/// An edge of an arborescence that enters a group other than the root's
/// at its node nearest the root.
pub open spec fn entry_pred(edges: Seq<LevelEdge>, tp: Seq<usize>, root: int, ids: Seq<usize>, n: int) -> spec_fn(
    EdgeId,
) -> bool {
    |id: EdgeId|
        {
            let x = id_to(edges, id.0);
            ids[x] != ids[root] && x == best(tp, root, ids, n, ids[x] as int)
        }
}

/// The kept edges are edges of the contracted level between different
/// groups, entering their group at its best node.
#[verifier::rlimit(40)]
proof fn lemma_kept(
    edges: Seq<LevelEdge>,
    next: Seq<LevelEdge>,
    src: Seq<int>,
    ids: Seq<usize>,
    in_cost: Seq<i64>,
    n: int,
    m: int,
    root: int,
    k: int,
    t: Seq<EdgeId>,
)
    requires
        contract_ok(edges, next, src, ids, in_cost, n, m, root, k),
        arborescence(edges, n, root, t),
    ensures
        ({
            let tp = t_parent(edges, t, n);
            let t3 = keep_by(t, entry_pred(edges, tp, root, ids, n));
            &&& t3.no_duplicates()
            &&& red_cost(edges, in_cost, t3) <= red_cost(edges, in_cost, t)
            &&& forall|j: int|
                0 <= j < t.len() && entry_pred(edges, tp, root, ids, n)(#[trigger] t[j]) ==> t3.contains(t[j])
            &&& forall|i: int|
                0 <= i < t3.len() ==> {
                    &&& has_id(next, #[trigger] t3[i].0)
                    &&& id_to(next, t3[i].0) == ids[id_to(edges, t3[i].0)]
                    &&& id_to(next, t3[i].0) != ids[root]
                    &&& id_to(edges, t3[i].0) == best(tp, root, ids, n, ids[id_to(edges, t3[i].0)] as int)
                    &&& id_to(edges, t3[i].0) != root
                    &&& 0 <= id_to(edges, t3[i].0) < n
                    &&& id_from(next, t3[i].0) == ids[tp[id_to(edges, t3[i].0)] as int]
                    &&& id_cost(next, t3[i].0) == id_cost(edges, t3[i].0) - in_cost[id_to(edges, t3[i].0)]
                    &&& t.contains(t3[i])
                }
        }),
{
    let tp = t_parent(edges, t, n);
    let p = entry_pred(edges, tp, root, ids, n);
    lemma_arb_facts(edges, n, m, root, t, in_cost);
    let t3 = keep_by(t, p);
    assert forall|j: int| 0 <= j < t.len() && !p(#[trigger] t[j]) implies id_cost(edges, t[j].0) - in_cost[id_to(
        edges,
        t[j].0,
    )] >= 0 by {
        assert(0 <= id_from(edges, t[j].0) < n);
    }
    lemma_keep_by(edges, in_cost, t, p);
    assert forall|i: int| 0 <= i < t3.len() implies {
        &&& has_id(next, #[trigger] t3[i].0)
        &&& id_to(next, t3[i].0) == ids[id_to(edges, t3[i].0)]
        &&& id_to(next, t3[i].0) != ids[root]
        &&& id_to(edges, t3[i].0) == best(tp, root, ids, n, ids[id_to(edges, t3[i].0)] as int)
        &&& id_to(edges, t3[i].0) != root
        &&& 0 <= id_to(edges, t3[i].0) < n
        &&& id_from(next, t3[i].0) == ids[tp[id_to(edges, t3[i].0)] as int]
        &&& id_cost(next, t3[i].0) == id_cost(edges, t3[i].0) - in_cost[id_to(edges, t3[i].0)]
        &&& t.contains(t3[i])
    } by {
        assert(p(t3[i]) && t.contains(t3[i]));
        let j = choose|j: int| 0 <= j < t.len() && t[j] == t3[i];
        assert(0 <= id_from(edges, t[j].0) < n);
        let x = id_to(edges, t3[i].0);
        let c = ids[x] as int;
        let q = tp[x] as int;
        assert(q == id_from(edges, t[j].0));
        assert(x != root);
        assert(dist(tp, root, q) < dist(tp, root, x));
        lemma_best(tp, root, ids, n, c);
        if ids[q] == ids[x] {
            assert(dist(tp, root, x) <= dist(tp, root, q));
        }
        assert(has_id(edges, t3[i].0));
        let ie = choose|ie: int| 0 <= ie < edges.len() && #[trigger] edges[ie].id == t3[i].0;
        lemma_id_to(edges, ie);
        assert(ids[edges[ie].from as int] != ids[edges[ie].to as int]);
        let jn = choose|jn: int| 0 <= jn < next.len() && src[jn] == ie;
        assert(next[jn].id == edges[ie].id);
        assert(has_id(next, t3[i].0));
        lemma_next_id(edges, next, src, ids, in_cost, n, m, root, k, t3[i].0);
    }
}

/// The kept edges enter every group but the root's once.
#[verifier::rlimit(40)]
proof fn lemma_kept_enters(
    edges: Seq<LevelEdge>,
    next: Seq<LevelEdge>,
    src: Seq<int>,
    ids: Seq<usize>,
    in_cost: Seq<i64>,
    n: int,
    m: int,
    root: int,
    k: int,
    t: Seq<EdgeId>,
)
    requires
        contract_ok(edges, next, src, ids, in_cost, n, m, root, k),
        arborescence(edges, n, root, t),
    ensures
        enters_once(next, k, ids[root] as int, keep_by(t, entry_pred(edges, t_parent(edges, t, n), root, ids, n))),
{
    let tp = t_parent(edges, t, n);
    let p = entry_pred(edges, tp, root, ids, n);
    let t3 = keep_by(t, p);
    let root2 = ids[root] as int;
    lemma_kept(edges, next, src, ids, in_cost, n, m, root, k, t);
    assert forall|c: int| 0 <= c < k && c != root2 implies #[trigger] entered(next, t3, c) by {
        assert(id_used(ids, n, c));
        lemma_best(tp, root, ids, n, c);
        let x = best(tp, root, ids, n, c);
        assert(x != root);
        assert(entered(edges, t, x));
        let j = choose|j: int| 0 <= j < t.len() && #[trigger] id_to(edges, t[j].0) == x;
        assert(p(t[j]));
        assert(t3.contains(t[j]));
        let i = choose|i: int| 0 <= i < t3.len() && t3[i] == t[j];
        assert(id_to(next, t3[i].0) == ids[id_to(edges, t3[i].0)]);
    }
    assert forall|i1: int, i2: int|
        0 <= i1 < t3.len() && 0 <= i2 < t3.len() && #[trigger] id_to(next, t3[i1].0) == #[trigger] id_to(
            next,
            t3[i2].0,
        ) implies i1 == i2 by {
        let x1 = id_to(edges, t3[i1].0);
        let x2 = id_to(edges, t3[i2].0);
        assert(x1 == x2);
        assert(t.contains(t3[i1]) && t.contains(t3[i2]));
        let j1 = choose|j: int| 0 <= j < t.len() && t[j] == t3[i1];
        let j2 = choose|j: int| 0 <= j < t.len() && t[j] == t3[i2];
        assert(id_to(edges, t[j1].0) == id_to(edges, t[j2].0));
        assert(j1 == j2);
    }
}

/// The kept edges lead back from every group to the root's.
#[verifier::rlimit(40)]
proof fn lemma_kept_rooted(
    edges: Seq<LevelEdge>,
    next: Seq<LevelEdge>,
    src: Seq<int>,
    ids: Seq<usize>,
    in_cost: Seq<i64>,
    n: int,
    m: int,
    root: int,
    k: int,
    t: Seq<EdgeId>,
)
    requires
        contract_ok(edges, next, src, ids, in_cost, n, m, root, k),
        arborescence(edges, n, root, t),
    ensures
        rooted(next, keep_by(t, entry_pred(edges, t_parent(edges, t, n), root, ids, n)), k, ids[root] as int),
{
    let tp = t_parent(edges, t, n);
    let p = entry_pred(edges, tp, root, ids, n);
    let t3 = keep_by(t, p);
    let root2 = ids[root] as int;
    lemma_arb_facts(edges, n, m, root, t, in_cost);
    lemma_kept(edges, next, src, ids, in_cost, n, m, root, k, t);
    lemma_kept_enters(edges, next, src, ids, in_cost, n, m, root, k, t);
    let tp3 = t_parent(next, t3, k);
    let g = |c: int| dist(tp, root, best(tp, root, ids, n, c));
    assert forall|c: int| 0 <= c < k && c != root2 implies (#[trigger] tp3[c]) < k && g(tp3[c] as int) < g(c) by {
        assert(entered(next, t3, c));
        let i = choose|i: int| 0 <= i < t3.len() && #[trigger] id_to(next, t3[i].0) == c;
        lemma_tail_of(next, t3, i);
        let x = id_to(edges, t3[i].0);
        let q = tp[x] as int;
        assert(tp3[c] == ids[q]);
        assert(x != root && 0 <= x < n);
        assert(q < n);
        lemma_best(tp, root, ids, n, ids[q] as int);
        assert(dist(tp, root, best(tp, root, ids, n, ids[q] as int)) <= dist(tp, root, q));
        assert(dist(tp, root, q) < dist(tp, root, x));
    }
    assert forall|c: int| 0 <= c < k implies #[trigger] leads(tp3, c, root2) by {
        lemma_measure_leads(tp3, k, root2, g, c, g(c));
    }
}

/// Any arborescence here yields one of the contracted level, made of the
/// edges that enter each group other than the root's at its node nearest
/// the root, that costs there at most its cost here less the cheapest
/// entries into all nodes but the root.
proof fn lemma_contract(
    edges: Seq<LevelEdge>,
    next: Seq<LevelEdge>,
    src: Seq<int>,
    ids: Seq<usize>,
    in_cost: Seq<i64>,
    n: int,
    m: int,
    root: int,
    k: int,
    t: Seq<EdgeId>,
) -> (t3: Seq<EdgeId>)
    requires
        contract_ok(edges, next, src, ids, in_cost, n, m, root, k),
        arborescence(edges, n, root, t),
    ensures
        arborescence(next, k, ids[root] as int, t3),
        t_cost(next, t3) <= t_cost(edges, t) - excl_sum(in_cost, root, n),
{
    let tp = t_parent(edges, t, n);
    let t3 = keep_by(t, entry_pred(edges, tp, root, ids, n));
    lemma_kept(edges, next, src, ids, in_cost, n, m, root, k, t);
    lemma_kept_enters(edges, next, src, ids, in_cost, n, m, root, k, t);
    lemma_kept_rooted(edges, next, src, ids, in_cost, n, m, root, k, t);
    assert forall|j: int| 0 <= j < t3.len() implies #[trigger] id_cost(next, t3[j].0) == id_cost(edges, t3[j].0)
        - in_cost[id_to(edges, t3[j].0)] by {
    }
    lemma_red_next(edges, next, in_cost, t3);
    lemma_red_split(edges, in_cost, t);
    lemma_heads_total(edges, n, m, root, t, in_cost);
    t3
}

/// Every arborescence costs at least the cheapest entries into all nodes
/// but the root.
proof fn lemma_base_min(edges: Seq<LevelEdge>, n: int, m: int, root: int, in_cost: Seq<i64>, t: Seq<EdgeId>)
    requires
        level_ok(edges, n, m, root),
        forall|i: int|
            0 <= i < edges.len() && (#[trigger] edges[i]).from != edges[i].to && edges[i].to != root
                ==> in_cost[edges[i].to as int] <= edges[i].cost,
        arborescence(edges, n, root, t),
    ensures
        excl_sum(in_cost, root, n) <= t_cost(edges, t),
{
    lemma_arb_facts(edges, n, m, root, t, in_cost);
    let p = |id: EdgeId| false;
    assert forall|j: int| 0 <= j < t.len() && !p(#[trigger] t[j]) implies id_cost(edges, t[j].0) - in_cost[id_to(
        edges,
        t[j].0,
    )] >= 0 by {
        assert(0 <= id_from(edges, t[j].0) < n);
    }
    lemma_keep_by(edges, in_cost, t, p);
    let kept = keep_by(t, p);
    if kept.len() > 0 {
        assert(p(kept[0]));
    }
    assert(red_cost(edges, in_cost, kept) == 0);
    lemma_red_split(edges, in_cost, t);
    lemma_heads_total(edges, n, m, root, t, in_cost);
}

/// A least arborescence of the contracted level, expanded, costs no more
/// than any arborescence here.
proof fn lemma_min_lift(
    edges: Seq<LevelEdge>,
    next: Seq<LevelEdge>,
    src: Seq<int>,
    ids: Seq<usize>,
    in_cost: Seq<i64>,
    n: int,
    m: int,
    root: int,
    k: int,
    cost: int,
    total: int,
)
    requires
        contract_ok(edges, next, src, ids, in_cost, n, m, root, k),
        forall|t3: Seq<EdgeId>| arborescence(next, k, ids[root] as int, t3) ==> cost <= t_cost(next, t3),
        total == excl_sum(in_cost, root, n),
    ensures
        forall|t: Seq<EdgeId>| arborescence(edges, n, root, t) ==> cost + total <= t_cost(edges, t),
{
    assert forall|t: Seq<EdgeId>| arborescence(edges, n, root, t) implies cost + total <= t_cost(edges, t) by {
        let t3 = lemma_contract(edges, next, src, ids, in_cost, n, m, root, k, t);
    }
}

/// Where the cheapest entries form no cycle, they form a least
/// arborescence, and nothing is closed off.
proof fn lemma_base_case(
    edges: Seq<LevelEdge>,
    n: int,
    m: int,
    root: int,
    in_cost: Seq<i64>,
    parent: Seq<usize>,
    in_edge: Seq<usize>,
    t: Seq<EdgeId>,
    owners: Seq<int>,
    total: int,
)
    requires
        level_ok(edges, n, m, root),
        parents_ok(parent, n, root),
        forall|x: int|
            0 <= x < n && x != root ==> in_entry(edges, x, #[trigger] in_cost[x], parent[x], in_edge[x]),
        forall|x: int| 0 <= x < n ==> #[trigger] leads(parent, x, root),
        t.len() == owners.len(),
        forall|j: int|
            0 <= j < owners.len() ==> {
                let o = #[trigger] owners[j];
                &&& 0 <= o < n
                &&& o != root
                &&& t[j].0 == in_edge[o]
            },
        forall|a: int, b: int| 0 <= a < b < owners.len() ==> #[trigger] owners[a] < #[trigger] owners[b],
        forall|x: int| 0 <= x < n && x != root ==> #[trigger] listed(owners, x),
        forall|i: int|
            0 <= i < edges.len() && (#[trigger] edges[i]).from != edges[i].to && edges[i].to != root
                ==> in_cost[edges[i].to as int] <= edges[i].cost,
        total == excl_sum(in_cost, root, n),
        -0x10_0000 * n <= total <= 0x20_0000 * n,
    ensures
        enters_once(edges, n, root, t),
        total == t_cost(edges, t),
        -cost_bound(n) <= total <= cost_bound(n),
        forall|s: Set<int>| !closed_off(edges, n, root, s),
        rooted(edges, t, n, root),
        forall|t2: Seq<EdgeId>| arborescence(edges, n, root, t2) ==> total <= t_cost(edges, t2),
{
    lemma_own(edges, n, m, root, in_cost, parent, in_edge, t, owners);
    lemma_cost_bound(n, 0, 0, total);
    lemma_owner_cost(edges, n, m, root, in_cost, parent, in_edge, t, owners);
    lemma_heads_total(edges, n, m, root, t, in_cost);
    lemma_none_closed(edges, n, root, in_cost, parent, in_edge);
    lemma_base_rooted(edges, n, m, root, in_cost, parent, in_edge, t, owners);
    assert forall|t2: Seq<EdgeId>| arborescence(edges, n, root, t2) implies total <= t_cost(edges, t2) by {
        lemma_base_min(edges, n, m, root, in_cost, t2);
    }
}

/// `x` occurs in `owners`.
pub open spec fn listed(owners: Seq<int>, x: int) -> bool {
    exists|j: int| 0 <= j < owners.len() && owners[j] == x
}

/// The cheapest edges into the nodes, listed by their heads, enter every
/// node but the root once.
proof fn lemma_own(
    edges: Seq<LevelEdge>,
    n: int,
    m: int,
    root: int,
    in_cost: Seq<i64>,
    parent: Seq<usize>,
    in_edge: Seq<usize>,
    t: Seq<EdgeId>,
    owners: Seq<int>,
)
    requires
        level_ok(edges, n, m, root),
        forall|x: int|
            0 <= x < n && x != root ==> in_entry(edges, x, #[trigger] in_cost[x], parent[x], in_edge[x]),
        t.len() == owners.len(),
        forall|j: int|
            0 <= j < owners.len() ==> {
                let o = #[trigger] owners[j];
                &&& 0 <= o < n
                &&& o != root
                &&& t[j].0 == in_edge[o]
            },
        forall|a: int, b: int| 0 <= a < b < owners.len() ==> #[trigger] owners[a] < #[trigger] owners[b],
        forall|x: int| 0 <= x < n && x != root ==> #[trigger] listed(owners, x),
    ensures
        enters_once(edges, n, root, t),
{
    assert forall|j: int| 0 <= j < owners.len() implies has_id(edges, #[trigger] t[j].0) && id_to(edges, t[j].0)
        == owners[j] by {
        let o = owners[j];
        assert(in_entry(edges, o, in_cost[o], parent[o], in_edge[o]));
        let i = choose|i: int|
            0 <= i < edges.len() && (#[trigger] edges[i]).id == in_edge[o] && edges[i].to == o && edges[i].from
                == parent[o] && parent[o] != o && edges[i].cost == in_cost[o];
        lemma_id_to(edges, i);
    }
    assert forall|x: int| 0 <= x < n && x != root implies #[trigger] entered(edges, t, x) by {
        assert(listed(owners, x));
        let j = choose|j: int| 0 <= j < owners.len() && owners[j] == x;
        assert(id_to(edges, t[j].0) == x);
    }
    assert forall|j1: int, j2: int|
        0 <= j1 < t.len() && 0 <= j2 < t.len() && #[trigger] id_to(edges, t[j1].0) == #[trigger] id_to(edges, t[j2].0)
            implies j1 == j2 by {
        if j1 < j2 {
            assert(owners[j1] < owners[j2]);
        } else if j2 < j1 {
            assert(owners[j2] < owners[j1]);
        }
    }
}

/// Where every node leads to the root along the parents, so does it along
/// the cheapest edges into the nodes.
proof fn lemma_base_rooted(
    edges: Seq<LevelEdge>,
    n: int,
    m: int,
    root: int,
    in_cost: Seq<i64>,
    parent: Seq<usize>,
    in_edge: Seq<usize>,
    t: Seq<EdgeId>,
    owners: Seq<int>,
)
    requires
        level_ok(edges, n, m, root),
        parents_ok(parent, n, root),
        forall|x: int|
            0 <= x < n && x != root ==> in_entry(edges, x, #[trigger] in_cost[x], parent[x], in_edge[x]),
        t.len() == owners.len(),
        forall|j: int|
            0 <= j < owners.len() ==> {
                let o = #[trigger] owners[j];
                &&& 0 <= o < n
                &&& o != root
                &&& t[j].0 == in_edge[o]
            },
        forall|x: int| 0 <= x < n && x != root ==> #[trigger] listed(owners, x),
        enters_once(edges, n, root, t),
        forall|x: int| 0 <= x < n ==> #[trigger] leads(parent, x, root),
    ensures
        rooted(edges, t, n, root),
{
    let tp = t_parent(edges, t, n);
    let d = Set::new(|y: int| 0 <= y < n);
    assert forall|y: int| #[trigger] d.contains(y) && y != root implies tp[y] == parent[y] && d.contains(
        parent[y] as int,
    ) by {
        assert(listed(owners, y));
        let j = choose|j: int| 0 <= j < owners.len() && owners[j] == y;
        assert(in_entry(edges, y, in_cost[y], parent[y], in_edge[y]));
        let i = choose|i: int|
            0 <= i < edges.len() && (#[trigger] edges[i]).id == in_edge[y] && edges[i].to == y && edges[i].from
                == parent[y] && parent[y] != y && edges[i].cost == in_cost[y];
        lemma_id_to(edges, i);
        assert(t[j].0 == in_edge[y]);
        lemma_tail_of(edges, t, j);
    }
    assert forall|x: int| 0 <= x < n implies #[trigger] leads(tp, x, root) by {
        assert(leads(parent, x, root));
        let j = choose|j: nat| #[trigger] iterate(parent, x, j) == root;
        lemma_leads_within(parent, tp, d, x, root, j);
    }
}

/// The cost of the contracted solution plus the cheapest costs into the
/// nodes stays within the bound for `n` nodes.
proof fn lemma_cost_bound(n: int, n2: int, c: int, total: int)
    requires
        1 <= n,
        0 <= n2 <= n - 1,
        -cost_bound(n2) <= c <= cost_bound(n2),
        -0x10_0000 * n <= total <= 0x20_0000 * n,
    ensures
        -cost_bound(n) <= c + total <= cost_bound(n),
        -cost_bound(n) <= total <= cost_bound(n),
        n <= NODE_LIMIT ==> cost_bound(n) <= 0x2000_0000_0000_0000,
{
    assert(n <= 0x10_0000 ==> 0x20_0000 * n * n <= 0x2000_0000_0000_0000) by (nonlinear_arith)
        requires
            1 <= n,
    ;
    assert(n2 * n2 <= (n - 1) * (n - 1)) by (nonlinear_arith)
        requires
            0 <= n2 <= n - 1,
    ;
    assert(n <= n * n) by (nonlinear_arith)
        requires
            1 <= n,
    ;
    assert(0x20_0000 * n2 * n2 + 0x20_0000 * n <= 0x20_0000 * n * n) by (nonlinear_arith)
        requires
            1 <= n,
            n2 * n2 <= (n - 1) * (n - 1),
    ;
    assert(0x20_0000 * n <= 0x20_0000 * n * n) by (nonlinear_arith)
        requires
            1 <= n,
    ;
}

/// One more node's cheapest cost keeps the running total within bounds.
proof fn lemma_total_step(x: int, total: int, c: int)
    requires
        0 <= x < NODE_LIMIT,
        -0x10_0000 * x <= total <= 0x20_0000 * x,
        -WEIGHT_LIMIT <= c <= 2 * WEIGHT_LIMIT,
    ensures
        -0x10_0000 * (x + 1) <= total + c <= 0x20_0000 * (x + 1),
        -0x1000_0000_0000 <= total + c <= 0x1000_0000_0000,
{
    assert(0x20_0000 * (x + 1) <= 0x1000_0000_0000) by (nonlinear_arith)
        requires
            0 <= x < 0x10_0000,
    ;
    assert(-0x10_0000 * (x + 1) >= -0x1000_0000_0000) by (nonlinear_arith)
        requires
            0 <= x < 0x10_0000,
    ;
}

/// `s` is a non-empty set of nodes of the graph without the root that no
/// edge enters from outside: none of them can be reached from the root.
pub open spec fn cut_off(edges: Seq<Edge<WeightEdge>>, n: int, root: int, s: Set<int>) -> bool {
    &&& forall|x: int| #[trigger] s.contains(x) ==> 0 <= x < n
    &&& !s.contains(root)
    &&& exists|x: int| #[trigger] s.contains(x)
    &&& forall|i: int| 0 <= i < edges.len() && s.contains(#[trigger] edges[i].v.0 as int) ==> s.contains(edges[i].u.0 as int)
}

/// Some edge of `t` has head `x`.
pub open spec fn has_head(edges: Seq<Edge<WeightEdge>>, t: Seq<EdgeId>, x: int) -> bool {
    exists|j: int| 0 <= j < t.len() && #[trigger] edges[t[j].0 as int].v.0 == x
}

/// `t` names edges of the graph, and every node but the root is the head
/// of exactly one of them, the root of none.
pub open spec fn enters_each_once(edges: Seq<Edge<WeightEdge>>, n: int, root: int, t: Seq<EdgeId>) -> bool {
    &&& forall|j: int| 0 <= j < t.len() ==> (#[trigger] t[j]).0 < edges.len()
    &&& forall|x: int| 0 <= x < n && x != root ==> #[trigger] has_head(edges, t, x)
    &&& forall|j1: int, j2: int|
        0 <= j1 < t.len() && 0 <= j2 < t.len() && #[trigger] edges[t[j1].0 as int].v == #[trigger] edges[t[j2].0 as int].v
            ==> j1 == j2
    &&& forall|j: int| 0 <= j < t.len() ==> #[trigger] edges[t[j].0 as int].v.0 != root
}

/// For each node, the tail of the edge of `t` that enters it.
pub open spec fn tree_parent(edges: Seq<Edge<WeightEdge>>, t: Seq<EdgeId>, n: int) -> Seq<usize> {
    Seq::new(
        n as nat,
        |x: int| edges[t[choose|j: int| 0 <= j < t.len() && #[trigger] edges[t[j].0 as int].v.0 == x].0 as int].u.0,
    )
}

/// Going back along the edges of `t`, from head to tail, leads from every
/// node to the root: with every node but the root entered once, `t` is an
/// arborescence rooted there.
pub open spec fn leads_to_root(edges: Seq<Edge<WeightEdge>>, t: Seq<EdgeId>, n: int, root: int) -> bool {
    forall|x: int| 0 <= x < n ==> #[trigger] leads(tree_parent(edges, t, n), x, root)
}

/// The total weight of the edges of `t`.
pub open spec fn weight_sum(edges: Seq<Edge<WeightEdge>>, t: Seq<EdgeId>) -> int
    decreases t.len(),
{
    if t.len() == 0 {
        0
    } else {
        weight_sum(edges, t.drop_last()) + edges[t.last().0 as int].data.weight
    }
}

/// Read on the graph, the cost of edges of the first level is their weight.
proof fn lemma_graph_cost(edges: Seq<Edge<WeightEdge>>, t: Seq<EdgeId>)
    requires
        edges.len() <= usize::MAX,
        forall|j: int| 0 <= j < t.len() ==> (#[trigger] t[j]).0 < edges.len(),
    ensures
        t_cost(graph_level(edges), t) == weight_sum(edges, t),
    decreases t.len(),
{
    let le = graph_level(edges);
    if t.len() > 0 {
        let b = t.drop_last();
        assert forall|j: int| 0 <= j < b.len() implies (#[trigger] b[j]).0 < edges.len() by {
            assert(b[j] == t[j]);
        }
        lemma_graph_cost(edges, b);
        assert forall|a: int, c: int| 0 <= a < c < le.len() implies (#[trigger] le[a]).id != (#[trigger] le[c]).id by {
        }
        let i = t.last().0 as int;
        assert(t[t.len() - 1].0 < edges.len());
        lemma_id_to(le, i);
    }
}

/// Read on the graph, what holds of the edges of the first level.
proof fn lemma_graph_level(edges: Seq<Edge<WeightEdge>>, n: int, root: int, t: Seq<EdgeId>)
    requires
        edges.len() <= usize::MAX,
        enters_once(graph_level(edges), n, root, t),
    ensures
        enters_each_once(edges, n, root, t),
{
    let le = graph_level(edges);
    assert forall|a: int, b: int| 0 <= a < b < le.len() implies (#[trigger] le[a]).id != (#[trigger] le[b]).id by {
    }
    assert forall|j: int| 0 <= j < t.len() implies (#[trigger] t[j]).0 < edges.len() && id_to(le, t[j].0)
        == edges[t[j].0 as int].v.0 by {
        assert(has_id(le, t[j].0));
        let i = choose|i: int| 0 <= i < le.len() && #[trigger] le[i].id == t[j].0;
        lemma_id_to(le, i);
    }
    assert forall|x: int| 0 <= x < n && x != root implies #[trigger] has_head(edges, t, x) by {
        assert(entered(le, t, x));
        let j = choose|j: int| 0 <= j < t.len() && #[trigger] id_to(le, t[j].0) == x;
        assert(edges[t[j].0 as int].v.0 == x);
    }
    assert forall|j1: int, j2: int|
        0 <= j1 < t.len() && 0 <= j2 < t.len() && #[trigger] edges[t[j1].0 as int].v == #[trigger] edges[t[j2].0 as int].v
            implies j1 == j2 by {
        assert(id_to(le, t[j1].0) == id_to(le, t[j2].0));
    }
    assert forall|j: int| 0 <= j < t.len() implies #[trigger] edges[t[j].0 as int].v.0 != root by {
        assert(id_to(le, t[j].0) != root);
    }
}

/// Read on the graph, going back along the edges of the first level leads
/// to the root.
proof fn lemma_graph_rooted(edges: Seq<Edge<WeightEdge>>, n: int, root: int, t: Seq<EdgeId>)
    requires
        edges.len() <= usize::MAX,
        0 <= root < n,
        forall|i: int| 0 <= i < edges.len() ==> (#[trigger] edges[i]).u.0 < n && edges[i].v.0 < n,
        enters_once(graph_level(edges), n, root, t),
        rooted(graph_level(edges), t, n, root),
    ensures
        leads_to_root(edges, t, n, root),
{
    let le = graph_level(edges);
    let tp = t_parent(le, t, n);
    let gp = tree_parent(edges, t, n);
    let d = Set::new(|y: int| 0 <= y < n);
    assert forall|a: int, b: int| 0 <= a < b < le.len() implies (#[trigger] le[a]).id != (#[trigger] le[b]).id by {
    }
    assert forall|j: int| 0 <= j < t.len() implies (#[trigger] t[j]).0 < edges.len() && id_to(le, t[j].0)
        == edges[t[j].0 as int].v.0 && id_from(le, t[j].0) == edges[t[j].0 as int].u.0 by {
        assert(has_id(le, t[j].0));
        let i = choose|i: int| 0 <= i < le.len() && #[trigger] le[i].id == t[j].0;
        lemma_id_to(le, i);
    }
    assert forall|y: int| #[trigger] d.contains(y) && y != root implies gp[y] == tp[y] && d.contains(tp[y] as int) by {
        assert(entered(le, t, y));
        let j = choose|j: int| 0 <= j < t.len() && #[trigger] id_to(le, t[j].0) == y;
        lemma_tail_of(le, t, j);
        assert(edges[t[j].0 as int].v.0 == y);
        let jj = choose|jj: int| 0 <= jj < t.len() && #[trigger] edges[t[jj].0 as int].v.0 == y;
        assert(id_to(le, t[jj].0) == y);
        assert(jj == j);
    }
    assert forall|x: int| 0 <= x < n implies #[trigger] leads(gp, x, root) by {
        assert(leads(tp, x, root));
        let j = choose|j: nat| #[trigger] iterate(tp, x, j) == root;
        lemma_leads_within(tp, gp, d, x, root, j);
    }
}

/// `t` is an arborescence of the graph rooted at `root`: it enters every
/// node but the root once and leads back from every node to the root.
pub open spec fn is_arborescence(edges: Seq<Edge<WeightEdge>>, n: int, root: int, t: Seq<EdgeId>) -> bool {
    enters_each_once(edges, n, root, t) && leads_to_root(edges, t, n, root)
}

/// An arborescence of the graph is one of the first level.
proof fn lemma_level_arb(edges: Seq<Edge<WeightEdge>>, n: int, root: int, t: Seq<EdgeId>)
    requires
        edges.len() <= usize::MAX,
        0 <= root < n,
        forall|i: int| 0 <= i < edges.len() ==> (#[trigger] edges[i]).u.0 < n && edges[i].v.0 < n,
        is_arborescence(edges, n, root, t),
    ensures
        arborescence(graph_level(edges), n, root, t),
{
    let le = graph_level(edges);
    assert forall|a: int, b: int| 0 <= a < b < le.len() implies (#[trigger] le[a]).id != (#[trigger] le[b]).id by {
    }
    assert forall|j: int| 0 <= j < t.len() implies has_id(le, #[trigger] t[j].0) && id_to(le, t[j].0)
        == edges[t[j].0 as int].v.0 && id_from(le, t[j].0) == edges[t[j].0 as int].u.0 by {
        let i = t[j].0 as int;
        assert(le[i].id == t[j].0);
        lemma_id_to(le, i);
    }
    assert forall|x: int| 0 <= x < n && x != root implies #[trigger] entered(le, t, x) by {
        assert(has_head(edges, t, x));
        let j = choose|j: int| 0 <= j < t.len() && #[trigger] edges[t[j].0 as int].v.0 == x;
        assert(id_to(le, t[j].0) == x);
    }
    assert forall|j1: int, j2: int|
        0 <= j1 < t.len() && 0 <= j2 < t.len() && #[trigger] id_to(le, t[j1].0) == #[trigger] id_to(le, t[j2].0)
            implies j1 == j2 by {
        assert(edges[t[j1].0 as int].v == edges[t[j2].0 as int].v);
    }
    assert forall|j: int| 0 <= j < t.len() implies #[trigger] id_to(le, t[j].0) != root by {
        assert(edges[t[j].0 as int].v.0 != root);
    }
    assert(enters_once(le, n, root, t));
    let tp = t_parent(le, t, n);
    let gp = tree_parent(edges, t, n);
    let d = Set::new(|y: int| 0 <= y < n);
    assert forall|y: int| #[trigger] d.contains(y) && y != root implies tp[y] == gp[y] && d.contains(gp[y] as int) by {
        assert(entered(le, t, y));
        let j = choose|j: int| 0 <= j < t.len() && #[trigger] id_to(le, t[j].0) == y;
        lemma_tail_of(le, t, j);
        assert(edges[t[j].0 as int].v.0 == y);
        let jj = choose|jj: int| 0 <= jj < t.len() && #[trigger] edges[t[jj].0 as int].v.0 == y;
        assert(id_to(le, t[jj].0) == y);
        assert(jj == j);
    }
    assert forall|x: int| 0 <= x < n implies #[trigger] leads(tp, x, root) by {
        assert(leads(gp, x, root));
        let j = choose|j: nat| #[trigger] iterate(gp, x, j) == root;
        lemma_leads_within(gp, tp, d, x, root, j);
    }
}

/// Finds a minimum-cost arborescence rooted at a given node.
pub struct Edmonds {
    num_nodes: usize,
    num_edges: usize,
}

impl Edmonds {
    /// The number of nodes of the graph last solved.
    pub closed spec fn node_count(&self) -> nat {
        self.num_nodes as nat
    }

    /// The number of edges of the graph last solved.
    pub closed spec fn edge_count(&self) -> nat {
        self.num_edges as nat
    }
}

impl Default for Edmonds {
    fn default() -> (r: Self)
        ensures
            r.node_count() == 0,
            r.edge_count() == 0,
    {
        Edmonds { num_nodes: 0, num_edges: 0 }
    }
}

impl Edmonds {
    /// Picks, for every node but `root`, one edge of `graph` that enters it,
    /// choosing them as a minimum-cost arborescence rooted at `root`, and
    /// returns their total weight and their ids; `None` where some node
    /// cannot be reached from the root.
    pub fn solve(&mut self, graph: &Graph<Directed, (), WeightEdge>, root: usize) -> (r: Option<(i64, Vec<EdgeId>)>)
        requires
            graph.endpoints_valid(),
            root < graph.nodes@.len() <= NODE_LIMIT,
            forall|i: int|
                0 <= i < graph.edges@.len() ==> -WEIGHT_LIMIT <= (#[trigger] graph.edges@[i]).data.weight
                    <= WEIGHT_LIMIT,
        ensures
            final(self).node_count() == graph.nodes@.len(),
            final(self).edge_count() == graph.edges@.len(),
            match r {
                None => exists|s: Set<int>| cut_off(graph.edges@, graph.nodes@.len() as int, root as int, s),
                Some((c, t)) => is_arborescence(graph.edges@, graph.nodes@.len() as int, root as int, t@)
                    && c == weight_sum(graph.edges@, t@) && -cost_bound(graph.nodes@.len() as int) <= c
                    <= cost_bound(graph.nodes@.len() as int) && (forall|s: Set<int>|
                    !cut_off(graph.edges@, graph.nodes@.len() as int, root as int, s)) && forall|t2: Seq<EdgeId>|
                    is_arborescence(graph.edges@, graph.nodes@.len() as int, root as int, t2) ==> c <= weight_sum(
                    graph.edges@,
                    t2,
                ),
            },
    {
        self.num_nodes = graph.nodes.len();
        self.num_edges = graph.edges.len();
        let mut edges: Vec<LevelEdge> = Vec::with_capacity(graph.edges.len());
        let mut i: usize = 0;
        while i < graph.edges.len()
            invariant
                i <= graph.edges@.len(),
                edges@ == graph_level(graph.edges@).subrange(0, i as int),
            decreases graph.edges@.len() - i,
        {
            let e = &graph.edges[i];
            edges.push(LevelEdge { id: i, from: e.u.0, to: e.v.0, cost: e.data.weight });
            proof {
                assert(edges@ =~= graph_level(graph.edges@).subrange(0, i + 1));
            }
            i = i + 1;
        }
        proof {
            let le = graph_level(graph.edges@);
            assert(edges@ =~= le);
            assert forall|a: int| 0 <= a < le.len() implies (#[trigger] le[a]).from < graph.nodes@.len() && le[a].to
                < graph.nodes@.len() && le[a].id < graph.edges@.len() by {
                assert(graph.edges@[a].u.0 < graph.nodes@.len());
            }
        }
        let r = self.minimum_cost(graph.nodes.len(), &edges, root);
        proof {
            let le = graph_level(graph.edges@);
            if r is None {
                    let s = choose|s: Set<int>| closed_off(le, graph.nodes@.len() as int, root as int, s);
                    assert forall|i: int| 0 <= i < graph.edges@.len() && s.contains(#[trigger] graph.edges@[i].v.0 as int) implies s.contains(
                        graph.edges@[i].u.0 as int,
                    ) by {
                        assert(le[i].to == graph.edges@[i].v.0);
                    }
                    assert(cut_off(graph.edges@, graph.nodes@.len() as int, root as int, s));
            } else {
                lemma_graph_level(graph.edges@, graph.nodes@.len() as int, root as int, (r->0).1@);
                lemma_graph_cost(graph.edges@, (r->0).1@);
                assert forall|i: int| 0 <= i < graph.edges@.len() implies (#[trigger] graph.edges@[i]).u.0
                    < graph.nodes@.len() && graph.edges@[i].v.0 < graph.nodes@.len() by {
                    assert(le[i].from == graph.edges@[i].u.0);
                }
                lemma_graph_rooted(graph.edges@, graph.nodes@.len() as int, root as int, (r->0).1@);
                assert forall|t2: Seq<EdgeId>|
                    is_arborescence(graph.edges@, graph.nodes@.len() as int, root as int, t2) implies (r->0).0
                    <= weight_sum(graph.edges@, t2) by {
                    lemma_level_arb(graph.edges@, graph.nodes@.len() as int, root as int, t2);
                    lemma_graph_cost(graph.edges@, t2);
                }
                assert forall|s: Set<int>| !cut_off(graph.edges@, graph.nodes@.len() as int, root as int, s) by {
                    if cut_off(graph.edges@, graph.nodes@.len() as int, root as int, s) {
                        assert forall|i: int| 0 <= i < le.len() && s.contains(#[trigger] le[i].to as int) implies s.contains(
                            le[i].from as int,
                        ) by {
                            assert(graph.edges@[i].v.0 == le[i].to);
                        }
                        assert(closed_off(le, graph.nodes@.len() as int, root as int, s));
                    }
                }
            }
        }
        r
    }

    /// The cheapest edge into each node, in `in_cost`, `parent` and
    /// `in_edge`, and the head of each edge by id.
    fn cheapest_entries(&self, n: usize, edges: &Vec<LevelEdge>, root: usize) -> (r: (
        Vec<i64>,
        Vec<usize>,
        Vec<usize>,
        Vec<usize>,
    ))
        requires
            level_ok(edges@, n as int, self.num_edges as int, root as int),
        ensures
            ({
                let (in_cost, parent, in_edge, id_node) = r;
                &&& in_cost@.len() == n && parent@.len() == n && in_edge@.len() == n
                &&& id_node@.len() == self.num_edges
                &&& forall|x: int|
                    0 <= x < n ==> #[trigger] in_cost@[x] == i64::MAX || in_entry(
                        edges@,
                        x,
                        in_cost@[x],
                        parent@[x],
                        in_edge@[x],
                    )
                &&& forall|k: int|
                    0 <= k < edges@.len() && (#[trigger] edges@[k]).from != edges@[k].to ==> in_cost@[edges@[k].to as int]
                        <= edges@[k].cost
                &&& forall|k: int| 0 <= k < edges@.len() ==> id_node@[(#[trigger] edges@[k]).id as int] == edges@[k].to
            }),
    {
        let mut in_cost: Vec<i64> = vec![i64::MAX; n];
        let mut parent: Vec<usize> = vec![usize::MAX; n];
        let mut in_edge: Vec<usize> = vec![usize::MAX; n];
        let mut id_node: Vec<usize> = vec![usize::MAX; self.num_edges];
        let mut i: usize = 0;
        while i < edges.len()
            invariant
                level_ok(edges@, n as int, self.num_edges as int, root as int),
                i <= edges@.len(),
                in_cost@.len() == n && parent@.len() == n && in_edge@.len() == n,
                id_node@.len() == self.num_edges,
                forall|x: int|
                    0 <= x < n ==> #[trigger] in_cost@[x] == i64::MAX || in_entry(
                        edges@,
                        x,
                        in_cost@[x],
                        parent@[x],
                        in_edge@[x],
                    ),
                forall|k: int|
                    0 <= k < i && (#[trigger] edges@[k]).from != edges@[k].to ==> in_cost@[edges@[k].to as int]
                        <= edges@[k].cost,
                forall|k: int| 0 <= k < i ==> id_node@[(#[trigger] edges@[k]).id as int] == edges@[k].to,
            decreases edges@.len() - i,
        {
            let e = edges[i];
            proof {
                assert(edges@[i as int] == e);
            }
            if e.from != e.to && e.cost < in_cost[e.to] {
                in_cost.set(e.to, e.cost);
                parent.set(e.to, e.from);
                in_edge.set(e.to, e.id);
                proof {
                    assert(in_entry(edges@, e.to as int, e.cost, e.from, e.id));
                }
            }
            id_node.set(e.id, e.to);
            proof {
                assert forall|k: int| 0 <= k < i + 1 implies id_node@[(#[trigger] edges@[k]).id as int]
                    == edges@[k].to by {
                    if k < i {
                        assert(edges@[k].id != edges@[i as int].id);
                    }
                }
            }
            i = i + 1;
        }
        (in_cost, parent, in_edge, id_node)
    }

    /// The cost and the edges of a minimum-cost arborescence of `n` nodes
    /// with the given edges rooted at `root`, or `None` where some nodes
    /// cannot be reached from the root.
    #[verifier::rlimit(100)]
    #[verifier::spinoff_prover]
    fn minimum_cost(&self, n: usize, edges: &Vec<LevelEdge>, root: usize) -> (r: Option<(i64, Vec<EdgeId>)>)
        requires
            level_ok(edges@, n as int, self.num_edges as int, root as int),
        ensures
            match r {
                None => exists|s: Set<int>| closed_off(edges@, n as int, root as int, s),
                Some((c, t)) => enters_once(edges@, n as int, root as int, t@) && c == t_cost(edges@, t@)
                    && -cost_bound(n as int) <= c <= cost_bound(n as int) && (forall|s: Set<int>|
                    !closed_off(edges@, n as int, root as int, s)) && rooted(edges@, t@, n as int, root as int)
                    && forall|t2: Seq<EdgeId>| arborescence(edges@, n as int, root as int, t2) ==> c <= t_cost(
                    edges@,
                    t2,
                ),
            },
        decreases n,
    {
        let m = self.num_edges;
        let (mut in_cost, parent, mut in_edge, id_node) = self.cheapest_entries(n, edges, root);
        let ghost in_cost0 = in_cost@;
        in_cost.set(root, 0);
        in_edge.set(root, usize::MAX);
        let mut total: i64 = 0;
        let mut x: usize = 0;
        while x < n
            invariant
                level_ok(edges@, n as int, m as int, root as int),
                x <= n,
                in_cost@ == in_cost0.update(root as int, 0),
                in_cost0.len() == n,
                parent@.len() == n,
                in_edge@.len() == n,
                forall|y: int|
                    0 <= y < n && y != root ==> #[trigger] in_cost0[y] == i64::MAX || in_entry(
                        edges@,
                        y,
                        in_cost0[y],
                        parent@[y],
                        in_edge@[y],
                    ),
                forall|i: int|
                    0 <= i < edges@.len() && (#[trigger] edges@[i]).from != edges@[i].to ==> in_cost0[edges@[i].to as int]
                        <= edges@[i].cost,
                forall|y: int| 0 <= y < x ==> #[trigger] in_cost@[y] != i64::MAX,
                -0x10_0000 * x <= total <= 0x20_0000 * x,
                total == excl_sum(in_cost@, root as int, x as int),
            decreases n - x,
        {
            let c = in_cost[x];
            if c == i64::MAX {
                proof {
                    let s = Set::empty().insert(x as int);
                    assert forall|i: int| 0 <= i < edges@.len() && s.contains(#[trigger] edges@[i].to as int) implies s.contains(
                        edges@[i].from as int,
                    ) by {
                        if edges@[i].from != edges@[i].to {
                            assert(in_cost0[x as int] <= edges@[i].cost);
                        }
                    }
                    assert(s.contains(x as int));
                    assert(closed_off(edges@, n as int, root as int, s));
                }
                return None;
            }
            proof {
                if x != root {
                    assert(in_entry(edges@, x as int, in_cost0[x as int], parent@[x as int], in_edge@[x as int]));
                    let kk = choose|kk: int|
                        0 <= kk < edges@.len() && (#[trigger] edges@[kk]).id == in_edge@[x as int] && edges@[kk].to == x
                            && edges@[kk].from == parent@[x as int] && parent@[x as int] != x && edges@[kk].cost == c;
                    assert(edges@[kk].to != root);
                }
                lemma_total_step(x as int, total as int, c as int);
            }
            total = total + c;
            x = x + 1;
        }
        proof {
            assert forall|y: int| 0 <= y < n && y != root implies in_entry(
                edges@,
                y,
                #[trigger] in_cost@[y],
                parent@[y],
                in_edge@[y],
            ) by {
                assert(in_cost@[y] != i64::MAX);
            }
            assert forall|y: int| 0 <= y < n && y != root implies (#[trigger] parent@[y]) < n && parent@[y] != y by {
                assert(in_entry(edges@, y, in_cost@[y], parent@[y], in_edge@[y]));
            }
        }
        let (mut ids, k0) = find_cycles(n, &parent, root);
        if k0 == 0 {
            let mut t: Vec<EdgeId> = Vec::new();
            let ghost mut owners: Seq<int> = Seq::empty();
            let mut y: usize = 0;
            while y < n
                invariant
                    level_ok(edges@, n as int, m as int, root as int),
                    y <= n,
                    in_edge@.len() == n,
                    in_edge@[root as int] == usize::MAX,
                    forall|z: int|
                        0 <= z < n && z != root ==> in_entry(edges@, z, #[trigger] in_cost@[z], parent@[z], in_edge@[z]),
                    t@.len() == owners.len(),
                    forall|j: int|
                        0 <= j < owners.len() ==> {
                            let o = #[trigger] owners[j];
                            &&& 0 <= o < y
                            &&& o != root
                            &&& t@[j].0 == in_edge@[o]
                        },
                    forall|a: int, b: int| 0 <= a < b < owners.len() ==> #[trigger] owners[a] < #[trigger] owners[b],
                    forall|z: int| 0 <= z < y && z != root ==> #[trigger] listed(owners, z),
                decreases n - y,
            {
                let id = in_edge[y];
                let ghost old_owners = owners;
                if id != usize::MAX {
                    t.push(EdgeId(id));
                    proof {
                        owners = owners.push(y as int);
                    }
                }
                proof {
                    if y != root {
                        assert(in_entry(edges@, y as int, in_cost@[y as int], parent@[y as int], in_edge@[y as int]));
                        assert(id != usize::MAX);
                        assert(owners[owners.len() - 1] == y);
                    }
                    assert forall|z: int| 0 <= z < y + 1 && z != root implies #[trigger] listed(owners, z) by {
                        if z < y {
                            assert(listed(old_owners, z));
                            let j = choose|j: int| 0 <= j < old_owners.len() && old_owners[j] == z;
                            assert(owners[j] == z);
                        } else {
                            assert(owners[owners.len() - 1] == z);
                        }
                    }
                }
                y = y + 1;
            }
            proof {
                assert forall|i: int|
                    0 <= i < edges@.len() && (#[trigger] edges@[i]).from != edges@[i].to && edges@[i].to != root implies in_cost@[edges@[i].to as int]
                        <= edges@[i].cost by {
                    assert(in_cost0[edges@[i].to as int] <= edges@[i].cost);
                }
                lemma_base_case(
                    edges@,
                    n as int,
                    m as int,
                    root as int,
                    in_cost@,
                    parent@,
                    in_edge@,
                    t@,
                    owners,
                    total as int,
                );
            }
            return Some((total, t));
        }
        let ghost ids1 = ids@;
        let k = number_rest(&mut ids, n, k0);
        proof {
            assert forall|y: int| 0 <= y < n && (#[trigger] ids@[y]) < k0 implies y != root && ids@[parent@[y] as int]
                == ids@[y] by {
                assert(ids1[y] != usize::MAX);
                assert(ids1[y] < k0);
                assert(ids1[parent@[y] as int] == ids1[y]);
            }
            if ids@[root as int] < k0 {
                assert(root != root);
            }
            assert forall|y: int| 0 <= y < n && #[trigger] ids@[y] == ids@[root as int] implies y == root by {
            }
            assert forall|y: int| 0 <= y < n && y != root implies cost_into(edges@, y, #[trigger] in_cost@[y]) by {
                assert(in_entry(edges@, y, in_cost@[y], parent@[y], in_edge@[y]));
            }
            assert forall|i: int|
                0 <= i < edges@.len() && (#[trigger] edges@[i]).from != edges@[i].to && edges@[i].to != root implies in_cost@[edges@[i].to as int]
                    <= edges@[i].cost by {
                assert(in_cost0[edges@[i].to as int] <= edges@[i].cost);
            }
        }
        let (next, Ghost(src)) = contract_edges(edges, &ids, &in_cost, n, k, m, root);
        let root2 = ids[root];
        match self.minimum_cost(k, &next, root2) {
            None => {
                proof {
                    let s2 = choose|s2: Set<int>| closed_off(next@, k as int, root2 as int, s2);
                    lemma_lift_closed(edges@, next@, src, ids@, in_cost@, n as int, m as int, root as int, k as int, s2);
                }
                None
            },
            Some((cost, arb)) => {
                proof {
                    lemma_lift_open(
                        edges@,
                        next@,
                        src,
                        ids1,
                        ids@,
                        in_cost@,
                        parent@,
                        in_edge@,
                        n as int,
                        root as int,
                        k as int,
                        k0 as int,
                    );
                }
                let ghost arb_s = arb@;
                let mut has_entry: Vec<bool> = vec![false; n];
                let mut j: usize = 0;
                while j < arb.len()
                    invariant
                        level_ok(edges@, n as int, m as int, root as int),
                        level_ok(next@, k as int, m as int, root2 as int),
                        contracted(edges@, next@, src, ids@, in_cost@),
                        enters_once(next@, k as int, root2 as int, arb@),
                        root2 == ids@[root as int],
                        id_node@.len() == m,
                        forall|i: int| 0 <= i < edges@.len() ==> id_node@[(#[trigger] edges@[i]).id as int] == edges@[i].to,
                        j <= arb@.len(),
                        has_entry@.len() == n,
                        forall|z: int|
                            0 <= z < n ==> #[trigger] has_entry@[z] == exists|l: int|
                                0 <= l < j && #[trigger] id_to(edges@, arb@[l].0) == z,
                    decreases arb@.len() - j,
                {
                    let id = arb[j].0;
                    proof {
                        assert(has_id(next@, arb@[j as int].0));
                        lemma_next_id(edges@, next@, src, ids@, in_cost@, n as int, m as int, root as int, k as int, id);
                        let i = choose|i: int| 0 <= i < edges@.len() && #[trigger] edges@[i].id == id;
                        lemma_id_to(edges@, i);
                    }
                    let to = id_node[id];
                    has_entry.set(to, true);
                    proof {
                        assert forall|z: int| 0 <= z < n implies #[trigger] has_entry@[z] == exists|l: int|
                            0 <= l < j + 1 && #[trigger] id_to(edges@, arb@[l].0) == z by {
                            if z == to {
                                assert(id_to(edges@, arb@[j as int].0) == z);
                            }
                        }
                    }
                    j = j + 1;
                }
                let mut result = arb;
                let ghost mut owners: Seq<int> = Seq::empty();
                let mut u: usize = 0;
                while u < n
                    invariant
                        u <= n,
                        parents_ok(parent@, n as int, root as int),
                        ids@.len() == n,
                        in_edge@.len() == n,
                        has_entry@.len() == n,
                        result@.len() == arb_s.len() + owners.len(),
                        forall|l: int| 0 <= l < arb_s.len() ==> #[trigger] result@[l] == arb_s[l],
                        forall|l: int|
                            0 <= l < owners.len() ==> {
                                let o = #[trigger] owners[l];
                                &&& 0 <= o < u
                                &&& o != root
                                &&& !has_entry@[o]
                                &&& result@[arb_s.len() + l].0 == in_edge@[o]
                            },
                        forall|a: int, b: int| 0 <= a < b < owners.len() ==> #[trigger] owners[a] < #[trigger] owners[b],
                        forall|z: int|
                            0 <= z < u && z != root && !has_entry@[z] && ids@[z] == ids@[parent@[z] as int] ==> #[trigger] listed(owners, z),
                    decreases n - u,
                {
                    let ghost old_owners = owners;
                    if u != root {
                        if !has_entry[u] && ids[u] == ids[parent[u]] {
                            result.push(EdgeId(in_edge[u]));
                            proof {
                                owners = owners.push(u as int);
                                assert(owners[owners.len() - 1] == u);
                            }
                        }
                    }
                    proof {
                        assert forall|z: int|
                            0 <= z < u + 1 && z != root && !has_entry@[z] && ids@[z] == ids@[parent@[z] as int] implies #[trigger] listed(owners, z) by {
                            if z < u {
                                assert(listed(old_owners, z));
                                let l = choose|l: int| 0 <= l < old_owners.len() && old_owners[l] == z;
                                assert(owners[l] == z);
                            } else {
                                assert(owners[owners.len() - 1] == z);
                            }
                        }
                    }
                    u = u + 1;
                }
                proof {
                    assert forall|z: int| 0 <= z < n implies #[trigger] has_entry@[z] == entered(edges@, arb_s, z) by {
                    }
                    lemma_expansion(
                        edges@,
                        next@,
                        src,
                        ids@,
                        in_cost@,
                        parent@,
                        in_edge@,
                        n as int,
                        m as int,
                        root as int,
                        k as int,
                        k0 as int,
                        arb_s,
                        has_entry@,
                        result@,
                        owners,
                    );
                    lemma_min_lift(
                        edges@,
                        next@,
                        src,
                        ids@,
                        in_cost@,
                        n as int,
                        m as int,
                        root as int,
                        k as int,
                        cost as int,
                        total as int,
                    );
                    lemma_cost_bound(n as int, k as int, cost as int, total as int);
                    lemma_expand_cost(
                        edges@,
                        next@,
                        src,
                        ids@,
                        in_cost@,
                        parent@,
                        in_edge@,
                        n as int,
                        m as int,
                        root as int,
                        k as int,
                        arb_s,
                        result@,
                        owners,
                    );
                }
                Some((cost + total, result))
            },
        }
    }
}

} // verus!
