//! Arcs grouped by their tail node (compressed sparse rows).
use crate::graph::direction::Directed;
use crate::graph::graph::{Edge, Graph};
use crate::shortest_path::walk::arcs_in;
use vstd::prelude::*;

verus! {

/// The weight carried by an edge of a shortest path graph.
#[derive(Clone, Copy, Debug, PartialEq, Eq, Structural)]
pub struct WeightEdge {
    pub weight: i64,
}

/// The arcs `(u, v, w)` of the edges of `edges` with the weights `ws`.
pub open spec fn arcs_of<E>(edges: Seq<Edge<E>>, ws: Seq<i64>) -> Seq<(usize, usize, i64)> {
    Seq::new(edges.len(), |i: int| (edges[i].u.0, edges[i].v.0, ws[i]))
}

/// The arcs of a shortest path graph.
pub open spec fn weighted_arcs(g: Graph<Directed, (), WeightEdge>) -> Seq<(usize, usize, i64)> {
    arcs_of(g.edges@, g.edges@.map_values(|e: Edge<WeightEdge>| e.data.weight))
}

/// The number of arcs among the first `k` whose tail is `u`.
pub open spec fn count_from(es: Seq<(usize, usize, i64)>, k: int, u: int) -> nat
    decreases k,
{
    if k <= 0 {
        0
    } else {
        count_from(es, k - 1, u) + if es[k - 1].0 == u {
            1nat
        } else {
            0nat
        }
    }
}

/// The number of arcs whose tail is below `u`: where the arcs of `u` begin.
pub open spec fn offset(es: Seq<(usize, usize, i64)>, u: int) -> nat
    decreases u,
{
    if u <= 0 {
        0
    } else {
        offset(es, u - 1) + count_from(es, es.len() as int, u - 1)
    }
}

/// `start`, `to` and `w` hold the arcs of `es` grouped by tail: the arcs of
/// `u` are at `start[u]..start[u + 1]`; `arc_edge` and `edge_arc` pair each
/// grouped arc with the arc of `es` it came from.
pub open spec fn csr_ok(
    es: Seq<(usize, usize, i64)>,
    n: int,
    start: Seq<usize>,
    to: Seq<usize>,
    w: Seq<i64>,
    arc_edge: Seq<int>,
    edge_arc: Seq<int>,
) -> bool {
    let m = es.len() as int;
    &&& start.len() == n + 1
    &&& to.len() == m
    &&& w.len() == m
    &&& arc_edge.len() == m
    &&& edge_arc.len() == m
    &&& forall|u: int| 0 <= u <= n ==> #[trigger] start[u] == offset(es, u)
    &&& start[0] == 0
    &&& start[n] == m
    &&& forall|u: int, x: int| 0 <= u <= x <= n ==> start[u] <= start[x]
    &&& forall|u: int, a: int|
        #![trigger start[u], arc_edge[a]]
        0 <= u < n && start[u] <= a < start[u + 1] ==> {
            let e = arc_edge[a];
            &&& 0 <= e < m
            &&& es[e] == (u as usize, to[a], w[a])
            &&& edge_arc[e] == a
        }
    &&& forall|e: int|
        0 <= e < m ==> {
            let a = #[trigger] edge_arc[e];
            &&& start[es[e].0 as int] <= a < start[es[e].0 as int + 1]
            &&& arc_edge[a] == e
        }
}

/// Within the row of a tail, arcs stand in the order of their edges.
pub open spec fn in_edge_order(es: Seq<(usize, usize, i64)>, edge_arc: Seq<int>) -> bool {
    forall|e1: int, e2: int|
        0 <= e1 < e2 < es.len() && es[e1].0 == es[e2].0 ==> #[trigger] edge_arc[e1] < #[trigger] edge_arc[e2]
}

/// Among the first `k` arcs, those of one tail stand in the order of their edges.
#[verifier::opaque]
spec fn ordered_upto(es: Seq<(usize, usize, i64)>, edge_arc: Seq<int>, k: int) -> bool {
    forall|e1: int, e2: int|
        0 <= e1 < e2 < k && es[e1].0 == es[e2].0 ==> #[trigger] edge_arc[e1] < #[trigger] edge_arc[e2]
}

proof fn lemma_ordered_none(es: Seq<(usize, usize, i64)>, edge_arc: Seq<int>)
    ensures
        ordered_upto(es, edge_arc, 0),
{
    reveal(ordered_upto);
}

proof fn lemma_ordered_all(es: Seq<(usize, usize, i64)>, edge_arc: Seq<int>)
    requires
        ordered_upto(es, edge_arc, es.len() as int),
    ensures
        in_edge_order(es, edge_arc),
{
    reveal(ordered_upto);
}

proof fn lemma_count_le(es: Seq<(usize, usize, i64)>, k: int, j: int, u: int)
    requires
        0 <= k <= j,
    ensures
        count_from(es, k, u) <= count_from(es, j, u),
        count_from(es, j, u) <= count_from(es, k, u) + (j - k),
    decreases j - k,
{
    if j > k {
        lemma_count_le(es, k, j - 1, u);
    }
}

proof fn lemma_count_sum(es: Seq<(usize, usize, i64)>, n: int, k: int)
    requires
        arcs_in(es, n),
        0 <= k <= es.len(),
        0 <= n,
    ensures
        offset_upto(es, k, n) == k,
    decreases k,
{
    if k > 0 {
        lemma_count_sum(es, n, k - 1);
        lemma_offset_upto_step(es, k, n);
        assert(es[k - 1].0 < n);
    } else {
        lemma_offset_upto_zero(es, n);
    }
}

/// The number of the first `k` arcs whose tail is below `u`.
spec fn offset_upto(es: Seq<(usize, usize, i64)>, k: int, u: int) -> nat
    decreases u,
{
    if u <= 0 {
        0
    } else {
        offset_upto(es, k, u - 1) + count_from(es, k, u - 1)
    }
}

proof fn lemma_offset_upto_zero(es: Seq<(usize, usize, i64)>, u: int)
    ensures
        offset_upto(es, 0, u) == 0,
    decreases u,
{
    if u > 0 {
        lemma_offset_upto_zero(es, u - 1);
    }
}

proof fn lemma_offset_upto_step(es: Seq<(usize, usize, i64)>, k: int, u: int)
    requires
        0 < k <= es.len(),
        0 <= u,
    ensures
        offset_upto(es, k, u) == offset_upto(es, k - 1, u) + if es[k - 1].0 < u {
            1int
        } else {
            0int
        },
    decreases u,
{
    if u > 0 {
        lemma_offset_upto_step(es, k, u - 1);
    }
}

proof fn lemma_offset_facts(es: Seq<(usize, usize, i64)>, n: int, u: int, x: int)
    requires
        arcs_in(es, n),
        0 <= u <= x <= n,
    ensures
        offset(es, u) <= offset(es, x),
        offset(es, x) <= es.len(),
        offset(es, n) == es.len(),
    decreases x - u,
{
    lemma_offset_same(es, n);
    lemma_count_sum(es, n, es.len() as int);
    lemma_offset_mono(es, x, n);
    lemma_offset_mono(es, u, x);
}

proof fn lemma_offset_same(es: Seq<(usize, usize, i64)>, u: int)
    ensures
        offset(es, u) == offset_upto(es, es.len() as int, u),
    decreases u,
{
    if u > 0 {
        lemma_offset_same(es, u - 1);
    }
}

proof fn lemma_offset_mono(es: Seq<(usize, usize, i64)>, u: int, x: int)
    requires
        u <= x,
    ensures
        offset(es, u) <= offset(es, x),
    decreases x - u,
{
    if u < x {
        lemma_offset_mono(es, u, x - 1);
    }
}

/// The three columns of a list of arcs grouped by tail.
pub struct Rows {
    pub start: Vec<usize>,
    pub to: Vec<usize>,
    pub weight: Vec<i64>,
    pub arc_edge: Ghost<Seq<int>>,
    pub edge_arc: Ghost<Seq<int>>,
    /// The position each arc was placed at.
    pub pos: Vec<usize>,
}

/// Groups the arcs of `edges`, weighed by `ws`, by their tail.
#[verifier::rlimit(100)]
pub fn group_by_tail<E>(n: usize, edges: &[Edge<E>], ws: &Vec<i64>) -> (r: Rows)
    requires
        ws@.len() == edges@.len(),
        arcs_in(arcs_of(edges@, ws@), n as int),
        n < usize::MAX,
    ensures
        csr_ok(arcs_of(edges@, ws@), n as int, r.start@, r.to@, r.weight@, r.arc_edge@, r.edge_arc@),
        r.pos@.len() == edges@.len(),
        forall|e: int| 0 <= e < edges@.len() ==> #[trigger] r.pos@[e] == r.edge_arc@[e],
        in_edge_order(arcs_of(edges@, ws@), r.edge_arc@),
{
    let ghost es = arcs_of(edges@, ws@);
    let m = edges.len();
    let mut degree: Vec<usize> = vec![0usize; n];
    let mut k: usize = 0;
    while k < m
        invariant
            k <= m,
            m == edges@.len(),
            es == arcs_of(edges@, ws@),
            arcs_in(es, n as int),
            degree@.len() == n,
            forall|u: int| 0 <= u < n ==> #[trigger] degree@[u] == count_from(es, k as int, u),
        decreases m - k,
    {
        let u = edges[k].u.0;
        proof {
            assert(es[k as int].0 == u);
            lemma_count_le(es, 0, k as int, u as int);
        }
        let d = degree[u];
        degree.set(u, d + 1);
        k = k + 1;
    }
    proof {
        lemma_offset_facts(es, n as int, 0, n as int);
    }
    let mut start: Vec<usize> = vec![0usize; n + 1];
    let mut u: usize = 1;
    while u <= n
        invariant
            1 <= u <= n + 1,
            n < usize::MAX,
            m == es.len(),
            arcs_in(es, n as int),
            start@.len() == n + 1,
            degree@.len() == n,
            forall|x: int| 0 <= x < n ==> #[trigger] degree@[x] == count_from(es, m as int, x),
            forall|x: int| 0 <= x < u ==> #[trigger] start@[x] == offset(es, x),
        decreases n + 1 - u,
    {
        proof {
            lemma_offset_facts(es, n as int, u as int, u as int);
        }
        let s = start[u - 1] + degree[u - 1];
        start.set(u, s);
        u = u + 1;
    }
    let mut to: Vec<usize> = vec![usize::MAX; m];
    let mut weight: Vec<i64> = vec![0i64; m];
    let mut counter: Vec<usize> = vec![0usize; n];
    let mut pos: Vec<usize> = vec![0usize; m];
    let ghost mut arc_edge: Seq<int> = Seq::new(m as nat, |i: int| 0int);
    let ghost mut edge_arc: Seq<int> = Seq::new(m as nat, |i: int| 0int);
    proof {
        assert forall|x: int, y: int| 0 <= x <= y <= n implies start@[x] <= start@[y] by {
            lemma_offset_facts(es, n as int, x, y);
        }
        lemma_offset_facts(es, n as int, n as int, n as int);
    }
    proof {
        lemma_ordered_none(es, edge_arc);
    }
    let mut k: usize = 0;
    while k < m
        invariant
            k <= m,
            m == es.len(),
            ws@.len() == m,
            es == arcs_of(edges@, ws@),
            arcs_in(es, n as int),
            start@.len() == n + 1,
            forall|x: int| 0 <= x <= n ==> #[trigger] start@[x] == offset(es, x),
            forall|x: int, y: int| 0 <= x <= y <= n ==> start@[x] <= start@[y],
            start@[n as int] == m,
            to@.len() == m,
            weight@.len() == m,
            arc_edge.len() == m,
            edge_arc.len() == m,
            counter@.len() == n,
            pos@.len() == m,
            forall|e: int| 0 <= e < k ==> #[trigger] pos@[e] == edge_arc[e],
            forall|x: int| 0 <= x < n ==> #[trigger] counter@[x] == count_from(es, k as int, x),
            forall|x: int, c: int|
                0 <= x < n && 0 <= c < counter@[x] ==> {
                    let a = start@[x] + c;
                    let e = #[trigger] arc_edge[start@[x] + c];
                    &&& 0 <= e < k
                    &&& es[e] == (x as usize, to@[a], weight@[a])
                    &&& edge_arc[e] == a
                },
            forall|e: int|
                0 <= e < k ==> {
                    let a = #[trigger] edge_arc[e];
                    &&& start@[es[e].0 as int] <= a < start@[es[e].0 as int] + counter@[es[e].0 as int]
                    &&& arc_edge[a] == e
                },
            ordered_upto(es, edge_arc, k as int),
        decreases m - k,
    {
        let u = edges[k].u.0;
        let v = edges[k].v.0;
        proof {
            assert(es[k as int] == (u, v, ws@[k as int]));
            lemma_count_le(es, k as int + 1, m as int, u as int);
            assert(start@[u as int + 1] == offset(es, u as int + 1));
        }
        let slot = start[u] + counter[u];
        to.set(slot, v);
        weight.set(slot, ws[k]);
        let cnt = counter[u];
        counter.set(u, cnt + 1);
        pos.set(k, slot);
        proof {
            let ea0 = edge_arc;
            arc_edge = arc_edge.update(slot as int, k as int);
            edge_arc = edge_arc.update(k as int, slot as int);
            assert(ordered_upto(es, edge_arc, k + 1)) by {
                reveal(ordered_upto);
                assert forall|e1: int, e2: int|
                    0 <= e1 < e2 < k + 1 && es[e1].0 == es[e2].0 implies #[trigger] edge_arc[e1] < #[trigger] edge_arc[
                        e2] by {
                    if e2 == k {
                        assert(ea0[e1] < start@[u as int] + cnt);
                    } else {
                        assert(edge_arc[e1] == ea0[e1] && edge_arc[e2] == ea0[e2]);
                    }
                }
            }
            assert forall|x: int, c: int| 0 <= x < n && 0 <= c < counter@[x] implies {
                let a = start@[x] + c;
                let e = #[trigger] arc_edge[start@[x] + c];
                &&& 0 <= e < k + 1
                &&& es[e] == (x as usize, to@[a], weight@[a])
                &&& edge_arc[e] == a
            } by {
                if x == u && c == cnt {
                } else if x == u {
                    assert(start@[x] + c != slot);
                } else {
                    lemma_count_le(es, k as int, m as int, x);
                    assert(start@[x + 1] == offset(es, x + 1));
                    if x < u {
                        assert(start@[x + 1] <= start@[u as int]);
                    } else {
                        assert(start@[u as int + 1] <= start@[x]);
                    }
                    assert(start@[x] + c != slot);
                }
            }
            assert forall|e: int| 0 <= e < k + 1 implies {
                let a = #[trigger] edge_arc[e];
                &&& start@[es[e].0 as int] <= a < start@[es[e].0 as int] + counter@[es[e].0 as int]
                &&& arc_edge[a] == e
            } by {
                if e < k {
                    let x = es[e].0 as int;
                    let a = edge_arc[e];
                    lemma_count_le(es, k as int, m as int, x);
                    assert(start@[x + 1] == offset(es, x + 1));
                    if x != u {
                        if x < u {
                            assert(start@[x + 1] <= start@[u as int]);
                        } else {
                            assert(start@[u as int + 1] <= start@[x]);
                        }
                    }
                    assert(a != slot);
                }
            }
        }
        k = k + 1;
    }
    proof {
        assert forall|x: int, a: int|
            #![trigger start@[x], arc_edge[a]]
            0 <= x < n && start@[x] <= a < start@[x + 1] implies {
            let e = arc_edge[a];
            &&& 0 <= e < m
            &&& es[e] == (x as usize, to@[a], weight@[a])
            &&& edge_arc[e] == a
        } by {
            let c = a - start@[x];
            assert(start@[x + 1] == offset(es, x + 1));
            assert(arc_edge[start@[x] + c] == arc_edge[a]);
        }
        assert forall|e: int| 0 <= e < m implies {
            let a = #[trigger] edge_arc[e];
            &&& start@[es[e].0 as int] <= a < start@[es[e].0 as int + 1]
            &&& arc_edge[a] == e
        } by {
            let x = es[e].0 as int;
            assert(start@[x + 1] == offset(es, x + 1));
        }
    }
    proof {
        lemma_ordered_all(es, edge_arc);
    }
    Rows { start, to, weight, arc_edge: Ghost(arc_edge), edge_arc: Ghost(edge_arc), pos }
}

} // verus!

verus! {

/// The weights of the edges of `g`, in edge order.
pub fn edge_weights(g: &Graph<Directed, (), WeightEdge>) -> (ws: Vec<i64>)
    ensures
        ws@.len() == g.edges@.len(),
        arcs_of(g.edges@, ws@) == weighted_arcs(*g),
{
    let mut ws: Vec<i64> = Vec::new();
    let mut i: usize = 0;
    while i < g.edges.len()
        invariant
            i <= g.edges@.len(),
            ws@.len() == i,
            forall|j: int| 0 <= j < i ==> #[trigger] ws@[j] == g.edges@[j].data.weight,
        decreases g.edges@.len() - i,
    {
        ws.push(g.edges[i].data.weight);
        i = i + 1;
    }
    assert(arcs_of(g.edges@, ws@) =~= weighted_arcs(*g));
    ws
}

/// The arcs of a graph grouped by tail: the arcs of node `u` are
/// `start[u]..start[u + 1]`, arc `i` goes to `to[i]` and weighs `weight[i]`.
pub struct CSR {
    pub num_nodes: usize,
    pub num_edges: usize,
    pub start: Vec<usize>,
    pub to: Vec<usize>,
    pub weight: Vec<i64>,
    pub arc_edge: Ghost<Seq<int>>,
    pub edge_arc: Ghost<Seq<int>>,
}

impl CSR {
    /// The rows hold the arcs `es` of `n` nodes.
    pub open spec fn holds(&self, es: Seq<(usize, usize, i64)>) -> bool {
        &&& self.num_nodes + 1 == self.start@.len()
        &&& self.num_edges == es.len()
        &&& arcs_in(es, self.num_nodes as int)
        &&& csr_ok(es, self.num_nodes as int, self.start@, self.to@, self.weight@, self.arc_edge@, self.edge_arc@)
    }

    /// No nodes and no arcs.
    pub fn new() -> (c: Self)
        ensures
            c.holds(Seq::empty()),
            c.num_nodes == 0,
    {
        let c = CSR {
            num_nodes: 0,
            num_edges: 0,
            start: vec![0usize],
            to: Vec::new(),
            weight: Vec::new(),
            arc_edge: Ghost(Seq::empty()),
            edge_arc: Ghost(Seq::empty()),
        };
        proof {
            assert(c.start@[0] == offset(Seq::<(usize, usize, i64)>::empty(), 0));
        }
        c
    }

    /// Rebuilds the rows from the edges of `graph`.
    pub fn build(&mut self, graph: &Graph<Directed, (), WeightEdge>)
        requires
            graph.endpoints_valid(),
            graph.nodes@.len() < usize::MAX,
        ensures
            final(self).holds(weighted_arcs(*graph)),
            final(self).num_nodes == graph.nodes@.len(),
            in_edge_order(weighted_arcs(*graph), final(self).edge_arc@),
    {
        let n = graph.num_nodes();
        let ws = edge_weights(graph);
        proof {
            assert(arcs_in(weighted_arcs(*graph), n as int)) by {
                assert forall|e: int| 0 <= e < weighted_arcs(*graph).len() implies (#[trigger] weighted_arcs(*graph)[e]).0 < n
                    && weighted_arcs(*graph)[e].1 < n by {
                    assert(graph.edges@[e].u.0 < n);
                }
            }
        }
        let rows = group_by_tail(n, graph.edges(), &ws);
        self.num_nodes = n;
        self.num_edges = graph.num_edges();
        self.start = rows.start;
        self.to = rows.to;
        self.weight = rows.weight;
        self.arc_edge = rows.arc_edge;
        self.edge_arc = rows.edge_arc;
    }

    /// The positions of the arcs of `u`.
    #[inline]
    pub fn neighbors(&self, u: usize) -> (r: std::ops::Range<usize>)
        requires
            u < self.num_nodes,
            self.num_nodes + 1 == self.start@.len(),
        ensures
            r.start == self.start@[u as int],
            r.end == self.start@[u + 1],
    {
        self.start[u]..self.start[u + 1]
    }
}

} // verus!

verus! {

/// Every position below `start[n]` lies in the row of some node at or after `k`.
pub proof fn lemma_arc_row(start: Seq<usize>, n: int, a: int, k: int) -> (u: int)
    requires
        start.len() == n + 1,
        0 <= k <= n,
        start[k] <= a < start[n],
        forall|x: int, y: int| 0 <= x <= y <= n ==> start[x] <= start[y],
    ensures
        k <= u < n,
        start[u] <= a < start[u + 1],
    decreases n - k,
{
    if a < start[k + 1] {
        k
    } else {
        lemma_arc_row(start, n, a, k + 1)
    }
}

} // verus!
