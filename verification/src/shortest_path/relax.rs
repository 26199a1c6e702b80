//! The relaxation loops shared by the shortest path solvers, run over arcs
//! grouped by tail.
use crate::shortest_path::csr::csr_ok;
use crate::shortest_path::walk::{
    arcs_in, is_walk, lemma_max_abs_weight, lemma_relaxed_is_shortest, lemma_walk_bound, lemma_walk_push,
    max_abs_weight, reachable, relaxed, shortest_distances, walk_end, walk_len, witnessed,
};
use crate::shortest_path::closed_walks::{
    below_walks_from, lemma_shortcut_from, lemma_walk_upper, no_negative_cycle_from,
};
use vstd::prelude::*;

verus! {

/// The distances of `d`, with `i64::MAX` read as "not reached".
pub open spec fn opt_dist(d: Seq<i64>) -> Seq<Option<i64>> {
    d.map_values(|x: i64| if x == i64::MAX { None } else { Some(x) })
}

proof fn lemma_bound_step(k: int, b: int, total: int)
    requires
        0 <= k < total,
        b >= 0,
    ensures
        (k + 1) * b <= total * b,
        k * b + b == (k + 1) * b,
        k * b >= 0,
{
    assert((k + 1) * b <= total * b) by (nonlinear_arith)
        requires
            0 <= k < total,
            b >= 0,
    ;
    assert(k * b + b == (k + 1) * b) by (nonlinear_arith);
    assert(k * b >= 0) by (nonlinear_arith)
        requires
            k >= 0,
            b >= 0,
    ;
}

proof fn lemma_bound_mono(k: int, j: int, b: int)
    requires
        0 <= k <= j,
        b >= 0,
    ensures
        k * b <= j * b,
{
    assert(k * b <= j * b) by (nonlinear_arith)
        requires
            0 <= k <= j,
            b >= 0,
    ;
}

/// What a Bellman-Ford run leaves: the distances (`i64::MAX` where no walk
/// was found), which nodes had their distance lowered, and whether the
/// distances settled within `n` rounds.
pub struct BellmanFordRun {
    pub dist: Vec<i64>,
    pub lowered: Vec<bool>,
    pub settled: bool,
}

/// Distances found so far, with the walks that give them.
struct Tentative {
    dist: Vec<i64>,
    lowered: Vec<bool>,
    walks: Ghost<Seq<Seq<int>>>,
}

impl Tentative {
    /// Every found distance is a walk length from `source` within `lim` of zero.
    #[verifier::opaque]
    spec fn inv(&self, es: Seq<(usize, usize, i64)>, n: int, source: int, lim: int) -> bool {
        &&& self.dist@.len() == n
        &&& self.lowered@.len() == n
        &&& self.walks@.len() == n
        &&& 0 <= source < n
        &&& self.dist@[source] <= 0
        &&& forall|v: int|
            0 <= v < n && #[trigger] self.dist@[v] != i64::MAX ==> {
                &&& is_walk(es, source, self.walks@[v])
                &&& walk_end(es, source, self.walks@[v]) == v
                &&& walk_len(es, self.walks@[v]) == self.dist@[v]
                &&& -lim <= self.dist@[v] <= lim
            }
        &&& forall|v: int| 0 <= v < n && #[trigger] self.lowered@[v] ==> self.dist@[v] != i64::MAX
        &&& forall|v: int| 0 <= v < n && v != source && !(#[trigger] self.lowered@[v]) ==> self.dist@[v] == i64::MAX
        &&& !self.lowered@[source] ==> self.dist@[source] == 0
        &&& self.lowered@[source] ==> self.dist@[source] < 0
    }

    proof fn lemma_inv_widen(&self, es: Seq<(usize, usize, i64)>, n: int, source: int, lim: int, lim2: int)
        requires
            self.inv(es, n, source, lim),
            lim <= lim2,
        ensures
            self.inv(es, n, source, lim2),
    {
        reveal(Tentative::inv);
    }

    proof fn lemma_inv_facts(&self, es: Seq<(usize, usize, i64)>, n: int, source: int, lim: int)
        requires
            self.inv(es, n, source, lim),
        ensures
            self.dist@.len() == n,
            self.lowered@.len() == n,
            self.dist@[source] != i64::MAX,
            forall|v: int| 0 <= v < n && #[trigger] self.dist@[v] != i64::MAX ==> -lim <= self.dist@[v] <= lim,
    {
        reveal(Tentative::inv);
    }

    /// A found distance is the length of a walk from `source`.
    proof fn lemma_walk_of(&self, es: Seq<(usize, usize, i64)>, n: int, source: int, lim: int, v: int) -> (p: Seq<int>)
        requires
            self.inv(es, n, source, lim),
            0 <= v < n,
            self.dist@[v] != i64::MAX,
        ensures
            is_walk(es, source, p),
            walk_end(es, source, p) == v,
            walk_len(es, p) == self.dist@[v],
            self.dist@[source] <= 0,
    {
        reveal(Tentative::inv);
        self.walks@[v]
    }

    fn start(n: usize, source: usize) -> (t: Self)
        requires
            source < n,
        ensures
            t.inv(es_any(), n as int, source as int, 0),
            forall|es: Seq<(usize, usize, i64)>| t.inv(es, n as int, source as int, 0),
    {
        let mut dist: Vec<i64> = vec![i64::MAX; n];
        let lowered: Vec<bool> = vec![false; n];
        dist.set(source, 0);
        let t = Tentative { dist, lowered, walks: Ghost(Seq::new(n as nat, |i: int| Seq::<int>::empty())) };
        proof {
            reveal(Tentative::inv);
        }
        t
    }

    /// Lowers the distance of `t` through the arc `e` from `u` when that is shorter.
    fn relax(
        &mut self,
        u: usize,
        t: usize,
        w: i64,
        Ghost(e): Ghost<int>,
        Ghost(es): Ghost<Seq<(usize, usize, i64)>>,
        Ghost(n): Ghost<int>,
        Ghost(source): Ghost<int>,
        Ghost(lim): Ghost<int>,
        Ghost(b): Ghost<int>,
    ) -> (changed: bool)
        requires
            old(self).inv(es, n, source, lim),
            u < n,
            t < n,
            old(self).dist@[u as int] != i64::MAX,
            0 <= e < es.len(),
            es[e] == (u, t, w),
            -b <= w <= b,
            lim >= 0,
            lim + b < i64::MAX,
        ensures
            final(self).inv(es, n, source, lim + b),
            changed == (old(self).dist@[u as int] + w < old(self).dist@[t as int]),
            !changed ==> final(self).dist@ == old(self).dist@,
            changed ==> final(self).dist@ == old(self).dist@.update(t as int, (old(self).dist@[u as int] + w) as i64),
    {
        proof {
            reveal(Tentative::inv);
        }
        let nd = self.dist[u] + w;
        if nd < self.dist[t] {
            self.dist.set(t, nd);
            self.lowered.set(t, true);
            proof {
                let walks = self.walks@;
                lemma_walk_push(es, source, walks[u as int], e);
                self.walks@ = walks.update(t as int, walks[u as int].push(e));
            }
            true
        } else {
            false
        }
    }
}

spec fn es_any() -> Seq<(usize, usize, i64)> {
    Seq::empty()
}

/// Runs at most `n` rounds of relaxing every arc, stopping after the first
/// round that changes nothing.
#[verifier::rlimit(100)]
#[verifier::spinoff_prover]
pub fn bellman_ford_rows(
    n: usize,
    start: &Vec<usize>,
    to: &Vec<usize>,
    weight: &Vec<i64>,
    source: usize,
    Ghost(es): Ghost<Seq<(usize, usize, i64)>>,
    Ghost(arc_edge): Ghost<Seq<int>>,
    Ghost(edge_arc): Ghost<Seq<int>>,
) -> (r: BellmanFordRun)
    requires
        csr_ok(es, n as int, start@, to@, weight@, arc_edge, edge_arc),
        arcs_in(es, n as int),
        source < n,
        n * es.len() * max_abs_weight(es, es.len() as int) < i64::MAX,
    ensures
        r.dist@.len() == n,
        r.lowered@.len() == n,
        r.settled ==> shortest_distances(es, source as int, opt_dist(r.dist@)),
        r.settled ==> forall|v: int|
            0 <= v < n ==> #[trigger] r.lowered@[v] == (v != source && reachable(es, source as int, v)),
        r.settled ==> r.dist@[source as int] == 0,
        no_negative_cycle_from(es, source as int) ==> r.settled,
{
    let m = to.len();
    let ghost b = max_abs_weight(es, m as int);
    proof {
        if m > 0 {
            lemma_max_abs_weight(es, m as int, 0);
        }
        lemma_bound_mono(0, n * m, b);
    }
    let mut st = Tentative::start(n, source);
    let mut num_loop: usize = 0;
    let mut done = false;
    let mut round: usize = 0;
    proof {
        st.lemma_inv_facts(es, n as int, source as int, 0);
        let _ = st.lemma_walk_of(es, n as int, source as int, 0, source as int);
        assert forall|p: Seq<int>| #[trigger] is_walk(es, source as int, p) && p.len() <= 0 implies st.dist@[walk_end(
            es,
            source as int,
            p,
        )] <= walk_len(es, p) by {}
    }
    while round < n && !done
        invariant
            round <= n,
            num_loop <= round,
            !done ==> num_loop == round,
            m == es.len(),
            b == max_abs_weight(es, m as int),
            b >= 0,
            n * m * b < i64::MAX,
            csr_ok(es, n as int, start@, to@, weight@, arc_edge, edge_arc),
            arcs_in(es, n as int),
            source < n,
            st.inv(es, n as int, source as int, round * m * b),
            done ==> relaxed(es, opt_dist(st.dist@)),
            done ==> num_loop < round,
            below_walks_from(es, source as int, st.dist@, round as int),
            no_negative_cycle_from(es, source as int) && round == n ==> num_loop < n,
        decreases n - round,
    {
        let mut update = false;
        let mut u: usize = 0;
        let ghost round_start = st.dist@;
        proof {
            st.lemma_inv_facts(es, n as int, source as int, round * m * b);
        }
        proof {
            assert(round * m + m == (round + 1) * m) by (nonlinear_arith);
            lemma_bound_mono(round * m, (round + 1) * m, b);
            lemma_bound_mono((round + 1) as int, n as int, m as int);
            lemma_bound_mono(((round + 1) * m) as int, (n * m) as int, b);
            assert(start@[0] == 0);
            st.lemma_inv_widen(es, n as int, source as int, round * m * b, (round * m + start@[0]) * b);
        }
        while u < n
            invariant
                u <= n,
                round < n,
                m == es.len(),
                b == max_abs_weight(es, m as int),
                b >= 0,
                (round + 1) * m <= n * m,
                round * m + m <= n * m,
                n * m * b < i64::MAX,
                csr_ok(es, n as int, start@, to@, weight@, arc_edge, edge_arc),
                arcs_in(es, n as int),
                source < n,
                st.inv(es, n as int, source as int, (round * m + start@[u as int]) * b),
                round_start.len() == n,
                st.dist@.len() == n,
                forall|x: int| 0 <= x < n ==> #[trigger] st.dist@[x] <= round_start[x],
                update ==> exists|t: int| 0 <= t < n && #[trigger] st.dist@[t] < round_start[t],
                forall|x: int, a2: int|
                    #![trigger start@[x], to@[a2]]
                    0 <= x < u && start@[x] <= a2 < start@[x + 1] && round_start[x] != i64::MAX ==> st.dist@[to@[
                        a2] as int] <= round_start[x] + weight@[a2],
                !update ==> st.dist@ == round_start,
                !update ==> forall|x: int, a: int|
                    #![trigger start@[x], to@[a]]
                    0 <= x < u && start@[x] <= a < start@[x + 1] && st.dist@[x] != i64::MAX ==> {
                        &&& st.dist@[to@[a] as int] != i64::MAX
                        &&& st.dist@[to@[a] as int] <= st.dist@[x] + weight@[a]
                    },
            decreases n - u,
        {
            proof {
                st.lemma_inv_facts(es, n as int, source as int, (round * m + start@[u as int]) * b);
            }
            if st.dist[u] == i64::MAX {
                u = u + 1;
                proof {
                    lemma_bound_mono(round * m + start@[u - 1], round * m + start@[u as int], b);
                    st.lemma_inv_widen(es, n as int, source as int, (round * m + start@[u - 1]) * b, (round * m + start@[u as int]) * b);
                }
                continue;
            }
            let mut a = start[u];
            let end = start[u + 1];
            let ghost lo = a;
            while a < end
                invariant
                    u < n,
                    lo == start@[u as int],
                    end == start@[u + 1],
                    lo <= a <= end,
                    round < n,
                    m == es.len(),
                    b == max_abs_weight(es, m as int),
                    b >= 0,
                    (round + 1) * m <= n * m,
                    round * m + m <= n * m,
                    n * m * b < i64::MAX,
                    csr_ok(es, n as int, start@, to@, weight@, arc_edge, edge_arc),
                    arcs_in(es, n as int),
                    source < n,
                    st.dist@.len() == n,
                    st.dist@[u as int] != i64::MAX,
                    st.inv(es, n as int, source as int, (round * m + a) * b),
                    round_start.len() == n,
                    st.dist@.len() == n,
                    forall|x: int| 0 <= x < n ==> #[trigger] st.dist@[x] <= round_start[x],
                    update ==> exists|t: int| 0 <= t < n && #[trigger] st.dist@[t] < round_start[t],
                    forall|x: int, a2: int|
                        #![trigger start@[x], to@[a2]]
                        0 <= x < u && start@[x] <= a2 < start@[x + 1] && round_start[x] != i64::MAX ==> st.dist@[to@[
                            a2] as int] <= round_start[x] + weight@[a2],
                    forall|a2: int|
                        lo <= a2 < a && round_start[u as int] != i64::MAX ==> st.dist@[#[trigger] to@[a2] as int]
                            <= round_start[u as int] + weight@[a2],
                    !update ==> st.dist@ == round_start,
                    !update ==> forall|x: int, a2: int|
                        #![trigger start@[x], to@[a2]]
                        0 <= x < u && start@[x] <= a2 < start@[x + 1] && st.dist@[x] != i64::MAX ==> {
                            &&& st.dist@[to@[a2] as int] != i64::MAX
                            &&& st.dist@[to@[a2] as int] <= st.dist@[x] + weight@[a2]
                        },
                    !update ==> forall|a2: int|
                        lo <= a2 < a ==> {
                            &&& st.dist@[#[trigger] to@[a2] as int] != i64::MAX
                            &&& st.dist@[to@[a2] as int] <= st.dist@[u as int] + weight@[a2]
                        },
                decreases end - a,
            {
                let t = to[a];
                let w = weight[a];
                let ghost e = arc_edge[a as int];
                proof {
                    assert(start@[u as int] <= a < start@[u + 1]);
                    assert(es[e] == (u, t, w));
                    assert(m == start@[n as int]);
                    assert(start@[u + 1] <= start@[n as int]);
                    lemma_max_abs_weight(es, m as int, e);
                    assert(round * m + a < n * m);
                    lemma_bound_step(round * m + a, b, n * m);
                    lemma_bound_mono(round * m + a, n * m, b);
                    st.lemma_inv_facts(es, n as int, source as int, (round * m + a) * b);
                }
                let ghost before = st.dist@;
                let changed = st.relax(u, t, w, Ghost(e), Ghost(es), Ghost(n as int), Ghost(source as int), Ghost((round * m + a) * b), Ghost(b));
                if changed {
                    update = true;
                }
                proof {
                    assert(st.dist@[t as int] <= before[u as int] + w);
                    assert(to@[a as int] == t && weight@[a as int] == w);
                    if changed {
                        assert(st.dist@[t as int] < round_start[t as int]);
                    }
                    assert forall|y: int| 0 <= y < n implies #[trigger] st.dist@[y] <= before[y] by {
                        if changed && y == t {
                        }
                    }
                    assert forall|x: int, a2: int|
                        #![trigger start@[x], to@[a2]]
                        0 <= x < u && start@[x] <= a2 < start@[x + 1] && round_start[x] != i64::MAX implies st.dist@[to@[
                            a2] as int] <= round_start[x] + weight@[a2] by {
                        let e2 = arc_edge[a2];
                        assert(es[e2] == (x as usize, to@[a2], weight@[a2]));
                        assert(st.dist@[to@[a2] as int] <= before[to@[a2] as int]);
                    }
                    assert forall|a2: int|
                        lo <= a2 < a + 1 && round_start[u as int] != i64::MAX implies st.dist@[#[trigger] to@[a2] as int]
                            <= round_start[u as int] + weight@[a2] by {
                        let e2 = arc_edge[a2];
                        assert(start@[u as int] <= a2 < start@[u + 1]);
                        assert(es[e2] == (u as usize, to@[a2], weight@[a2]));
                        assert(st.dist@[to@[a2] as int] <= before[to@[a2] as int]);
                    }
                }
                a = a + 1;
            }
            proof {
                assert forall|x: int, a2: int|
                    #![trigger start@[x], to@[a2]]
                    0 <= x < u + 1 && start@[x] <= a2 < start@[x + 1] && round_start[x] != i64::MAX implies st.dist@[to@[
                        a2] as int] <= round_start[x] + weight@[a2] by {
                    if x == u {
                        assert(lo <= a2 < a);
                    }
                }
            }
            u = u + 1;
        }
        proof {
            st.lemma_inv_facts(es, n as int, source as int, (round * m + start@[n as int]) * b);
            if update && no_negative_cycle_from(es, source as int) && round == n - 1 {
                let t = choose|t: int| 0 <= t < n && #[trigger] st.dist@[t] < round_start[t];
                let pt = st.lemma_walk_of(es, n as int, source as int, (round * m + start@[n as int]) * b, t);
                let q = lemma_shortcut_from(es, n as int, source as int, pt);
                assert(round_start[walk_end(es, source as int, q)] <= walk_len(es, q));
                assert(false);
            }
            let p0 = st.lemma_walk_of(es, n as int, source as int, (round * m + start@[n as int]) * b, source as int);
            assert forall|p: Seq<int>| #[trigger] is_walk(es, source as int, p) && p.len() <= round + 1 implies st.dist@[
                walk_end(es, source as int, p)] <= walk_len(es, p) by {
                if p.len() > 0 {
                    let pp = p.drop_last();
                    let e = p.last();
                    let x = es[e].0 as int;
                    assert(is_walk(es, source as int, pp));
                    assert(round_start[walk_end(es, source as int, pp)] <= walk_len(es, pp));
                    lemma_walk_upper(es, source as int, pp);
                    assert(m >= 1);
                    assert(pp.len() * b <= n * m * b) by (nonlinear_arith)
                        requires
                            pp.len() <= n,
                            m >= 1,
                            b >= 0,
                    ;
                    let a = edge_arc[e];
                    assert(start@[x] <= a < start@[x + 1]);
                    assert(arc_edge[a] == e);
                    assert(es[e] == (x as usize, to@[a], weight@[a]));
                    assert(x < n);
                }
            }
        }
        if !update {
            done = true;
            proof {
                st.lemma_inv_facts(es, n as int, source as int, (round * m + start@[n as int]) * b);
                assert forall|e: int|
                    0 <= e < es.len() && (#[trigger] opt_dist(st.dist@)[es[e].0 as int]) is Some implies {
                    &&& opt_dist(st.dist@)[es[e].1 as int] is Some
                    &&& opt_dist(st.dist@)[es[e].1 as int]->0 <= opt_dist(st.dist@)[es[e].0 as int]->0 + es[e].2
                } by {
                    let a = edge_arc[e];
                    let x = es[e].0 as int;
                    assert(start@[x] <= a < start@[x + 1]);
                    assert(arc_edge[a] == e);
                    assert(es[e] == (x as usize, to@[a], weight@[a]));
                    assert(x < n && es[e].1 < n);
                    assert(opt_dist(st.dist@)[x] == if st.dist@[x] == i64::MAX { None } else { Some(st.dist@[x]) });
                    assert(opt_dist(st.dist@)[to@[a] as int] == if st.dist@[to@[a] as int] == i64::MAX { None } else { Some(st.dist@[to@[a] as int]) });
                    assert(st.dist@[x] != i64::MAX);
                    assert(st.dist@[to@[a] as int] != i64::MAX);
                    assert(st.dist@[to@[a] as int] <= st.dist@[x] + weight@[a]);
                }
            }
        } else {
            num_loop = num_loop + 1;
        }
        proof {
            assert(m == start@[n as int]);
            assert(round * m + m == (round + 1) * m) by (nonlinear_arith);
        }
        round = round + 1;
    }
    let settled = num_loop != n;
    proof {
        if no_negative_cycle_from(es, source as int) {
            assert(settled);
        }
        if settled {
            assert(done);
            reveal(Tentative::inv);
            let od = opt_dist(st.dist@);
            let walks = st.walks@;
            assert(witnessed(es, source as int, od)) by {
                assert forall|v: int| 0 <= v < od.len() && (#[trigger] od[v]) is Some implies exists|p: Seq<int>|
                    #[trigger] is_walk(es, source as int, p) && walk_end(es, source as int, p) == v && walk_len(es, p)
                        == od[v]->0 by {
                    assert(st.dist@[v] != i64::MAX);
                    assert(is_walk(es, source as int, walks[v]));
                }
            }
            lemma_relaxed_is_shortest(es, source as int, od);
            if st.lowered@[source as int] {
                let p = walks[source as int];
                assert(is_walk(es, source as int, p));
                lemma_walk_bound(es, source as int, od, p);
                assert(false);
            }
            assert forall|v: int| 0 <= v < n implies #[trigger] st.lowered@[v] == (v != source && reachable(
                es,
                source as int,
                v,
            )) by {
                if v != source && reachable(es, source as int, v) {
                    let p = choose|p: Seq<int>| is_walk(es, source as int, p) && walk_end(es, source as int, p) == v;
                    lemma_walk_bound(es, source as int, od, p);
                }
                if st.lowered@[v] {
                    assert(st.dist@[v] != i64::MAX);
                    assert(is_walk(es, source as int, walks[v]));
                }
            }
        }
    }
    proof {
        reveal(Tentative::inv);
    }
    BellmanFordRun { dist: st.dist, lowered: st.lowered, settled }
}

} // verus!

verus! {

/// Every arc weight is at least zero.
pub open spec fn nonneg_weights(es: Seq<(usize, usize, i64)>) -> bool {
    forall|e: int| 0 <= e < es.len() ==> (#[trigger] es[e]).2 >= 0
}

/// Removes and returns an entry of smallest key (a linear scan).
fn pop_min(heap: &mut Vec<(i64, usize)>) -> (e: (i64, usize))
    requires
        old(heap)@.len() > 0,
    ensures
        old(heap)@.contains(e),
        forall|x: (i64, usize)| old(heap)@.contains(x) ==> e.0 <= x.0,
        forall|x: (i64, usize)| #[trigger] final(heap)@.contains(x) ==> old(heap)@.contains(x),
        forall|x: (i64, usize)| old(heap)@.contains(x) && x != e ==> #[trigger] final(heap)@.contains(x),
        final(heap)@.len() == old(heap)@.len() - 1,
{
    let mut best: usize = 0;
    let mut i: usize = 1;
    while i < heap.len()
        invariant
            1 <= i <= heap@.len(),
            best < i,
            forall|j: int| 0 <= j < i ==> heap@[best as int].0 <= #[trigger] heap@[j].0,
        decreases heap@.len() - i,
    {
        if heap[i].0 < heap[best].0 {
            best = i;
        }
        i = i + 1;
    }
    let ghost old_heap = heap@;
    let e = heap.swap_remove(best);
    proof {
        assert(old_heap[best as int] == e);
        assert forall|x: (i64, usize)| old_heap.contains(x) implies e.0 <= x.0 by {
            let j = choose|j: int| 0 <= j < old_heap.len() && old_heap[j] == x;
            assert(old_heap[best as int].0 <= old_heap[j].0);
        }
        assert forall|x: (i64, usize)| #[trigger] heap@.contains(x) implies old_heap.contains(x) by {
            let j = choose|j: int| 0 <= j < heap@.len() && heap@[j] == x;
            if j == best {
                assert(old_heap[old_heap.len() - 1] == x);
            } else {
                assert(old_heap[j] == x);
            }
        }
        assert forall|x: (i64, usize)| old_heap.contains(x) && x != e implies #[trigger] heap@.contains(x) by {
            let j = choose|j: int| 0 <= j < old_heap.len() && old_heap[j] == x;
            if j == old_heap.len() - 1 {
                if best as int != j {
                    assert(heap@[best as int] == x);
                }
            } else {
                assert(j != best);
                assert(heap@[j] == x);
            }
        }
    }
    e
}

proof fn lemma_push_contains<A>(s: Seq<A>, x: A, y: A)
    ensures
        s.push(x).contains(y) <==> (s.contains(y) || y == x),
{
    if s.contains(y) {
        let j = choose|j: int| 0 <= j < s.len() && s[j] == y;
        assert(s.push(x)[j] == y);
    }
    if y == x {
        assert(s.push(x)[s.len() as int] == y);
    }
    if s.push(x).contains(y) {
        let j = choose|j: int| 0 <= j < s.len() + 1 && s.push(x)[j] == y;
        if j < s.len() {
            assert(s[j] == y);
        }
    }
}

/// The number of `true` entries among the first `k`.
pub open spec fn count_true(s: Seq<bool>, k: int) -> nat
    decreases k,
{
    if k <= 0 {
        0
    } else {
        count_true(s, k - 1) + if s[k - 1] { 1nat } else { 0nat }
    }
}

pub proof fn lemma_count_true_set(s: Seq<bool>, k: int, i: int)
    requires
        0 <= i < s.len(),
        0 <= k <= s.len(),
        !s[i],
    ensures
        count_true(s.update(i, true), k) == count_true(s, k) + if i < k { 1int } else { 0int },
        count_true(s, k) <= k,
    decreases k,
{
    if k > 0 {
        lemma_count_true_set(s, k - 1, i);
    }
}

proof fn lemma_count_true_pos(s: Seq<bool>, k: int, i: int)
    requires
        0 <= i < k <= s.len(),
        s[i],
    ensures
        count_true(s, k) >= 1,
    decreases k,
{
    if i < k - 1 {
        lemma_count_true_pos(s, k - 1, i);
    }
}

pub proof fn lemma_count_true_le(s: Seq<bool>, k: int)
    requires
        0 <= k,
    ensures
        count_true(s, k) <= k,
    decreases k,
{
    if k > 0 {
        lemma_count_true_le(s, k - 1);
    }
}

/// The state of a Dijkstra run.
struct Frontier {
    dist: Vec<i64>,
    visited: Vec<bool>,
    heap: Vec<(i64, usize)>,
    walks: Ghost<Seq<Seq<int>>>,
    last: Ghost<int>,
}

impl Frontier {
    spec fn nvis(&self) -> nat {
        count_true(self.visited@, self.visited@.len() as int)
    }

    /// The invariant of the run; the arcs of the node `cur` may still be pending.
    #[verifier::opaque]
    spec fn inv(&self, es: Seq<(usize, usize, i64)>, n: int, source: int, b: int, cur: int) -> bool {
        let dist = self.dist@;
        let lim = self.nvis() * b;
        &&& dist.len() == n
        &&& self.visited@.len() == n
        &&& self.walks@.len() == n
        &&& 0 <= source < n
        &&& dist[source] == 0
        &&& b >= 0
        &&& forall|v: int|
            0 <= v < n && #[trigger] dist[v] != i64::MAX ==> {
                &&& is_walk(es, source, self.walks@[v])
                &&& walk_end(es, source, self.walks@[v]) == v
                &&& walk_len(es, self.walks@[v]) == dist[v]
                &&& -lim <= dist[v] <= lim
            }
        &&& forall|x: (i64, usize)|
            #[trigger] self.heap@.contains(x) ==> {
                &&& x.1 < n
                &&& dist[x.1 as int] != i64::MAX
                &&& dist[x.1 as int] <= x.0
                &&& -lim <= x.0 <= lim
                &&& nonneg_weights(es) ==> self.last@ <= x.0
            }
        &&& forall|v: int|
            0 <= v < n && !self.visited@[v] && #[trigger] dist[v] != i64::MAX ==> self.heap@.contains(
                (dist[v], v as usize),
            )
        &&& forall|v: int| 0 <= v < n && #[trigger] self.visited@[v] ==> dist[v] != i64::MAX
        &&& self.nvis() > 0 ==> self.visited@[source]
        &&& self.nvis() == 0 ==> self.heap@ == seq![(0i64, source as usize)]
        &&& nonneg_weights(es) ==> forall|v: int| 0 <= v < n && #[trigger] self.visited@[v] ==> dist[v] <= self.last@
        &&& nonneg_weights(es) ==> forall|e: int|
            0 <= e < es.len() && self.visited@[es[e].0 as int] && es[e].0 != cur ==> {
                &&& dist[(#[trigger] es[e]).1 as int] != i64::MAX
                &&& dist[es[e].1 as int] <= dist[es[e].0 as int] + es[e].2
            }
    }
}

impl Frontier {
    /// Lowers the distance of `t` through the arc `e` out of the settled node
    /// `u`, unless `t` is settled already.
    fn relax_arc(
        &mut self,
        u: usize,
        d: i64,
        t: usize,
        w: i64,
        Ghost(e): Ghost<int>,
        Ghost(es): Ghost<Seq<(usize, usize, i64)>>,
        Ghost(n): Ghost<int>,
        Ghost(source): Ghost<int>,
        Ghost(b): Ghost<int>,
    ) -> (improved: Option<i64>)
        requires
            old(self).inv(es, n, source, b, u as int),
            old(self).visited@[u as int],
            old(self).dist@[u as int] == d,
            nonneg_weights(es) ==> old(self).last@ == d,
            u < n,
            t < n,
            arcs_in(es, n),
            0 <= e < es.len(),
            es[e] == (u, t, w),
            -b <= w <= b,
            1 <= old(self).nvis() <= n,
            -((old(self).nvis() - 1) * b) <= d <= (old(self).nvis() - 1) * b,
            n * b < i64::MAX,
        ensures
            final(self).inv(es, n, source, b, u as int),
            final(self).visited@ == old(self).visited@,
            final(self).last@ == old(self).last@,
            final(self).dist@.len() == old(self).dist@.len(),
            final(self).dist@[u as int] == d,
            forall|v: int| 0 <= v < n ==> #[trigger] final(self).dist@[v] <= old(self).dist@[v],
            nonneg_weights(es) ==> final(self).dist@[t as int] != i64::MAX && final(self).dist@[t as int] <= d + w,
            forall|v: int| 0 <= v < n && v != t ==> #[trigger] final(self).dist@[v] == old(self).dist@[v],
            improved matches Some(nd) ==> final(self).dist@[t as int] == nd,
            improved is None ==> final(self).dist@[t as int] == old(self).dist@[t as int],
    {
        proof {
            reveal(Frontier::inv);
        }
        if self.visited[t] {
            proof {
                if nonneg_weights(es) {
                    assert(self.dist@[t as int] <= self.last@);
                    assert(es[e].2 >= 0);
                }
            }
            return None;
        }
        proof {
            let k = (self.nvis() - 1) as int;
            if k < n {
                lemma_bound_step(k, b, n);
            }
            lemma_bound_mono(self.nvis() as int, n, b);
            lemma_bound_mono(k, self.nvis() as int, b);
            assert(k * b + b == (k + 1) * b) by (nonlinear_arith);
        }
        let nd = d + w;
        if nd < self.dist[t] {
            let ghost fr0 = *self;
            self.dist.set(t, nd);
            self.heap.push((nd, t));
            proof {
                let walks = self.walks@;
                lemma_walk_push(es, source, walks[u as int], e);
                self.walks@ = walks.update(t as int, walks[u as int].push(e));
                assert(self.nvis() == fr0.nvis());
                assert(self.heap@ == fr0.heap@.push((nd, t)));
                assert forall|y: (i64, usize)| #[trigger] self.heap@.contains(y) <==> (fr0.heap@.contains(y) || y == (nd, t)) by {
                    lemma_push_contains(fr0.heap@, (nd, t), y);
                }
                assert forall|x: (i64, usize)| #[trigger] self.heap@.contains(x) implies {
                    &&& x.1 < n
                    &&& self.dist@[x.1 as int] != i64::MAX
                    &&& self.dist@[x.1 as int] <= x.0
                    &&& -(self.nvis() * b) <= x.0 <= self.nvis() * b
                    &&& nonneg_weights(es) ==> self.last@ <= x.0
                } by {
                    if x != (nd, t) {
                        assert(fr0.heap@.contains(x));
                    } else {
                        if nonneg_weights(es) {
                            assert(es[e].2 >= 0);
                        }
                    }
                }
                assert forall|v: int|
                    0 <= v < n && !self.visited@[v] && #[trigger] self.dist@[v] != i64::MAX implies self.heap@.contains(
                    (self.dist@[v], v as usize),
                ) by {
                    if v != t {
                        assert(fr0.heap@.contains((fr0.dist@[v], v as usize)));
                    }
                }
                assert forall|v: int| 0 <= v < n && #[trigger] self.dist@[v] != i64::MAX implies {
                    &&& is_walk(es, source, self.walks@[v])
                    &&& walk_end(es, source, self.walks@[v]) == v
                    &&& walk_len(es, self.walks@[v]) == self.dist@[v]
                    &&& -(self.nvis() * b) <= self.dist@[v] <= self.nvis() * b
                } by {
                    if v != t {
                        assert(fr0.dist@[v] != i64::MAX);
                    }
                }
                assert(fr0 == *old(self));
                assert(t != source);
                assert(forall|v: int| 0 <= v < n && #[trigger] self.visited@[v] ==> v != t);
                if nonneg_weights(es) {
                    assert forall|e2: int|
                        0 <= e2 < es.len() && self.visited@[es[e2].0 as int] && es[e2].0 != u implies {
                        &&& self.dist@[(#[trigger] es[e2]).1 as int] != i64::MAX
                        &&& self.dist@[es[e2].1 as int] <= self.dist@[es[e2].0 as int] + es[e2].2
                    } by {
                        assert(es[e2].0 != t);
                        assert(fr0.dist@[es[e2].1 as int] != i64::MAX);
                        assert(fr0.dist@[es[e2].1 as int] <= fr0.dist@[es[e2].0 as int] + es[e2].2);
                    }
                }
                assert(self.inv(es, n, source, b, u as int));
            }
            return Some(nd);
        }
        None
    }
}

/// What a Dijkstra run leaves: the distances (`i64::MAX` where no walk was
/// found) and the nodes that were settled.
pub struct DijkstraRun {
    pub dist: Vec<i64>,
    pub visited: Vec<bool>,
    /// The largest distance the run ever assigned (zero if none was larger).
    pub top: i64,
}

/// Dijkstra's algorithm from `source`. With weights of at least zero the
/// distances are the shortest walk lengths; with any weights each distance
/// found is the length of some walk.
#[verifier::rlimit(100)]
#[verifier::spinoff_prover]
pub fn dijkstra_rows(
    n: usize,
    start: &Vec<usize>,
    to: &Vec<usize>,
    weight: &Vec<i64>,
    source: usize,
    Ghost(es): Ghost<Seq<(usize, usize, i64)>>,
    Ghost(arc_edge): Ghost<Seq<int>>,
    Ghost(edge_arc): Ghost<Seq<int>>,
) -> (r: DijkstraRun)
    requires
        csr_ok(es, n as int, start@, to@, weight@, arc_edge, edge_arc),
        arcs_in(es, n as int),
        source < n,
        n * max_abs_weight(es, es.len() as int) < i64::MAX,
    ensures
        r.dist@.len() == n,
        r.visited@.len() == n,
        r.dist@[source as int] == 0,
        forall|v: int| 0 <= v < n && #[trigger] r.dist@[v] != i64::MAX ==> r.dist@[v] <= r.top,
        witnessed(es, source as int, opt_dist(r.dist@)),
        nonneg_weights(es) ==> shortest_distances(es, source as int, opt_dist(r.dist@)),
        nonneg_weights(es) ==> forall|v: int| 0 <= v < n ==> #[trigger] r.visited@[v] == reachable(es, source as int, v),
{
    let m = to.len();
    let ghost b = max_abs_weight(es, m as int);
    let ghost nn = nonneg_weights(es);
    proof {
        if m > 0 {
            lemma_max_abs_weight(es, m as int, 0);
        }
    }
    let mut dist: Vec<i64> = vec![i64::MAX; n];
    dist.set(source, 0);
    let mut heap: Vec<(i64, usize)> = Vec::new();
    heap.push((0, source));
    let mut top: i64 = 0;
    let mut fr = Frontier {
        dist,
        visited: vec![false; n],
        heap,
        walks: Ghost(Seq::new(n as nat, |i: int| Seq::<int>::empty())),
        last: Ghost(0int),
    };
    proof {
        reveal(Frontier::inv);
        lemma_count_false(fr.visited@, n as int);
        assert(fr.heap@[0] == (0i64, source));
        assert forall|v: int| 0 <= v < n && !fr.visited@[v] && #[trigger] fr.dist@[v] != i64::MAX implies fr.heap@.contains(
            (fr.dist@[v], v as usize),
        ) by {
            assert(v == source);
            assert(fr.heap@[0] == (fr.dist@[v], v as usize));
        }
        assert(fr.inv(es, n as int, source as int, b, -1));
    }
    while fr.heap.len() > 0
        invariant
            fr.inv(es, n as int, source as int, b, -1),
            csr_ok(es, n as int, start@, to@, weight@, arc_edge, edge_arc),
            arcs_in(es, n as int),
            m == es.len(),
            b == max_abs_weight(es, m as int),
            n * b < i64::MAX,
            source < n,
            nn == nonneg_weights(es),
            fr.dist@.len() == n,
            forall|v: int| 0 <= v < n && #[trigger] fr.dist@[v] != i64::MAX ==> fr.dist@[v] <= top,
        decreases n - fr.nvis(), fr.heap@.len(),
    {
        proof {
            reveal(Frontier::inv);
            lemma_count_true_le(fr.visited@, n as int);
        }
        let ghost before = fr.heap@;
        let (d, u) = pop_min(&mut fr.heap);
        proof {
            assert(before.contains((d, u)));
        }
        if fr.visited[u] {
            proof {
                lemma_count_true_pos(fr.visited@, n as int, u as int);
                assert(fr.inv(es, n as int, source as int, b, -1)) by {
                    assert forall|v: int| 0 <= v < n && !fr.visited@[v] && #[trigger] fr.dist@[v] != i64::MAX implies fr.heap@.contains(
                        (fr.dist@[v], v as usize),
                    ) by {
                        assert(before.contains((fr.dist@[v], v as usize)));
                    }
                }
            }
            continue;
        }
        proof {
            // the entry of u at its distance is in the heap, so the smallest key is its distance
            assert(before.contains((fr.dist@[u as int], u)));
            assert(d == fr.dist@[u as int]);
            lemma_count_true_set(fr.visited@, n as int, u as int);
            let nv = fr.nvis();
            lemma_bound_mono(nv as int, nv + 1int, b);
            assert(nv + 1 <= n) by {
                lemma_count_true_le(fr.visited@.update(u as int, true), n as int);
            }
            lemma_bound_mono(nv + 1int, n as int, b);
        }
        let ghost old_fr = fr;
        fr.visited.set(u, true);
        proof {
            fr.last@ = d as int;
            assert(fr.nvis() == old_fr.nvis() + 1);
            if old_fr.nvis() == 0 {
                assert(before == seq![(0i64, source)]);
                assert(before[0] == (d, u));
                assert(u == source);
            }
            assert(fr.inv(es, n as int, source as int, b, u as int)) by {
                assert forall|x: (i64, usize)| #[trigger] fr.heap@.contains(x) implies {
                    &&& x.1 < n
                    &&& fr.dist@[x.1 as int] != i64::MAX
                    &&& fr.dist@[x.1 as int] <= x.0
                    &&& -(fr.nvis() * b) <= x.0 <= fr.nvis() * b
                    &&& nonneg_weights(es) ==> fr.last@ <= x.0
                } by {
                    assert(before.contains(x));
                }
                assert forall|v: int|
                    0 <= v < n && !fr.visited@[v] && #[trigger] fr.dist@[v] != i64::MAX implies fr.heap@.contains(
                    (fr.dist@[v], v as usize),
                ) by {
                    assert(before.contains((fr.dist@[v], v as usize)));
                }
                assert forall|v: int| 0 <= v < n && #[trigger] fr.dist@[v] != i64::MAX implies -(fr.nvis() * b) <= fr.dist@[v]
                    <= fr.nvis() * b by {
                }
            }
        }
        let mut a = start[u];
        let end = start[u + 1];
        let ghost lo = a;
        let ghost visited_now = fr.visited@;
        while a < end
            invariant
                fr.inv(es, n as int, source as int, b, u as int),
                fr.visited@[u as int],
                fr.dist@[u as int] == d,
                nn ==> fr.last@ == d,
                csr_ok(es, n as int, start@, to@, weight@, arc_edge, edge_arc),
                arcs_in(es, n as int),
                m == es.len(),
                b == max_abs_weight(es, m as int),
                n * b < i64::MAX,
                1 <= fr.nvis() <= n,
                fr.visited@ == visited_now,
                -((fr.nvis() - 1) * b) <= d <= (fr.nvis() - 1) * b,
                source < n,
                u < n,
                lo == start@[u as int],
                end == start@[u + 1],
                lo <= a <= end,
                nn == nonneg_weights(es),
                nn ==> forall|a2: int|
                    lo <= a2 < a ==> {
                        &&& fr.dist@[#[trigger] to@[a2] as int] != i64::MAX
                        &&& fr.dist@[to@[a2] as int] <= d + weight@[a2]
                    },
                fr.dist@.len() == n,
                forall|v: int| 0 <= v < n && #[trigger] fr.dist@[v] != i64::MAX ==> fr.dist@[v] <= top,
            decreases end - a,
        {
            let t = to[a];
            let w = weight[a];
            let ghost e = arc_edge[a as int];
            proof {
                assert(start@[u as int] <= a < start@[u + 1]);
                assert(es[e] == (u, t, w));
                lemma_max_abs_weight(es, m as int, e);
            }
            let ghost fr_before = fr;
            match fr.relax_arc(u, d, t, w, Ghost(e), Ghost(es), Ghost(n as int), Ghost(source as int), Ghost(b)) {
                Some(nd) => {
                    if nd > top {
                        top = nd;
                    }
                },
                None => {},
            }
            proof {
                if nn {
                    assert forall|a2: int| lo <= a2 < a + 1 implies {
                        &&& fr.dist@[#[trigger] to@[a2] as int] != i64::MAX
                        &&& fr.dist@[to@[a2] as int] <= d + weight@[a2]
                    } by {
                        if a2 < a {
                            assert(start@[u as int] <= a2 < start@[u + 1]);
                            let e3 = arc_edge[a2];
                            assert(es[e3] == (u, to@[a2], weight@[a2]));
                            assert(to@[a2] < n);
                            assert(fr_before.dist@[to@[a2] as int] != i64::MAX);
                            assert(fr.dist@[to@[a2] as int] <= fr_before.dist@[to@[a2] as int]);
                        }
                    }
                }
            }
            a = a + 1;
        }
        proof {
            reveal(Frontier::inv);
            assert(fr.inv(es, n as int, source as int, b, -1)) by {
                if nn {
                assert forall|e2: int|
                    0 <= e2 < es.len() && fr.visited@[es[e2].0 as int] && es[e2].0 != -1 implies {
                    &&& fr.dist@[(#[trigger] es[e2]).1 as int] != i64::MAX
                    &&& fr.dist@[es[e2].1 as int] <= fr.dist@[es[e2].0 as int] + es[e2].2
                } by {
                    if nn && es[e2].0 == u {
                        let a2 = edge_arc[e2];
                        assert(start@[u as int] <= a2 < start@[u + 1]);
                        assert(arc_edge[a2] == e2);
                        assert(es[e2] == (u, to@[a2], weight@[a2]));
                        assert(fr.dist@[to@[a2] as int] <= d + weight@[a2]);
                    } else if nn {
                        assert(es[e2].0 != u);
                    }
                }
                }
            }
        }
    }
    proof {
        reveal(Frontier::inv);
        let od = opt_dist(fr.dist@);
        let walks = fr.walks@;
        assert forall|v: int| 0 <= v < od.len() && (#[trigger] od[v]) is Some implies exists|p: Seq<int>|
            #[trigger] is_walk(es, source as int, p) && walk_end(es, source as int, p) == v && walk_len(es, p) == od[v]->0 by {
            assert(fr.dist@[v] != i64::MAX);
            assert(is_walk(es, source as int, walks[v]));
        }
        if nn {
            assert forall|v: int| 0 <= v < n && #[trigger] fr.dist@[v] != i64::MAX implies fr.visited@[v] by {
                if !fr.visited@[v] {
                    assert(fr.heap@.contains((fr.dist@[v], v as usize)));
                }
            }
            assert(relaxed(es, od)) by {
                assert forall|e: int|
                    0 <= e < es.len() && (#[trigger] od[es[e].0 as int]) is Some implies {
                    &&& od[es[e].1 as int] is Some
                    &&& od[es[e].1 as int]->0 <= od[es[e].0 as int]->0 + es[e].2
                } by {
                    let x = es[e].0 as int;
                    assert(x < n && es[e].1 < n);
                    assert(fr.dist@[x] != i64::MAX);
                    assert(fr.visited@[x]);
                }
            }
            lemma_relaxed_is_shortest(es, source as int, od);
            assert forall|v: int| 0 <= v < n implies #[trigger] fr.visited@[v] == reachable(es, source as int, v) by {
                if reachable(es, source as int, v) {
                    let p = choose|p: Seq<int>| is_walk(es, source as int, p) && walk_end(es, source as int, p) == v;
                    lemma_walk_bound(es, source as int, od, p);
                }
                if fr.visited@[v] {
                    assert(fr.dist@[v] != i64::MAX);
                    assert(is_walk(es, source as int, walks[v]));
                }
            }
        }
    }
    DijkstraRun { dist: fr.dist, visited: fr.visited, top }
}

pub proof fn lemma_count_false(s: Seq<bool>, k: int)
    requires
        0 <= k <= s.len(),
        forall|i: int| 0 <= i < s.len() ==> !s[i],
    ensures
        count_true(s, k) == 0,
    decreases k,
{
    if k > 0 {
        lemma_count_false(s, k - 1);
    }
}

} // verus!
