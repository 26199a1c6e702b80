//! Walks that return to where they started: without a negative one, every
//! walk can be shortened to fewer arcs than there are nodes at no extra cost.
use crate::shortest_path::walk::{arcs_in, is_walk, max_abs_weight, lemma_max_abs_weight, walk_end, walk_len};
use vstd::prelude::*;

verus! {

/// No walk over `es` that starts and ends at the same node has negative length.
pub open spec fn no_negative_cycle(es: Seq<(usize, usize, i64)>, n: int) -> bool {
    forall|s: int, p: Seq<int>|
        0 <= s < n && #[trigger] is_walk(es, s, p) && walk_end(es, s, p) == s ==> walk_len(es, p) >= 0
}

/// Two walks, the second from where the first ends, make one walk.
pub proof fn lemma_walk_concat(es: Seq<(usize, usize, i64)>, s: int, a: Seq<int>, b: Seq<int>)
    requires
        is_walk(es, s, a),
        is_walk(es, walk_end(es, s, a), b),
    ensures
        is_walk(es, s, a + b),
        walk_end(es, s, a + b) == walk_end(es, walk_end(es, s, a), b),
        walk_len(es, a + b) == walk_len(es, a) + walk_len(es, b),
    decreases b.len(),
{
    if b.len() == 0 {
        assert(a + b =~= a);
    } else {
        let b0 = b.drop_last();
        lemma_walk_concat(es, s, a, b0);
        assert((a + b).drop_last() =~= a + b0);
        assert((a + b).last() == b.last());
    }
}

/// A walk splits after its first `i` arcs into two walks.
pub proof fn lemma_walk_split(es: Seq<(usize, usize, i64)>, s: int, p: Seq<int>, i: int)
    requires
        is_walk(es, s, p),
        0 <= i <= p.len(),
    ensures
        is_walk(es, s, p.take(i)),
        is_walk(es, walk_end(es, s, p.take(i)), p.skip(i)),
        walk_end(es, s, p) == walk_end(es, walk_end(es, s, p.take(i)), p.skip(i)),
        walk_len(es, p) == walk_len(es, p.take(i)) + walk_len(es, p.skip(i)),
    decreases p.len(),
{
    if i == p.len() {
        assert(p.take(i) =~= p);
        assert(p.skip(i) =~= Seq::<int>::empty());
    } else {
        let p0 = p.drop_last();
        lemma_walk_split(es, s, p0, i);
        assert(p0.take(i) =~= p.take(i));
        assert(p.skip(i).drop_last() =~= p0.skip(i));
        assert(p.skip(i).last() == p.last());
    }
}

/// Among `k + 1` values below `k`, two are equal.
pub proof fn lemma_pigeonhole(f: spec_fn(int) -> int, k: int) -> (r: (int, int))
    requires
        k >= 0,
        forall|i: int| 0 <= i <= k ==> 0 <= #[trigger] f(i) < k,
    ensures
        0 <= r.0 < r.1 <= k,
        f(r.0) == f(r.1),
    decreases k,
{
    if exists|i: int| 0 <= i < k && #[trigger] f(i) == f(k) {
        let i = choose|i: int| 0 <= i < k && #[trigger] f(i) == f(k);
        (i, k)
    } else if f(k) == k - 1 {
        assert forall|i: int| 0 <= i <= k - 1 implies 0 <= #[trigger] f(i) < k - 1 by {
            assert(f(i) != f(k));
        }
        lemma_pigeonhole(f, k - 1)
    } else {
        let g = |i: int| if f(i) == k - 1 { f(k) } else { f(i) };
        assert forall|i: int| 0 <= i <= k - 1 implies 0 <= #[trigger] g(i) < k - 1 by {
            assert(f(i) != f(k));
        }
        let (i, j) = lemma_pigeonhole(g, k - 1);
        if f(i) == k - 1 && f(j) != k - 1 {
            (j, k)
        } else if f(i) != k - 1 && f(j) == k - 1 {
            (i, k)
        } else {
            (i, j)
        }
    }
}

/// No walk from `s` of at most `k` arcs is shorter than `dist` at its end.
pub open spec fn below_walks_from(es: Seq<(usize, usize, i64)>, s: int, dist: Seq<i64>, k: int) -> bool {
    forall|p: Seq<int>| #[trigger] is_walk(es, s, p) && p.len() <= k ==> dist[walk_end(es, s, p)] <= walk_len(es, p)
}

/// No walk that returns to a node reachable from `s` has negative length.
pub open spec fn no_negative_cycle_from(es: Seq<(usize, usize, i64)>, s: int) -> bool {
    forall|p: Seq<int>, c: Seq<int>|
        #[trigger] is_walk(es, s, p) && #[trigger] is_walk(es, walk_end(es, s, p), c) && walk_end(
            es,
            walk_end(es, s, p),
            c,
        ) == walk_end(es, s, p) ==> walk_len(es, c) >= 0
}

/// A walk from a node below `n` ends at a node below `n`.
pub proof fn lemma_walk_end_in(es: Seq<(usize, usize, i64)>, n: int, s: int, p: Seq<int>)
    requires
        arcs_in(es, n),
        0 <= s < n,
        is_walk(es, s, p),
    ensures
        0 <= walk_end(es, s, p) < n,
{
    if p.len() > 0 {
        assert(0 <= p.last() < es.len());
    }
}

/// With no negative cycle anywhere, none is reachable from `s`.
pub proof fn lemma_no_cycle_from(es: Seq<(usize, usize, i64)>, n: int, s: int)
    requires
        no_negative_cycle(es, n),
        arcs_in(es, n),
        0 <= s < n,
    ensures
        no_negative_cycle_from(es, s),
{
    assert forall|p: Seq<int>, c: Seq<int>|
        #[trigger] is_walk(es, s, p) && #[trigger] is_walk(es, walk_end(es, s, p), c) && walk_end(
            es,
            walk_end(es, s, p),
            c,
        ) == walk_end(es, s, p) implies walk_len(es, c) >= 0 by {
        lemma_walk_end_in(es, n, s, p);
    }
}

/// Without a negative cycle, a walk can be replaced by one of fewer arcs
/// than there are nodes, from the same start to the same end, no longer.
pub proof fn lemma_shortcut(es: Seq<(usize, usize, i64)>, n: int, s: int, p: Seq<int>) -> (q: Seq<int>)
    requires
        no_negative_cycle(es, n),
        arcs_in(es, n),
        0 <= s < n,
        is_walk(es, s, p),
    ensures
        is_walk(es, s, q),
        q.len() < n,
        walk_end(es, s, q) == walk_end(es, s, p),
        walk_len(es, q) <= walk_len(es, p),
{
    lemma_no_cycle_from(es, n, s);
    lemma_shortcut_from(es, n, s, p)
}

/// Without a negative cycle reachable from `s`, a walk from `s` can be
/// replaced by one of fewer arcs than there are nodes, to the same end,
/// no longer.
pub proof fn lemma_shortcut_from(es: Seq<(usize, usize, i64)>, n: int, s: int, p: Seq<int>) -> (q: Seq<int>)
    requires
        no_negative_cycle_from(es, s),
        arcs_in(es, n),
        0 <= s < n,
        is_walk(es, s, p),
    ensures
        is_walk(es, s, q),
        q.len() < n,
        walk_end(es, s, q) == walk_end(es, s, p),
        walk_len(es, q) <= walk_len(es, p),
    decreases p.len(),
{
    if p.len() < n {
        p
    } else {
        let f = |i: int| walk_end(es, s, p.take(i));
        assert forall|i: int| 0 <= i <= n implies 0 <= #[trigger] f(i) < n by {
            lemma_walk_split(es, s, p, i);
            let t = p.take(i);
            if t.len() > 0 {
                assert(0 <= t.last() < es.len());
            }
        }
        let (i, j) = lemma_pigeonhole(f, n);
        let a = p.take(j);
        lemma_walk_split(es, s, p, j);
        lemma_walk_split(es, s, a, i);
        assert(a.take(i) =~= p.take(i));
        let m = walk_end(es, s, p.take(i));
        let c = a.skip(i);
        assert(walk_end(es, m, c) == m);
        assert(is_walk(es, s, p.take(i)));
        assert(is_walk(es, walk_end(es, s, p.take(i)), c));
        assert(walk_len(es, c) >= 0);
        let b = p.skip(j);
        lemma_walk_concat(es, s, p.take(i), b);
        let p2 = p.take(i) + b;
        lemma_shortcut_from(es, n, s, p2)
    }
}

/// A walk of `k` arcs is no longer than `k` times the greatest absolute weight.
pub proof fn lemma_walk_upper(es: Seq<(usize, usize, i64)>, s: int, p: Seq<int>)
    requires
        is_walk(es, s, p),
    ensures
        walk_len(es, p) <= p.len() * max_abs_weight(es, es.len() as int),
    decreases p.len(),
{
    if p.len() > 0 {
        lemma_walk_upper(es, s, p.drop_last());
        lemma_max_abs_weight(es, es.len() as int, p.last());
        let w = max_abs_weight(es, es.len() as int);
        let k = p.len() as int;
        assert(p.drop_last().len() == k - 1);
        assert(walk_len(es, p) == walk_len(es, p.drop_last()) + es[p.last()].2);
        assert((k - 1) * w + w == k * w) by (nonlinear_arith);
    }
}

/// A walk of `k` arcs is no shorter than `k` times minus the greatest
/// absolute weight.
pub proof fn lemma_walk_lower(es: Seq<(usize, usize, i64)>, s: int, p: Seq<int>)
    requires
        is_walk(es, s, p),
    ensures
        walk_len(es, p) + p.len() * max_abs_weight(es, es.len() as int) >= 0,
    decreases p.len(),
{
    if p.len() > 0 {
        lemma_walk_lower(es, s, p.drop_last());
        lemma_max_abs_weight(es, es.len() as int, p.last());
        let w = max_abs_weight(es, es.len() as int);
        let k = p.len() as int;
        assert(p.drop_last().len() == k - 1);
        assert(walk_len(es, p) == walk_len(es, p.drop_last()) + es[p.last()].2);
        assert((k - 1) * w + w == k * w) by (nonlinear_arith);
        assert(walk_len(es, p.drop_last()) + (k - 1) * w >= 0);
    }
}

/// Some walk over `es` from a node below `n` ends at `v` and has length `d`.
pub open spec fn realized(es: Seq<(usize, usize, i64)>, n: int, v: int, d: int) -> bool {
    exists|s: int, p: Seq<int>| 0 <= s < n && #[trigger] is_walk(es, s, p) && walk_end(es, s, p) == v && walk_len(es, p) == d
}

/// No walk of at most `k` arcs from a node below `n` is shorter than `dist`
/// at its end.
pub open spec fn below_walks(es: Seq<(usize, usize, i64)>, n: int, dist: Seq<i64>, k: int) -> bool {
    forall|s: int, p: Seq<int>|
        0 <= s < n && #[trigger] is_walk(es, s, p) && p.len() <= k ==> dist[walk_end(es, s, p)] <= walk_len(es, p)
}

/// Without a negative cycle, and with weights small enough for the number
/// of nodes, the length of a walk stays above the least `i64`.
pub proof fn lemma_realized_bound(es: Seq<(usize, usize, i64)>, n: int, v: int, d: int)
    requires
        no_negative_cycle(es, n),
        arcs_in(es, n),
        n * max_abs_weight(es, es.len() as int) < i64::MAX,
        realized(es, n, v, d),
    ensures
        d > i64::MIN,
{
    let (s, p) = choose|s: int, p: Seq<int>|
        0 <= s < n && #[trigger] is_walk(es, s, p) && walk_end(es, s, p) == v && walk_len(es, p) == d;
    let q = lemma_shortcut(es, n, s, p);
    lemma_walk_lower(es, s, q);
    let w = max_abs_weight(es, es.len() as int);
    if es.len() > 0 {
        lemma_max_abs_weight(es, es.len() as int, 0);
    }
    assert(w >= 0);
    let k = q.len() as int;
    assert(k * w <= n * w) by (nonlinear_arith)
        requires
            0 <= k < n,
            w >= 0,
    ;
}

/// Distances that no arc shortens: along a walk they grow by at most its length.
pub proof fn lemma_potential_walk(es: Seq<(usize, usize, i64)>, n: int, dist: Seq<i64>, s: int, p: Seq<int>)
    requires
        arcs_in(es, n),
        dist.len() == n,
        forall|i: int| 0 <= i < es.len() ==> dist[(#[trigger] es[i]).1 as int] <= dist[es[i].0 as int] + es[i].2,
        0 <= s < n,
        is_walk(es, s, p),
    ensures
        walk_len(es, p) >= dist[walk_end(es, s, p)] - dist[s],
    decreases p.len(),
{
    if p.len() > 0 {
        lemma_potential_walk(es, n, dist, s, p.drop_last());
        let e = p.last();
        assert(dist[es[e].1 as int] <= dist[es[e].0 as int] + es[e].2);
    }
}

/// Distances that no arc shortens leave no room for a negative cycle.
pub proof fn lemma_settled_no_cycle(es: Seq<(usize, usize, i64)>, n: int, dist: Seq<i64>)
    requires
        arcs_in(es, n),
        dist.len() == n,
        forall|i: int| 0 <= i < es.len() ==> dist[(#[trigger] es[i]).1 as int] <= dist[es[i].0 as int] + es[i].2,
    ensures
        no_negative_cycle(es, n),
{
    assert forall|s: int, p: Seq<int>|
        0 <= s < n && #[trigger] is_walk(es, s, p) && walk_end(es, s, p) == s implies walk_len(es, p) >= 0 by {
        lemma_potential_walk(es, n, dist, s, p);
    }
}

/// When every weight among the first `k` lies within `w` of zero, so does
/// the greatest absolute weight.
pub proof fn lemma_max_abs_le(es: Seq<(usize, usize, i64)>, k: int, w: int)
    requires
        0 <= k <= es.len(),
        w >= 0,
        forall|i: int| 0 <= i < k ==> -w <= (#[trigger] es[i]).2 <= w,
    ensures
        max_abs_weight(es, k) <= w,
    decreases k,
{
    if k > 0 {
        lemma_max_abs_le(es, k - 1, w);
        assert(-w <= es[k - 1].2 <= w);
    }
}

} // verus!
