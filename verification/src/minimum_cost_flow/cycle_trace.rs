//! What Bellman-Ford's record of the arcs that last improved each distance
//! keeps true: going back along them from a node improved in the last round
//! lands on a cycle of them, and every such cycle has negative weight.
use crate::shortest_path::walk::{arcs_in, max_abs_weight};
use vstd::prelude::*;

verus! {

/// The tail of the arc that last improved `y`.
pub open spec fn back_step(list: Seq<(usize, usize, i64)>, prev: Seq<usize>, y: int) -> int {
    list[prev[y] as int].0 as int
}

/// The node reached from `y` after `k` steps back along the arcs that last
/// improved the distances.
pub open spec fn back(list: Seq<(usize, usize, i64)>, prev: Seq<usize>, y: int, k: nat) -> int
    decreases k,
{
    if k == 0 {
        y
    } else {
        back_step(list, prev, back(list, prev, y, (k - 1) as nat))
    }
}

/// What the record of improving arcs keeps true after the first `pos` arc
/// relaxations: `stamp[v]` is the relaxation that last improved `v` (`-1`
/// if none did), and `pd[v]` the distance of that arc's tail just before.
/// Each improving arc's tail was improved no earlier than one round before
/// its head; the head's distance is the tail's distance then plus the
/// weight; and the tail's distance has only gone down since, strictly if it
/// was improved again.
#[verifier::opaque]
pub open spec fn trace_ok(
    list: Seq<(usize, usize, i64)>,
    n: int,
    dist: Seq<i64>,
    prev: Seq<usize>,
    stamp: Seq<int>,
    pd: Seq<int>,
    pos: int,
) -> bool {
    &&& stamp.len() == n
    &&& pd.len() == n
    &&& dist.len() == n
    &&& prev.len() == n
    &&& forall|v: int| 0 <= v < n ==> -1 <= #[trigger] stamp[v] < pos
    &&& forall|v: int| 0 <= v < n ==> (#[trigger] stamp[v] == -1 <==> prev[v] == usize::MAX)
    &&& forall|a: int, b: int|
        0 <= a < n && 0 <= b < n && #[trigger] stamp[a] == #[trigger] stamp[b] && stamp[a] >= 0 ==> a == b
    &&& forall|v: int|
        0 <= v < n && #[trigger] prev[v] != usize::MAX ==> {
            let u = list[prev[v] as int].0 as int;
            &&& prev[v] < list.len()
            &&& list[prev[v] as int].1 == v
            &&& 0 <= u < n
            &&& stamp[u] >= stamp[v] - list.len()
            &&& dist[v] == pd[v] + list[prev[v] as int].2
            &&& dist[u] <= pd[v]
            &&& stamp[u] >= stamp[v] ==> dist[u] < pd[v]
        }
}

/// Every arc relaxed since its tail was last improved still holds: the
/// relaxation of arc `j` happened at `round * m + j` if it comes before `i`
/// in this round, else one round earlier.
#[verifier::opaque]
pub open spec fn relaxed_since(
    list: Seq<(usize, usize, i64)>,
    dist: Seq<i64>,
    stamp: Seq<int>,
    round: int,
    i: int,
) -> bool {
    forall|j: int|
        0 <= j < list.len() ==> {
            let q = if j < i {
                round * list.len() + j
            } else {
                (round - 1) * list.len() + j
            };
            (j < i || round >= 1) && stamp[(#[trigger] list[j]).0 as int] < q ==> dist[list[j].1 as int] <= dist[list[j].0 as int]
                + list[j].2
        }
}

/// Going back `i` steps and then `k` more is going back `i + k` steps.
pub proof fn lemma_back_add(list: Seq<(usize, usize, i64)>, prev: Seq<usize>, y: int, i: nat, k: nat)
    ensures
        back(list, prev, y, i + k) == back(list, prev, back(list, prev, y, i), k),
    decreases k,
{
    if k > 0 {
        lemma_back_add(list, prev, y, i, (k - 1) as nat);
        assert((i + k - 1) as nat == (i + (k - 1)) as nat);
    }
}

/// Once the walk back repeats a node, it keeps repeating with that period.
pub proof fn lemma_back_periodic(list: Seq<(usize, usize, i64)>, prev: Seq<usize>, y: int, a: nat, b: nat, j: nat)
    requires
        a < b,
        back(list, prev, y, a) == back(list, prev, y, b),
        a <= j,
    ensures
        back(list, prev, y, (j + (b - a)) as nat) == back(list, prev, y, j),
{
    lemma_back_add(list, prev, y, b, (j - a) as nat);
    lemma_back_add(list, prev, y, a, (j - a) as nat);
    assert((b + (j - a)) as nat == (j + (b - a)) as nat);
    assert((a + (j - a)) as nat == j);
}

/// Past a repeat, every node of the walk back is one met between the two
/// ends of the repeat.
pub proof fn lemma_back_folds(list: Seq<(usize, usize, i64)>, prev: Seq<usize>, y: int, a: nat, b: nat, j: nat) -> (r: nat)
    requires
        a < b,
        back(list, prev, y, a) == back(list, prev, y, b),
        a <= j,
    ensures
        a <= r < b,
        back(list, prev, y, j) == back(list, prev, y, r),
    decreases j,
{
    if j < b {
        j
    } else {
        let j0 = (j - (b - a)) as nat;
        lemma_back_periodic(list, prev, y, a, b, j0);
        assert((j0 + (b - a)) as nat == j);
        lemma_back_folds(list, prev, y, a, b, j0)
    }
}

/// A walk back that returns to `x` after `l` steps returns first after
/// some `t` steps, `1 <= t <= l`.
pub proof fn lemma_first_return(list: Seq<(usize, usize, i64)>, prev: Seq<usize>, x: int, l: nat) -> (t: nat)
    requires
        l >= 1,
        back(list, prev, x, l) == x,
    ensures
        1 <= t <= l,
        back(list, prev, x, t) == x,
        forall|t2: nat| 1 <= t2 < t ==> #[trigger] back(list, prev, x, t2) != x,
    decreases l,
{
    if exists|t2: nat| 1 <= t2 < l && #[trigger] back(list, prev, x, t2) == x {
        let t2 = choose|t2: nat| 1 <= t2 < l && #[trigger] back(list, prev, x, t2) == x;
        lemma_first_return(list, prev, x, t2)
    } else {
        l
    }
}

/// The sum of the first `k` entries of `vals`.
pub open spec fn sum_to(vals: Seq<int>, k: int) -> int
    decreases k,
{
    if k <= 0 {
        0
    } else {
        sum_to(vals, k - 1) + vals[k - 1]
    }
}

/// Shifting a cycle of values by one place keeps their sum.
pub proof fn lemma_sum_rotated(vals: Seq<int>, rot: Seq<int>, k: int)
    requires
        1 <= k <= vals.len(),
        k <= rot.len(),
        forall|j: int| 0 <= j < k - 1 ==> #[trigger] rot[j] == vals[j + 1],
        rot[k - 1] == vals[0],
    ensures
        sum_to(rot, k) == sum_to(vals, k),
{
    lemma_sum_shift(vals, rot, k - 1);
}

/// The first `k` values of `rot` are the values of `vals` from the second
/// on.
proof fn lemma_sum_shift(vals: Seq<int>, rot: Seq<int>, k: int)
    requires
        0 <= k < vals.len(),
        k <= rot.len(),
        forall|j: int| 0 <= j < k ==> #[trigger] rot[j] == vals[j + 1],
    ensures
        sum_to(rot, k) == sum_to(vals, k + 1) - vals[0],
    decreases k,
{
    if k > 0 {
        lemma_sum_shift(vals, rot, k - 1);
        assert(rot[k - 1] == vals[k]);
        assert(sum_to(vals, k + 1) == sum_to(vals, k) + vals[k]);
    } else {
        assert(sum_to(vals, 1) == sum_to(vals, 0) + vals[0]);
    }
}

/// The position among the first `k` of the largest entry.
pub proof fn lemma_argmax(vals: Seq<int>, k: int) -> (j: int)
    requires
        1 <= k <= vals.len(),
    ensures
        0 <= j < k,
        forall|i: int| 0 <= i < k ==> #[trigger] vals[i] <= vals[j],
    decreases k,
{
    if k == 1 {
        0
    } else {
        let j0 = lemma_argmax(vals, k - 1);
        if vals[k - 1] > vals[j0] {
            k - 1
        } else {
            j0
        }
    }
}

/// Weights bounded by `w` sum to at most `k * w` in size over `k` entries.
pub proof fn lemma_max_abs_bound(list: Seq<(usize, usize, i64)>, c: Seq<usize>, k: int)
    requires
        0 <= k <= c.len(),
        forall|j: int| 0 <= j < c.len() ==> (#[trigger] c[j]) < list.len(),
    ensures
        -(k * max_abs_weight(list, list.len() as int)) <= sum_to(
            Seq::new(c.len(), |j: int| list[c[j] as int].2 as int),
            k,
        ) <= k * max_abs_weight(list, list.len() as int),
    decreases k,
{
    if k > 0 {
        lemma_max_abs_bound(list, c, k - 1);
        crate::shortest_path::walk::lemma_max_abs_weight(list, list.len() as int, c[k - 1] as int);
        let w = max_abs_weight(list, list.len() as int);
        assert((k - 1) * w + w == k * w) by (nonlinear_arith);

    }
}

/// Improving the head of arc `i` through it keeps the record true.
pub proof fn lemma_trace_update(
    list: Seq<(usize, usize, i64)>,
    n: int,
    dist: Seq<i64>,
    prev: Seq<usize>,
    stamp: Seq<int>,
    pd: Seq<int>,
    round: int,
    i: int,
    nd: i64,
)
    requires
        0 <= round,
        0 <= i < list.len(),
        list.len() <= usize::MAX,
        arcs_in(list, n),
        trace_ok(list, n, dist, prev, stamp, pd, round * list.len() + i),
        relaxed_since(list, dist, stamp, round, i),
        nd == dist[list[i].0 as int] + list[i].2,
        nd < dist[list[i].1 as int],
    ensures
        ({
            let u = list[i].0 as int;
            let v = list[i].1 as int;
            let g = round * list.len() + i;
            &&& trace_ok(
                list,
                n,
                dist.update(v, nd),
                prev.update(v, i as usize),
                stamp.update(v, g),
                pd.update(v, dist[u] as int),
                g + 1,
            )
            &&& relaxed_since(list, dist.update(v, nd), stamp.update(v, g), round, i + 1)
        }),
{
    reveal(trace_ok);
    reveal(relaxed_since);
    let m = list.len() as int;
    let u = list[i].0 as int;
    let v = list[i].1 as int;
    let w = list[i].2;
    let g = round * m + i;
    let dist1 = dist.update(v, nd);
    let prev1 = prev.update(v, i as usize);
    let stamp1 = stamp.update(v, g);
    let pd1 = pd.update(v, dist[u] as int);
    assert(0 <= u < n && 0 <= v < n);
    if round >= 1 {
        assert(stamp[u] >= g - m) by {
            let q = (round - 1) * m + i;
            assert(q == g - m) by (nonlinear_arith)
                requires
                    q == (round - 1) * m + i,
                    g == round * m + i,
            ;
            if stamp[u] < q {
                assert(dist[v] <= dist[u] + w);
            }
        }
    } else {
        assert(g == i);
    }
    assert forall|x: int| 0 <= x < n && #[trigger] prev1[x] != usize::MAX implies {
        let t = list[prev1[x] as int].0 as int;
        &&& prev1[x] < list.len()
        &&& list[prev1[x] as int].1 == x
        &&& 0 <= t < n
        &&& stamp1[t] >= stamp1[x] - list.len()
        &&& dist1[x] == pd1[x] + list[prev1[x] as int].2
        &&& dist1[t] <= pd1[x]
        &&& stamp1[t] >= stamp1[x] ==> dist1[t] < pd1[x]
    } by {
        if x == v {
            assert(prev1[x] == i);
            assert(list[i].1 == v);
            if u == v {
                assert(stamp1[u] == g);
            } else {
                assert(stamp1[u] == stamp[u]);
                assert(stamp[u] < g);
            }
        } else {
            assert(prev[x] != usize::MAX);
            let t = list[prev[x] as int].0 as int;
            assert(stamp[x] < g);
            if t == v {
                assert(dist[v] <= pd[x]);
            }
        }
    }
    assert forall|a: int, b: int|
        0 <= a < n && 0 <= b < n && #[trigger] stamp1[a] == #[trigger] stamp1[b] && stamp1[a] >= 0 implies a == b by {
        if a != v && b != v {
            assert(stamp[a] == stamp[b]);
        } else if a == v && b != v {
            assert(stamp[b] < g);
        } else if a != v && b == v {
            assert(stamp[a] < g);
        }
    }
    assert forall|x: int| 0 <= x < n implies (#[trigger] stamp1[x] == -1 <==> prev1[x] == usize::MAX) by {
        if x == v {
            assert(g >= 0) by (nonlinear_arith)
                requires
                    g == round * m + i,
                    round >= 0,
                    m >= 0,
                    i >= 0,
            ;
        } else {
            assert(stamp[x] == -1 <==> prev[x] == usize::MAX);
        }
    }
    lemma_trace_update_relaxed(list, n, dist, stamp, round, i, nd);
}

/// Improving the head of arc `i` through it keeps every relaxed arc relaxed.
proof fn lemma_trace_update_relaxed(
    list: Seq<(usize, usize, i64)>,
    n: int,
    dist: Seq<i64>,
    stamp: Seq<int>,
    round: int,
    i: int,
    nd: i64,
)
    requires
        0 <= round,
        0 <= i < list.len(),
        arcs_in(list, n),
        dist.len() == n,
        stamp.len() == n,
        forall|v: int| 0 <= v < n ==> -1 <= #[trigger] stamp[v] < round * list.len() + i,
        relaxed_since(list, dist, stamp, round, i),
        nd == dist[list[i].0 as int] + list[i].2,
        nd < dist[list[i].1 as int],
    ensures
        relaxed_since(
            list,
            dist.update(list[i].1 as int, nd),
            stamp.update(list[i].1 as int, round * list.len() + i),
            round,
            i + 1,
        ),
{
    reveal(trace_ok);
    reveal(relaxed_since);
    let m = list.len() as int;
    let u = list[i].0 as int;
    let v = list[i].1 as int;
    let g = round * m + i;
    let dist1 = dist.update(v, nd);
    let stamp1 = stamp.update(v, g);
    assert((round - 1) * m == round * m - m) by (nonlinear_arith);
    assert forall|j: int|
        0 <= j < list.len() implies {
        let q = if j < i + 1 {
            round * list.len() + j
        } else {
            (round - 1) * list.len() + j
        };
        (j < i + 1 || round >= 1) && stamp1[(#[trigger] list[j]).0 as int] < q ==> dist1[list[j].1 as int]
            <= dist1[list[j].0 as int] + list[j].2
    } by {
        let a = list[j].0 as int;
        let b = list[j].1 as int;
        assert(0 <= a < n && 0 <= b < n);
        let q = if j < i + 1 {
            round * m + j
        } else {
            (round - 1) * m + j
        };
        assert(q <= g);
        if j != i && (j < i + 1 || round >= 1) && stamp1[a] < q {
            if a == v {
                assert(stamp1[a] == g);
            }
            assert(stamp[a] < q);
            let q0 = if j < i {
                round * m + j
            } else {
                (round - 1) * m + j
            };
            assert(q0 == q);
            assert(dist[b] <= dist[a] + list[j].2);
        }
    }
}

/// Relaxing arc `i` without improving its head keeps the record true.
pub proof fn lemma_trace_skip(
    list: Seq<(usize, usize, i64)>,
    n: int,
    dist: Seq<i64>,
    prev: Seq<usize>,
    stamp: Seq<int>,
    pd: Seq<int>,
    round: int,
    i: int,
)
    requires
        0 <= round,
        0 <= i < list.len(),
        arcs_in(list, n),
        trace_ok(list, n, dist, prev, stamp, pd, round * list.len() + i),
        relaxed_since(list, dist, stamp, round, i),
        dist[list[i].1 as int] <= dist[list[i].0 as int] + list[i].2,
    ensures
        trace_ok(list, n, dist, prev, stamp, pd, round * list.len() + i + 1),
        relaxed_since(list, dist, stamp, round, i + 1),
{
    reveal(trace_ok);
    reveal(relaxed_since);
    let m = list.len() as int;
    assert forall|j: int|
        0 <= j < list.len() implies {
        let q = if j < i + 1 {
            round * list.len() + j
        } else {
            (round - 1) * list.len() + j
        };
        (j < i + 1 || round >= 1) && stamp[(#[trigger] list[j]).0 as int] < q ==> dist[list[j].1 as int]
            <= dist[list[j].0 as int] + list[j].2
    } by {
        if j != i {
            let q0 = if j < i {
                round * m + j
            } else {
                (round - 1) * m + j
            };
            let q = if j < i + 1 {
                round * m + j
            } else {
                (round - 1) * m + j
            };
            assert(q0 == q);
        }
    }
}

/// A round ends where the next begins.
pub proof fn lemma_trace_round(
    list: Seq<(usize, usize, i64)>,
    n: int,
    dist: Seq<i64>,
    prev: Seq<usize>,
    stamp: Seq<int>,
    pd: Seq<int>,
    round: int,
)
    requires
        0 <= round,
        trace_ok(list, n, dist, prev, stamp, pd, round * list.len() + list.len()),
        relaxed_since(list, dist, stamp, round, list.len() as int),
    ensures
        trace_ok(list, n, dist, prev, stamp, pd, (round + 1) * list.len()),
        relaxed_since(list, dist, stamp, round + 1, 0),
{
    reveal(trace_ok);
    reveal(relaxed_since);
    let m = list.len() as int;
    assert(round * m + m == (round + 1) * m) by (nonlinear_arith);
    assert forall|j: int|
        0 <= j < list.len() implies {
        let q = if j < 0 {
            (round + 1) * list.len() + j
        } else {
            (round + 1 - 1) * list.len() + j
        };
        (j < 0 || round + 1 >= 1) && stamp[(#[trigger] list[j]).0 as int] < q ==> dist[list[j].1 as int]
            <= dist[list[j].0 as int] + list[j].2
    } by {
        assert((round + 1 - 1) * m == round * m);
    }
}

/// Values each at most a difference sum to at most the difference of the
/// sums, strictly below it where one of them is.
proof fn lemma_sum_le(w: Seq<int>, d: Seq<int>, t: Seq<int>, k: int, js: int)
    requires
        0 <= k <= w.len(),
        k <= d.len(),
        k <= t.len(),
        forall|j: int| 0 <= j < k ==> #[trigger] w[j] <= d[j] - t[j],
        0 <= js < w.len(),
        js < d.len(),
        js < t.len(),
        w[js] < d[js] - t[js],
    ensures
        sum_to(w, k) <= sum_to(d, k) - sum_to(t, k),
        js < k ==> sum_to(w, k) < sum_to(d, k) - sum_to(t, k),
    decreases k,
{
    if k > 0 {
        lemma_sum_le(w, d, t, k - 1, js);
        assert(w[k - 1] <= d[k - 1] - t[k - 1]);
    }
}

/// A cycle of improving arcs has negative weight: the arcs are `c`, arc
/// `c[j]` improved `ys[j]` from the next node of `ys` (the last from the
/// first).
pub proof fn lemma_prev_cycle_negative(
    list: Seq<(usize, usize, i64)>,
    n: int,
    dist: Seq<i64>,
    prev: Seq<usize>,
    stamp: Seq<int>,
    pd: Seq<int>,
    pos: int,
    ys: Seq<int>,
    c: Seq<usize>,
)
    requires
        trace_ok(list, n, dist, prev, stamp, pd, pos),
        ys.len() == c.len(),
        c.len() >= 1,
        forall|j: int| 0 <= j < ys.len() ==> 0 <= #[trigger] ys[j] < n,
        forall|j: int| 0 <= j < ys.len() ==> (#[trigger] c[j]) == prev[ys[j]],
        forall|j: int| 0 <= j < ys.len() ==> prev[#[trigger] ys[j]] != usize::MAX,
        forall|j: int| 0 <= j < c.len() - 1 ==> #[trigger] list[c[j] as int].0 as int == ys[j + 1],
        list[c[c.len() - 1] as int].0 as int == ys[0],
    ensures
        sum_to(Seq::new(c.len(), |j: int| list[c[j] as int].2 as int), c.len() as int) < 0,
{
    reveal(trace_ok);
    reveal(relaxed_since);
    let l = c.len() as int;
    let wv = Seq::new(c.len(), |j: int| list[c[j] as int].2 as int);
    let dv = Seq::new(c.len(), |j: int| dist[ys[j]] as int);
    let tv = Seq::new(c.len(), |j: int| dist[list[c[j] as int].0 as int] as int);
    let sv = Seq::new(c.len(), |j: int| stamp[ys[j]]);
    let jm = lemma_argmax(sv, l);
    let js = if jm >= 1 {
        jm - 1
    } else {
        l - 1
    };
    assert(list[c[js] as int].0 as int == ys[jm]);
    assert(c[js] == prev[ys[js]] && prev[ys[js]] != usize::MAX);
    assert(sv[js] <= sv[jm]);
    assert forall|j: int| 0 <= j < l implies #[trigger] wv[j] <= dv[j] - tv[j] by {
        assert(0 <= j < ys.len());
        assert(c[j] == prev[ys[j]] && prev[ys[j]] != usize::MAX);
        assert(0 <= ys[j] < n);
        assert(wv[j] == list[c[j] as int].2);
        assert(tv[j] == dist[list[c[j] as int].0 as int]);
        assert(dv[j] == dist[ys[j]]);
    }
    lemma_sum_le(wv, dv, tv, l, js);
    assert forall|j: int| 0 <= j < l - 1 implies #[trigger] tv[j] == dv[j + 1] by {}
    lemma_sum_rotated(dv, tv, l);
}

/// What the record says of one node: it was improved exactly when it has
/// an improving arc, and that arc's tail was improved no earlier than one
/// round before it.
pub proof fn lemma_trace_node(
    list: Seq<(usize, usize, i64)>,
    n: int,
    dist: Seq<i64>,
    prev: Seq<usize>,
    stamp: Seq<int>,
    pd: Seq<int>,
    pos: int,
    v: int,
)
    requires
        trace_ok(list, n, dist, prev, stamp, pd, pos),
        0 <= v < n,
    ensures
        stamp.len() == n,
        prev.len() == n,
        -1 <= stamp[v] < pos,
        stamp[v] == -1 <==> prev[v] == usize::MAX,
        prev[v] != usize::MAX ==> prev[v] < list.len() && list[prev[v] as int].1 == v && 0 <= list[prev[v] as int].0 < n
            && stamp[list[prev[v] as int].0 as int] >= stamp[v] - list.len(),
{
    reveal(trace_ok);
}

/// Before any relaxation nothing was improved.
pub proof fn lemma_trace_init(list: Seq<(usize, usize, i64)>, n: int, dist: Seq<i64>, prev: Seq<usize>)
    requires
        0 <= n,
        dist.len() == n,
        prev.len() == n,
        forall|v: int| 0 <= v < n ==> #[trigger] prev[v] == usize::MAX,
    ensures
        trace_ok(list, n, dist, prev, Seq::new(n as nat, |x: int| -1int), Seq::new(n as nat, |x: int| 0int), 0),
        relaxed_since(list, dist, Seq::new(n as nat, |x: int| -1int), 0, 0),
{
    reveal(trace_ok);
    reveal(relaxed_since);
}

} // verus!
