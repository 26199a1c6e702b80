//! A forest stored as a parent array: `parent[v] < 0` marks a root whose
//! tree holds `-parent[v]` nodes, `parent[v] >= 0` is the parent of `v`.
use vstd::prelude::*;

verus! {

/// What a parent entry adds to the node count of the roots.
pub open spec fn root_count(x: isize) -> int {
    if x < 0 {
        -x
    } else {
        0
    }
}

/// The sum of `root_count` over the first `k` entries.
pub open spec fn total(parent: Seq<isize>, k: int) -> int
    decreases k,
{
    if k <= 0 {
        0
    } else {
        total(parent, k - 1) + root_count(parent[k - 1])
    }
}

/// Every entry names a node or is a root count, and the root counts add up
/// to the number of nodes.
pub open spec fn wf_parent(parent: Seq<isize>) -> bool {
    &&& parent.len() <= isize::MAX
    &&& forall|i: int|
        0 <= i < parent.len() ==> -(parent.len() as int) <= #[trigger] parent[i] < parent.len()
    &&& total(parent, parent.len() as int) == parent.len()
}

/// `h` strictly grows from a node to its parent and never exceeds `hmax`.
pub open spec fn ranked(parent: Seq<isize>, h: Seq<nat>, hmax: nat) -> bool {
    &&& h.len() == parent.len()
    &&& forall|i: int| 0 <= i < h.len() ==> #[trigger] h[i] <= hmax
    &&& forall|i: int|
        0 <= i < parent.len() && #[trigger] parent[i] >= 0 ==> h[i] < h[parent[i] as int]
}

/// The node reached from `v` by following parents at most `fuel` times.
pub open spec fn root_fuel(parent: Seq<isize>, v: int, fuel: nat) -> int
    decreases fuel,
{
    if fuel == 0 || parent[v] < 0 {
        v
    } else {
        root_fuel(parent, parent[v] as int, (fuel - 1) as nat)
    }
}

pub proof fn lemma_total_nonneg(parent: Seq<isize>, k: int)
    ensures
        total(parent, k) >= 0,
    decreases k,
{
    if k > 0 {
        lemma_total_nonneg(parent, k - 1);
    }
}

pub proof fn lemma_total_update(parent: Seq<isize>, k: int, i: int, x: isize)
    requires
        0 <= i < parent.len(),
        k <= parent.len(),
    ensures
        total(parent.update(i, x), k) == total(parent, k) + if i < k {
            root_count(x) - root_count(parent[i])
        } else {
            0
        },
    decreases k,
{
    if k > 0 {
        lemma_total_update(parent, k - 1, i, x);
    }
}

pub proof fn lemma_total_two(parent: Seq<isize>, k: int, i: int, j: int)
    requires
        0 <= i < k,
        0 <= j < k,
        i != j,
        k <= parent.len(),
    ensures
        root_count(parent[i]) + root_count(parent[j]) <= total(parent, k),
    decreases k,
{
    lemma_total_nonneg(parent, k - 1);
    if i != k - 1 && j != k - 1 {
        lemma_total_two(parent, k - 1, i, j);
    } else if i == k - 1 {
        lemma_total_one(parent, k - 1, j);
    } else {
        lemma_total_one(parent, k - 1, i);
    }
}

pub proof fn lemma_total_one(parent: Seq<isize>, k: int, i: int)
    requires
        0 <= i < k,
        k <= parent.len(),
    ensures
        root_count(parent[i]) <= total(parent, k),
    decreases k,
{
    lemma_total_nonneg(parent, k - 1);
    if i != k - 1 {
        lemma_total_one(parent, k - 1, i);
    }
}

/// With enough fuel the walk from `v` ends at a root, and more fuel does not
/// change where it ends.
pub proof fn lemma_root_fuel(parent: Seq<isize>, h: Seq<nat>, hmax: nat, v: int, fuel: nat, fuel2: nat)
    requires
        ranked(parent, h, hmax),
        forall|i: int| 0 <= i < parent.len() ==> #[trigger] parent[i] < parent.len(),
        0 <= v < parent.len(),
        fuel >= hmax - h[v] + 1,
        fuel2 >= fuel,
    ensures
        0 <= root_fuel(parent, v, fuel) < parent.len(),
        parent[root_fuel(parent, v, fuel)] < 0,
        root_fuel(parent, v, fuel2) == root_fuel(parent, v, fuel),
    decreases fuel,
{
    if parent[v] >= 0 {
        let p = parent[v] as int;
        assert(h[v] < h[p]);
        lemma_root_fuel(parent, h, hmax, p, (fuel - 1) as nat, (fuel2 - 1) as nat);
    }
}

/// Joining root `y` under root `x` sends every node of `y`'s tree to `x`
/// and leaves the other nodes where they were.
pub proof fn lemma_link(parent: Seq<isize>, h: Seq<nat>, hmax: nat, x: int, y: int, nx: isize, w: int)
    requires
        ranked(parent, h, hmax),
        parent.len() <= isize::MAX,
        forall|i: int| 0 <= i < parent.len() ==> #[trigger] parent[i] < parent.len(),
        0 <= x < parent.len(),
        0 <= y < parent.len(),
        x != y,
        parent[x] < 0,
        parent[y] < 0,
        nx < 0,
        0 <= w < parent.len(),
    ensures
        ({
            let np = parent.update(x, nx).update(y, x as isize);
            let nh = h.update(x, if h[x] > h[y] + 1 { h[x] } else { (h[y] + 1) as nat });
            let nmax = if hmax > h[y] + 1 { hmax } else { (h[y] + 1) as nat };
            &&& ranked(np, nh, nmax)
            &&& root_fuel(np, w, nmax + 1) == if root_fuel(parent, w, hmax + 1) == y {
                x
            } else {
                root_fuel(parent, w, hmax + 1)
            }
        }),
    decreases hmax - h[w],
{
    let np = parent.update(x, nx).update(y, x as isize);
    let nh = h.update(x, if h[x] > h[y] + 1 { h[x] } else { (h[y] + 1) as nat });
    let nmax = if hmax > h[y] + 1 { hmax } else { (h[y] + 1) as nat };
    assert(ranked(np, nh, nmax)) by {
        assert forall|i: int| 0 <= i < np.len() && #[trigger] np[i] >= 0 implies nh[i] < nh[np[i] as int] by {
            if i != y {
                assert(i != x);
                assert(parent[i] >= 0);
            }
        }
    }
    assert(forall|i: int| 0 <= i < np.len() ==> #[trigger] np[i] < np.len());
    if w == y {
        assert(root_fuel(np, x, nmax) == x);
        assert(root_fuel(parent, y, hmax + 1) == y);
    } else if parent[w] < 0 {
        assert(root_fuel(parent, w, hmax + 1) == w);
        assert(root_fuel(np, w, nmax + 1) == w);
    } else {
        let p = parent[w] as int;
        assert(h[w] < h[p]);
        lemma_link(parent, h, hmax, x, y, nx, p);
        lemma_root_fuel(parent, h, hmax, p, hmax as nat, (hmax + 1) as nat);
        lemma_root_fuel(np, nh, nmax, p, nmax as nat, (nmax + 1) as nat);
        assert(root_fuel(parent, w, hmax + 1) == root_fuel(parent, p, hmax as nat));
        assert(root_fuel(np, w, nmax + 1) == root_fuel(np, p, nmax as nat));
    }
}

/// A forest of singletons counts one node per entry.
pub proof fn lemma_total_all_ones(parent: Seq<isize>, k: int)
    requires
        0 <= k <= parent.len(),
        forall|i: int| 0 <= i < parent.len() ==> parent[i] == -1,
    ensures
        total(parent, k) == k,
    decreases k,
{
    if k > 0 {
        lemma_total_all_ones(parent, k - 1);
    }
}

/// A node's rank is at most its root's, strictly below it when it is not the root.
pub proof fn lemma_root_rank(parent: Seq<isize>, h: Seq<nat>, hmax: nat, v: int, fuel: nat)
    requires
        ranked(parent, h, hmax),
        forall|i: int| 0 <= i < parent.len() ==> #[trigger] parent[i] < parent.len(),
        0 <= v < parent.len(),
        fuel >= hmax - h[v] + 1,
    ensures
        h[v] <= h[root_fuel(parent, v, fuel)],
        parent[v] >= 0 ==> h[v] < h[root_fuel(parent, v, fuel)],
    decreases fuel,
{
    if parent[v] >= 0 {
        let p = parent[v] as int;
        lemma_root_rank(parent, h, hmax, p, (fuel - 1) as nat);
    }
}

/// Pointing `u` straight at its root keeps the ranks valid and every
/// node's root.
pub proof fn lemma_compress(parent: Seq<isize>, h: Seq<nat>, hmax: nat, u: int, w: int)
    requires
        ranked(parent, h, hmax),
        parent.len() <= isize::MAX,
        forall|i: int| 0 <= i < parent.len() ==> #[trigger] parent[i] < parent.len(),
        0 <= u < parent.len(),
        parent[u] >= 0,
        0 <= w < parent.len(),
    ensures
        ({
            let np = parent.update(u, root_fuel(parent, u, hmax + 1) as isize);
            &&& ranked(np, h, hmax)
            &&& root_fuel(np, w, hmax + 1) == root_fuel(parent, w, hmax + 1)
        }),
    decreases hmax - h[w],
{
    let r = root_fuel(parent, u, hmax + 1);
    lemma_root_fuel(parent, h, hmax, u, (hmax + 1) as nat, (hmax + 1) as nat);
    lemma_root_rank(parent, h, hmax, u, (hmax + 1) as nat);
    let np = parent.update(u, r as isize);
    assert(ranked(np, h, hmax)) by {
        assert forall|i: int| 0 <= i < np.len() && #[trigger] np[i] >= 0 implies h[i] < h[np[i] as int] by {
            if i != u {
                assert(parent[i] >= 0);
            }
        }
    }
    assert(forall|i: int| 0 <= i < np.len() ==> #[trigger] np[i] < np.len());
    if w == u {
        let p = parent[u] as int;
        lemma_root_fuel(parent, h, hmax, p, hmax, (hmax + 1) as nat);
        assert(root_fuel(np, r, hmax) == r);
    } else if parent[w] < 0 {
        assert(root_fuel(np, w, hmax + 1) == w);
    } else {
        let p = parent[w] as int;
        lemma_compress(parent, h, hmax, u, p);
        lemma_root_fuel(parent, h, hmax, p, hmax, (hmax + 1) as nat);
        lemma_root_fuel(np, h, hmax, p, hmax, (hmax + 1) as nat);
    }
}

} // verus!
