use crate::data_structures::forest::{
    lemma_compress, lemma_link, lemma_root_fuel, lemma_root_rank, lemma_total_all_ones, lemma_total_two,
    lemma_total_update, ranked, root_fuel, wf_parent,
};
use std::collections::HashSet;
use vstd::prelude::*;

verus! {

broadcast use vstd::std_specs::hash::group_hash_axioms;

/// A union-find structure over the nodes `0..num_nodes` with union by size
/// and path compression.
pub struct UnionFind {
    num_nodes: usize,
    set_size: usize,
    leaders: HashSet<usize>,
    parent: Vec<isize>,
    next: Vec<usize>,
    h: Ghost<Seq<nat>>,
    hmax: Ghost<nat>,
    /// For each representative, the nodes of its set in the order `next`
    /// visits them, the representative first.
    cyc: Ghost<Seq<Seq<int>>>,
}

/// `c` lists `size` distinct nodes below `n`, `r` first, each one's `next`
/// the one after it and the last one's `next` back at `r`.
pub open spec fn cycle_ok(c: Seq<int>, next: Seq<usize>, r: int, size: int, n: int) -> bool {
    &&& size >= 1
    &&& c.len() == size
    &&& c[0] == r
    &&& c.no_duplicates()
    &&& forall|i: int| 0 <= i < size ==> 0 <= #[trigger] c[i] < n
    &&& forall|i: int| 0 <= i < size - 1 ==> next[#[trigger] c[i]] == c[i + 1]
    &&& next[c[size - 1]] == r
}

/// The cycle of `u` followed by that of `v`, as `next` runs after `u`'s and
/// `v`'s successors are swapped: `u`, the rest of `v`'s cycle, `v`, the rest
/// of `u`'s cycle.
pub open spec fn spliced(ca: Seq<int>, cb: Seq<int>) -> Seq<int> {
    let a = ca.len() as int;
    let b = cb.len() as int;
    Seq::new(
        (a + b) as nat,
        |i: int|
            if i == 0 {
                ca[0]
            } else if i < b {
                cb[i]
            } else if i == b {
                cb[0]
            } else {
                ca[i - b]
            },
    )
}

/// Swapping the successors of the first nodes of two disjoint cycles
/// joins them into one cycle holding the nodes of both.
pub proof fn lemma_splice(next: Seq<usize>, n: int, ca: Seq<int>, cb: Seq<int>, u: int, v: int, a: int, b: int)
    requires
        next.len() == n,
        cycle_ok(ca, next, u, a, n),
        cycle_ok(cb, next, v, b, n),
        forall|i: int, j: int| 0 <= i < a && 0 <= j < b ==> #[trigger] ca[i] != #[trigger] cb[j],
    ensures
        cycle_ok(
            spliced(ca, cb),
            next.update(v, next[u]).update(u, next[v]),
            u,
            a + b,
            n,
        ),
        forall|x: int| #[trigger] spliced(ca, cb).contains(x) <==> (ca.contains(x) || cb.contains(x)),
{
    let c = spliced(ca, cb);
    let nn = next.update(v, next[u]).update(u, next[v]);
    assert(u != v) by {
        assert(ca[0] != cb[0]);
    }
    assert forall|i: int, j: int| 0 <= i < a + b && 0 <= j < a + b && i != j implies c[i] != c[j] by {
        if i < b && j < b {
            if i == 0 {
                assert(ca[0] != cb[j]);
            } else if j == 0 {
                assert(ca[0] != cb[i]);
            } else {
                assert(cb.no_duplicates());
            }
        } else if i >= b && j >= b {
            if i == b {
                assert(ca[j - b] != cb[0]);
            } else if j == b {
                assert(ca[i - b] != cb[0]);
            } else {
                assert(ca.no_duplicates());
            }
        } else {
            let (p, q) = if i < b { (i, j) } else { (j, i) };
            if p == 0 && q == b {
                assert(ca[0] != cb[0]);
            } else if p == 0 {
                assert(ca[0] != ca[q - b]);
            } else if q == b {
                assert(cb[p] != cb[0]);
            } else {
                assert(ca[q - b] != cb[p]);
            }
        }
    }
    assert forall|i: int| 0 <= i < a + b - 1 implies nn[#[trigger] c[i]] == c[i + 1] by {
        if i == 0 {
            if b > 1 {
                assert(next[cb[0]] == cb[1]);
            }
        } else if i < b {
            assert(cb[i] != cb[0]);
            assert(ca[0] != cb[i]);
            if i < b - 1 {
                assert(next[cb[i]] == cb[i + 1]);
            }
        } else if i == b {
            assert(next[ca[0]] == ca[1]);
        } else {
            let k = i - b;
            assert(ca[k] != ca[0]);
            assert(ca[k] != cb[0]);
            assert(next[ca[k]] == ca[k + 1]);
        }
    }
    if a >= 2 {
        assert(ca[a - 1] != ca[0]);
        assert(ca[a - 1] != cb[0]);
    }
    assert forall|x: int| #[trigger] c.contains(x) <==> (ca.contains(x) || cb.contains(x)) by {
        if c.contains(x) {
            let i = choose|i: int| 0 <= i < c.len() && c[i] == x;
            if i == 0 {
                assert(ca[0] == x);
            } else if i < b {
                assert(cb[i] == x);
            } else if i == b {
                assert(cb[0] == x);
            } else {
                assert(ca[i - b] == x);
            }
        }
        if ca.contains(x) {
            let i = choose|i: int| 0 <= i < ca.len() && ca[i] == x;
            if i == 0 {
                assert(c[0] == x);
            } else {
                assert(c[i + b] == x);
            }
        }
        if cb.contains(x) {
            let i = choose|i: int| 0 <= i < cb.len() && cb[i] == x;
            if i == 0 {
                assert(c[b] == x);
            } else {
                assert(c[i] == x);
            }
        }
    }
}

/// Each representative's cycle holds, once each, exactly the nodes whose
/// representative it is.
#[verifier::opaque]
pub open spec fn cycles_ok(parent: Seq<isize>, next: Seq<usize>, cyc: Seq<Seq<int>>, hmax: nat, n: int) -> bool {
    &&& cyc.len() == n
    &&& forall|r: int|
        0 <= r < n && #[trigger] parent[r] < 0 ==> {
            &&& cycle_ok(cyc[r], next, r, -parent[r], n)
            &&& forall|i: int| 0 <= i < cyc[r].len() ==> root_fuel(parent, #[trigger] cyc[r][i], hmax + 1) == r
        }
    &&& forall|w: int| 0 <= w < n ==> cyc[#[trigger] root_fuel(parent, w, hmax + 1)].contains(w)
}

/// The cycles stay valid when no representative, no size and no
/// node's representative changes.
proof fn lemma_cycles_frame(
    parent0: Seq<isize>,
    parent1: Seq<isize>,
    next: Seq<usize>,
    cyc: Seq<Seq<int>>,
    hmax: nat,
    n: int,
)
    requires
        cycles_ok(parent0, next, cyc, hmax, n),
        parent0.len() == n,
        parent1.len() == n,
        forall|w: int| 0 <= w < n ==> #[trigger] root_fuel(parent1, w, hmax + 1) == root_fuel(parent0, w, hmax + 1),
        forall|w: int| 0 <= w < n ==> (#[trigger] parent1[w] < 0) == (parent0[w] < 0),
        forall|w: int| 0 <= w < n && parent0[w] < 0 ==> #[trigger] parent1[w] == parent0[w],
    ensures
        cycles_ok(parent1, next, cyc, hmax, n),
{
    reveal(cycles_ok);
    assert forall|r: int| 0 <= r < n && #[trigger] parent1[r] < 0 implies {
        &&& cycle_ok(cyc[r], next, r, -parent1[r], n)
        &&& forall|i: int| 0 <= i < cyc[r].len() ==> root_fuel(parent1, #[trigger] cyc[r][i], hmax + 1) == r
    } by {
        assert(parent0[r] < 0);
        assert forall|i: int| 0 <= i < cyc[r].len() implies root_fuel(parent1, #[trigger] cyc[r][i], hmax + 1) == r by {
            assert(root_fuel(parent0, cyc[r][i], hmax + 1) == r);
        }
    }
    assert forall|w: int| 0 <= w < n implies cyc[#[trigger] root_fuel(parent1, w, hmax + 1)].contains(w) by {
        assert(cyc[root_fuel(parent0, w, hmax + 1)].contains(w));
    }
}

/// Joining the set of root `v` under root `u` splices their cycles.
proof fn lemma_union_cycles(
    parent0: Seq<isize>,
    next0: Seq<usize>,
    cyc0: Seq<Seq<int>>,
    hmax0: nat,
    parent1: Seq<isize>,
    next1: Seq<usize>,
    cyc1: Seq<Seq<int>>,
    hmax1: nat,
    n: int,
    u: int,
    v: int,
)
    requires
        cycles_ok(parent0, next0, cyc0, hmax0, n),
        parent0.len() == n,
        parent1.len() == n,
        next0.len() == n,
        0 <= u < n,
        0 <= v < n,
        u != v,
        parent0[u] < 0,
        parent0[v] < 0,
        root_fuel(parent0, u, hmax0 + 1) == u,
        root_fuel(parent0, v, hmax0 + 1) == v,
        parent1[u] == parent0[u] + parent0[v],
        parent1[v] >= 0,
        forall|r: int| 0 <= r < n && r != u && r != v ==> #[trigger] parent1[r] == parent0[r],
        next1 == next0.update(v, next0[u]).update(u, next0[v]),
        cyc1 == cyc0.update(u, spliced(cyc0[u], cyc0[v])),
        forall|w: int| 0 <= w < n ==> 0 <= #[trigger] root_fuel(parent0, w, hmax0 + 1) < n,
        forall|w: int|
            0 <= w < n ==> #[trigger] root_fuel(parent1, w, hmax1 + 1) == if root_fuel(parent0, w, hmax0 + 1) == u
                || root_fuel(parent0, w, hmax0 + 1) == v {
                u
            } else {
                root_fuel(parent0, w, hmax0 + 1)
            },
    ensures
        cycles_ok(parent1, next1, cyc1, hmax1, n),
{
    reveal(cycles_ok);
    let ca = cyc0[u];
    let cb = cyc0[v];
    assert(cycle_ok(ca, next0, u, -parent0[u], n));
    assert(cycle_ok(cb, next0, v, -parent0[v], n));
    assert forall|i: int, j: int| 0 <= i < ca.len() && 0 <= j < cb.len() implies #[trigger] ca[i] != #[trigger] cb[j] by {
        assert(root_fuel(parent0, ca[i], hmax0 + 1) == u);
        assert(root_fuel(parent0, cb[j], hmax0 + 1) == v);
    }
    lemma_splice(next0, n, ca, cb, u, v, -parent0[u], -parent0[v]);
    let c = spliced(ca, cb);
    assert forall|r: int| 0 <= r < n && #[trigger] parent1[r] < 0 implies {
        &&& cycle_ok(cyc1[r], next1, r, -parent1[r], n)
        &&& forall|i: int| 0 <= i < cyc1[r].len() ==> root_fuel(parent1, #[trigger] cyc1[r][i], hmax1 + 1) == r
    } by {
        if r == u {
            assert(cyc1[r] == c);
            assert forall|i: int| 0 <= i < c.len() implies root_fuel(parent1, #[trigger] c[i], hmax1 + 1) == r by {
                assert(c.contains(c[i]));
                if ca.contains(c[i]) {
                    let k = choose|k: int| 0 <= k < ca.len() && ca[k] == c[i];
                    assert(root_fuel(parent0, ca[k], hmax0 + 1) == u);
                } else {
                    let k = choose|k: int| 0 <= k < cb.len() && cb[k] == c[i];
                    assert(root_fuel(parent0, cb[k], hmax0 + 1) == v);
                }
            }
        } else {
            assert(parent0[r] < 0);
            let cr = cyc0[r];
            assert(cyc1[r] == cr);
            assert forall|i: int| 0 <= i < cr.len() implies root_fuel(parent1, #[trigger] cr[i], hmax1 + 1) == r && cr[i]
                != u && cr[i] != v by {
                assert(root_fuel(parent0, cr[i], hmax0 + 1) == r);
            }
            assert forall|i: int| 0 <= i < cr.len() - 1 implies next1[#[trigger] cr[i]] == cr[i + 1] by {
                assert(root_fuel(parent0, cr[i], hmax0 + 1) == r);
                assert(next0[cr[i]] == cr[i + 1]);
            }
            let last = cr.len() - 1;
            assert(root_fuel(parent0, cr[last], hmax0 + 1) == r);
        }
    }
    assert forall|w: int| 0 <= w < n implies cyc1[#[trigger] root_fuel(parent1, w, hmax1 + 1)].contains(w) by {
        let r0 = root_fuel(parent0, w, hmax0 + 1);
        assert(cyc0[r0].contains(w));
        if r0 == u || r0 == v {
            assert(c.contains(w));
        }
    }
}

impl View for UnionFind {
    type V = Seq<isize>;

    /// The parent array: a negative entry marks a representative and holds
    /// minus the size of its set.
    closed spec fn view(&self) -> Seq<isize> {
        self.parent@
    }
}

impl UnionFind {
    pub closed spec fn wf(&self) -> bool {
        &&& self.parent@.len() == self.num_nodes
        &&& self.next@.len() == self.num_nodes
        &&& wf_parent(self.parent@)
        &&& ranked(self.parent@, self.h@, self.hmax@)
        &&& forall|i: int| 0 <= i < self.num_nodes ==> #[trigger] self.next@[i] < self.num_nodes
        &&& self.leaders@ == Set::new(|r: usize| r < self.num_nodes && self.parent@[r as int] < 0)
        &&& self.leaders@.finite()
        &&& self.set_size == self.leaders@.len()
        &&& cycles_ok(self.parent@, self.next@, self.cyc@, self.hmax@, self.num_nodes as int)
    }

    pub open spec fn num_nodes(&self) -> nat {
        self@.len()
    }

    /// The representative of the set that holds `v`.
    pub closed spec fn root(&self, v: int) -> int {
        root_fuel(self.parent@, v, self.hmax@ + 1)
    }

    /// The node after `x` in the cycle through the set of `x` that `group`
    /// follows.
    pub closed spec fn successor(&self, x: int) -> int {
        self.next@[x] as int
    }

    /// The number of sets.
    pub closed spec fn num_sets(&self) -> nat {
        self.set_size as nat
    }

    /// The representative of `v` is a node whose entry is negative: `v`
    /// itself when its entry is negative, else the representative of its
    /// parent.
    pub proof fn lemma_root(&self, v: int)
        requires
            self.wf(),
            0 <= v < self.num_nodes(),
        ensures
            0 <= self.root(v) < self.num_nodes(),
            self@[self.root(v)] < 0,
            self@[v] < 0 ==> self.root(v) == v,
            self@[v] >= 0 ==> self.root(v) == self.root(self@[v] as int),
    {
        lemma_root_fuel(self.parent@, self.h@, self.hmax@, v, (self.hmax@ + 1) as nat, (self.hmax@ + 1) as nat);
        if self.parent@[v] >= 0 {
            let p = self.parent@[v] as int;
            lemma_root_fuel(self.parent@, self.h@, self.hmax@, p, self.hmax@, (self.hmax@ + 1) as nat);
        }
    }

    /// `num_nodes` singleton sets.
    pub fn new(num_nodes: usize) -> (uf: Self)
        requires
            num_nodes <= isize::MAX,
        ensures
            uf.wf(),
            uf@ == Seq::new(num_nodes as nat, |i: int| -1isize),
            uf.num_sets() == num_nodes,
    {
        let mut leaders: HashSet<usize> = HashSet::new();
        let mut next: Vec<usize> = Vec::new();
        let mut i: usize = 0;
        while i < num_nodes
            invariant
                i <= num_nodes,
                leaders@ == Set::new(|r: usize| r < i),
                leaders@.finite(),
                leaders@.len() == i,
                next@.len() == i,
                forall|j: int| 0 <= j < i ==> next@[j] == j,
            decreases num_nodes - i,
        {
            proof {
                assert(!leaders@.contains(i));
            }
            leaders.insert(i);
            next.push(i);
            assert(leaders@ =~= Set::new(|r: usize| r < i + 1));
            i = i + 1;
        }
        let uf = Self {
            num_nodes,
            set_size: num_nodes,
            leaders,
            parent: vec![-1isize; num_nodes],
            next,
            h: Ghost(Seq::new(num_nodes as nat, |i: int| 0nat)),
            hmax: Ghost(0nat),
            cyc: Ghost(Seq::new(num_nodes as nat, |i: int| seq![i])),
        };
        proof {
            reveal(cycles_ok);
            lemma_total_all_ones(uf.parent@, num_nodes as int);
            assert forall|r: int| 0 <= r < num_nodes && #[trigger] uf.parent@[r] < 0 implies {
                &&& cycle_ok(uf.cyc@[r], uf.next@, r, -uf.parent@[r], num_nodes as int)
                &&& forall|i: int|
                    0 <= i < uf.cyc@[r].len() ==> root_fuel(uf.parent@, #[trigger] uf.cyc@[r][i], uf.hmax@ + 1) == r
            } by {
                assert(uf.cyc@[r] == seq![r]);
                assert(uf.cyc@[r].no_duplicates());
            }
            assert forall|w: int| 0 <= w < num_nodes implies uf.cyc@[#[trigger] root_fuel(uf.parent@, w, uf.hmax@ + 1)].contains(w) by {
                assert(root_fuel(uf.parent@, w, uf.hmax@ + 1) == w);
                assert(uf.cyc@[w][0] == w);
            }
            assert(uf.leaders@ =~= Set::new(|r: usize| r < uf.num_nodes && uf.parent@[r as int] < 0));
        }
        assert(uf@ =~= Seq::new(num_nodes as nat, |i: int| -1isize));
        uf
    }

    /// The representative of `u`'s set; points every node on the way straight at it.
    fn find_root(&mut self, u: usize) -> (r: usize)
        requires
            old(self).wf(),
            u < old(self).num_nodes(),
        ensures
            final(self).wf(),
            final(self).num_nodes() == old(self).num_nodes(),
            final(self).num_sets() == old(self).num_sets(),
            r == old(self).root(u as int),
            r < old(self).num_nodes(),
            final(self)@[r as int] < 0,
            final(self).h == old(self).h,
            final(self).hmax == old(self).hmax,
            final(self).next == old(self).next,
            forall|w: int| 0 <= w < old(self).num_nodes() ==> #[trigger] final(self).root(w) == old(self).root(w),
            forall|w: int| 0 <= w < old(self).num_nodes() ==> (#[trigger] final(self)@[w] < 0) == (old(self)@[w] < 0),
            forall|w: int| 0 <= w < old(self).num_nodes() && old(self)@[w] < 0 ==> #[trigger] final(self)@[w] == old(self)@[w],
        decreases old(self).hmax@ - old(self).h@[u as int],
    {
        proof {
            self.lemma_root(u as int);
        }
        if self.parent[u] < 0 {
            u
        } else {
            let p = self.parent[u] as usize;
            proof {
                lemma_root_rank(self.parent@, self.h@, self.hmax@, u as int, (self.hmax@ + 1) as nat);
                assert(self.h@[u as int] < self.h@[p as int]);
            }
            let root = self.find_root(p);
            let ghost mid = self.parent@;
            let ghost mid_uf = *self;
            proof {
                assert(mid[u as int] >= 0);
                assert(root_fuel(mid, u as int, self.hmax@ + 1) == root as int) by {
                    self.lemma_root(u as int);
                    self.lemma_root(p as int);
                }
                assert forall|w: int| 0 <= w < self.num_nodes() implies #[trigger] root_fuel(
                    mid.update(u as int, root as isize),
                    w,
                    self.hmax@ + 1,
                ) == root_fuel(mid, w, self.hmax@ + 1) by {
                    lemma_compress(mid, self.h@, self.hmax@, u as int, w);
                }
                lemma_compress(mid, self.h@, self.hmax@, u as int, 0);
                lemma_total_update(mid, mid.len() as int, u as int, root as isize);
            }
            self.parent.set(u, root as isize);
            proof {
                assert(self.parent@ == mid.update(u as int, root as isize));
                assert forall|w: int| 0 <= w < self.num_nodes() implies #[trigger] self.root(w) == old(self).root(w) by {
                    assert(mid_uf.root(w) == old(self).root(w));
                }
                assert forall|w: int| 0 <= w < self.num_nodes() implies #[trigger] root_fuel(self.parent@, w, self.hmax@ + 1)
                    == root_fuel(mid, w, self.hmax@ + 1) by {
                    assert(mid_uf.root(w) == old(self).root(w));
                    assert(self.root(w) == old(self).root(w));
                }
                lemma_cycles_frame(mid, self.parent@, self.next@, self.cyc@, self.hmax@, self.num_nodes() as int);
                assert(self.leaders@ =~= Set::new(|r: usize| r < self.num_nodes && self.parent@[r as int] < 0));
            }
            root
        }
    }

    /// Whether `u` and `v` are in the same set.
    #[inline]
    pub fn same(&mut self, u: usize, v: usize) -> (r: bool)
        requires
            old(self).wf(),
            u < old(self).num_nodes(),
            v < old(self).num_nodes(),
        ensures
            final(self).wf(),
            final(self).num_nodes() == old(self).num_nodes(),
            final(self).num_sets() == old(self).num_sets(),
            r == (old(self).root(u as int) == old(self).root(v as int)),
            forall|w: int| 0 <= w < old(self).num_nodes() ==> #[trigger] final(self).root(w) == old(self).root(w),
            forall|w: int| 0 <= w < old(self).num_nodes() && old(self)@[w] < 0 ==> #[trigger] final(self)@[w] == old(self)@[w],
            forall|w: int| 0 <= w < old(self).num_nodes() ==> (#[trigger] final(self)@[w] < 0) == (old(self)@[w] < 0),
            forall|w: int| 0 <= w < old(self).num_nodes() ==> #[trigger] final(self).successor(w) == old(self).successor(w),
    {
        let ru = self.find_root(u);
        let rv = self.find_root(v);
        ru == rv
    }

    /// Joins the sets of `u` and `v`; the representative of the larger set
    /// (of `u`'s set on a tie) stays. Returns false, changing no set, when
    /// they were one set already.
    #[verifier::rlimit(60)]
    #[verifier::spinoff_prover]
    pub fn union(&mut self, u: usize, v: usize) -> (merged: bool)
        requires
            old(self).wf(),
            u < old(self).num_nodes(),
            v < old(self).num_nodes(),
        ensures
            final(self).wf(),
            final(self).num_nodes() == old(self).num_nodes(),
            merged == (old(self).root(u as int) != old(self).root(v as int)),
            final(self).num_sets() == old(self).num_sets() - if merged { 1int } else { 0int },
            ({
                let ru = old(self).root(u as int);
                let rv = old(self).root(v as int);
                let keep = if old(self)@[ru] > old(self)@[rv] { rv } else { ru };
                &&& merged ==> final(self)@[keep] == old(self)@[ru] + old(self)@[rv]
                &&& forall|r: int|
                    0 <= r < old(self).num_nodes() && old(self)@[r] < 0 && r != ru && r != rv ==> final(self)@[r]
                        == #[trigger] old(self)@[r]
            }),
            ({
                let ru = old(self).root(u as int);
                let rv = old(self).root(v as int);
                let keep = if old(self)@[ru] > old(self)@[rv] { rv } else { ru };
                forall|w: int|
                    0 <= w < old(self).num_nodes() ==> #[trigger] final(self).root(w) == if old(self).root(w)
                        == ru || old(self).root(w) == rv {
                        keep
                    } else {
                        old(self).root(w)
                    }
            }),
    {
        let mut u = self.find_root(u);
        let mut v = self.find_root(v);
        let ghost ru = u as int;
        let ghost rv = v as int;
        let ghost found = *self;
        proof {
            assert(self.leaders@.contains(u));
            self.lemma_root(u as int);
            self.lemma_root(v as int);
        }
        if u == v {
            return false;
        }
        if self.parent[u] > self.parent[v] {
            let t = u;
            u = v;
            v = t;
        }
        let ghost mid = self.parent@;
        let ghost n = mid.len() as int;
        let pu = self.parent[u];
        let pv = self.parent[v];
        proof {
            lemma_total_two(mid, n, u as int, v as int);
        }
        self.parent.set(u, pu + pv);
        self.parent.set(v, u as isize);
        let nu = self.next[u];
        let nv = self.next[v];
        self.next.set(v, nu);
        self.next.set(u, nv);
        self.set_size = self.set_size - 1;
        let ghost leaders_before = self.leaders@;
        self.leaders.remove(&v);
        let ghost nh = self.h@.update(
            u as int,
            if self.h@[u as int] > self.h@[v as int] + 1 {
                self.h@[u as int]
            } else {
                (self.h@[v as int] + 1) as nat
            },
        );
        let ghost nmax = if self.hmax@ > self.h@[v as int] + 1 {
            self.hmax@
        } else {
            (self.h@[v as int] + 1) as nat
        };
        proof {
            let np = self.parent@;
            assert(np == mid.update(u as int, (pu + pv) as isize).update(v as int, u as isize));
            assert forall|w: int| 0 <= w < n implies #[trigger] root_fuel(np, w, nmax + 1) == if root_fuel(
                mid,
                w,
                self.hmax@ + 1,
            ) == v {
                u as int
            } else {
                root_fuel(mid, w, self.hmax@ + 1)
            } by {
                lemma_link(mid, self.h@, self.hmax@, u as int, v as int, (pu + pv) as isize, w);
            }
            lemma_link(mid, self.h@, self.hmax@, u as int, v as int, (pu + pv) as isize, 0);
            lemma_total_update(mid, n, u as int, (pu + pv) as isize);
            lemma_total_update(mid.update(u as int, (pu + pv) as isize), n, v as int, u as isize);
            assert(leaders_before.contains(v));
            assert(self.leaders@ == leaders_before.remove(v));
            assert(self.leaders@ =~= Set::new(|r: usize| r < self.num_nodes && self.parent@[r as int] < 0));
            self.h@ = nh;
            self.hmax@ = nmax;
            self.cyc@ = found.cyc@.update(u as int, spliced(found.cyc@[u as int], found.cyc@[v as int]));
            found.lemma_root(u as int);
            found.lemma_root(v as int);
            assert forall|r: int| 0 <= r < n && r != u && r != v implies #[trigger] self.parent@[r] == mid[r] by {}
            assert forall|w: int| 0 <= w < n implies 0 <= #[trigger] root_fuel(mid, w, found.hmax@ + 1) < n by {
                found.lemma_root(w);
            }
            lemma_union_cycles(mid, found.next@, found.cyc@, found.hmax@, self.parent@, self.next@, self.cyc@, self.hmax@, n, u as int, v as int);
            let keep = if old(self)@[ru] > old(self)@[rv] { rv } else { ru };
            assert(keep == u);
            assert forall|w: int| 0 <= w < n implies #[trigger] self.root(w) == if old(self).root(w) == ru
                || old(self).root(w) == rv {
                keep
            } else {
                old(self).root(w)
            } by {
                assert(found.root(w) == old(self).root(w));
            }
        }
        true
    }

    /// The number of nodes in `u`'s set.
    #[inline]
    pub fn size(&mut self, u: usize) -> (s: usize)
        requires
            old(self).wf(),
            u < old(self).num_nodes(),
        ensures
            final(self).wf(),
            final(self).num_nodes() == old(self).num_nodes(),
            final(self).num_sets() == old(self).num_sets(),
            s == -old(self)@[old(self).root(u as int)],
            s > 0,
            forall|w: int| 0 <= w < old(self).num_nodes() ==> #[trigger] final(self).root(w) == old(self).root(w),
            forall|w: int| 0 <= w < old(self).num_nodes() && old(self)@[w] < 0 ==> #[trigger] final(self)@[w] == old(self)@[w],
            forall|w: int| 0 <= w < old(self).num_nodes() ==> (#[trigger] final(self)@[w] < 0) == (old(self)@[w] < 0),
            forall|w: int| 0 <= w < old(self).num_nodes() ==> #[trigger] final(self).successor(w) == old(self).successor(w),
    {
        let p = self.find_root(u);
        proof {
            self.lemma_root(p as int);
        }
        (-self.parent[p]) as usize
    }

    /// The representative of the set that holds `u`.
    #[inline]
    pub fn find(&mut self, u: usize) -> (r: usize)
        requires
            old(self).wf(),
            u < old(self).num_nodes(),
        ensures
            final(self).wf(),
            final(self).num_nodes() == old(self).num_nodes(),
            final(self).num_sets() == old(self).num_sets(),
            r == old(self).root(u as int),
            forall|w: int| 0 <= w < old(self).num_nodes() ==> #[trigger] final(self).root(w) == old(self).root(w),
            forall|w: int| 0 <= w < old(self).num_nodes() && old(self)@[w] < 0 ==> #[trigger] final(self)@[w] == old(self)@[w],
            forall|w: int| 0 <= w < old(self).num_nodes() ==> (#[trigger] final(self)@[w] < 0) == (old(self)@[w] < 0),
            forall|w: int| 0 <= w < old(self).num_nodes() ==> #[trigger] final(self).successor(w) == old(self).successor(w),
    {
        self.find_root(u)
    }

    /// The nodes of `u`'s set, its representative first.
    #[verifier::rlimit(60)]
    #[verifier::spinoff_prover]
    pub fn group(&mut self, u: usize) -> (g: Vec<usize>)
        requires
            old(self).wf(),
            u < old(self).num_nodes(),
        ensures
            final(self).wf(),
            final(self).num_nodes() == old(self).num_nodes(),
            final(self).num_sets() == old(self).num_sets(),
            g@.len() == -old(self)@[old(self).root(u as int)],
            g@.len() > 0 && g@[0] == old(self).root(u as int),
            forall|i: int| 0 <= i < g@.len() ==> #[trigger] g@[i] < old(self).num_nodes(),
            g@.no_duplicates(),
            forall|w: usize|
                w < old(self).num_nodes() ==> (#[trigger] g@.contains(w) <==> old(self).root(w as int) == old(self).root(
                    u as int,
                )),
            forall|i: int| 0 <= i < g@.len() - 1 ==> g@[i + 1] == old(self).successor(#[trigger] g@[i] as int),
            forall|w: int| 0 <= w < old(self).num_nodes() ==> #[trigger] final(self).root(w) == old(self).root(w),
            forall|w: int| 0 <= w < old(self).num_nodes() && old(self)@[w] < 0 ==> #[trigger] final(self)@[w] == old(self)@[w],
            forall|w: int| 0 <= w < old(self).num_nodes() ==> (#[trigger] final(self)@[w] < 0) == (old(self)@[w] < 0),
            forall|w: int| 0 <= w < old(self).num_nodes() ==> #[trigger] final(self).successor(w) == old(self).successor(w),
    {
        let cap = self.size(u);
        let mut group: Vec<usize> = Vec::with_capacity(cap);
        let ghost mid = *self;
        let mut now = self.find_root(u);
        let ghost r = now as int;
        let ghost c = self.cyc@[r];
        proof {
            reveal(cycles_ok);
            self.lemma_root(r);
            assert(self.root(r) == r);
            assert(cycle_ok(c, self.next@, r, -self.parent@[r], self.num_nodes as int));
            assert(cap == -self.parent@[r]);
        }
        let mut k: usize = 0;
        while k < cap
            invariant
                self.wf(),
                k <= cap,
                cap == c.len(),
                now < self.num_nodes(),
                cycle_ok(c, self.next@, r, cap as int, self.num_nodes() as int),
                k < cap ==> now == c[k as int],
                group@.len() == k,
                forall|i: int| 0 <= i < k ==> #[trigger] group@[i] == c[i],
            decreases cap - k,
        {
            group.push(now);
            now = self.next[now];
            k = k + 1;
        }
        proof {
            reveal(cycles_ok);
            self.lemma_root(u as int);
            assert(group@.len() == c.len());
            assert forall|i: int| 0 <= i < group@.len() - 1 implies group@[i + 1] == old(self).successor(
                #[trigger] group@[i] as int,
            ) by {
                assert(group@[i] == c[i] && group@[i + 1] == c[i + 1]);
                assert(self.next@[c[i]] == c[i + 1]);
                assert(mid.successor(c[i]) == old(self).successor(c[i]));
            }
            assert forall|w: int| 0 <= w < old(self).num_nodes() && old(self)@[w] < 0 implies #[trigger] self@[w]
                == old(self)@[w] by {
                assert(mid@[w] == old(self)@[w]);
            }
            assert forall|w: int| 0 <= w < old(self).num_nodes() implies (#[trigger] self@[w] < 0) == (old(self)@[w] < 0) by {
                assert((mid@[w] < 0) == (old(self)@[w] < 0));
            }
            assert forall|w: int| 0 <= w < old(self).num_nodes() implies #[trigger] self.successor(w) == old(
                self,
            ).successor(w) by {
                assert(mid.successor(w) == old(self).successor(w));
            }
            assert forall|w: int| 0 <= w < old(self).num_nodes() implies #[trigger] self.root(w) == old(self).root(w) by {
                assert(mid.root(w) == old(self).root(w));
            }
            assert forall|i: int| 0 <= i < group@.len() implies #[trigger] group@[i] < old(self).num_nodes() by {
                assert(group@[i] == c[i]);
            }
            assert forall|i: int, j: int| 0 <= i < group@.len() && 0 <= j < group@.len() && i != j implies group@[i]
                != group@[j] by {
                assert(group@[i] == c[i] && group@[j] == c[j]);
            }
            assert forall|w: usize| w < old(self).num_nodes() implies (#[trigger] group@.contains(w) <==> old(
                self,
            ).root(w as int) == old(self).root(u as int)) by {
                if group@.contains(w) {
                    let i = choose|i: int| 0 <= i < group@.len() && group@[i] == w;
                    assert(group@[i] == c[i]);
                    assert(root_fuel(self.parent@, c[i], self.hmax@ + 1) == r);
                    assert(self.root(w as int) == r);
                }
                if old(self).root(w as int) == old(self).root(u as int) {
                    assert(self.root(w as int) == r);
                    assert(self.cyc@[root_fuel(self.parent@, w as int, self.hmax@ + 1)].contains(w as int));
                    let i = choose|i: int| 0 <= i < c.len() && c[i] == w as int;
                    assert(group@[i] == w);
                }
            }
        }
        group
    }
}

} // verus!
