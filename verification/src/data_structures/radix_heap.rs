use vstd::arithmetic::power2::{lemma2_to64, lemma2_to64_rest, lemma_pow2_adds, lemma_pow2_strictly_increases, pow2};
use vstd::bits::{lemma_u64_pow2_no_overflow, lemma_u64_shl_is_mul};
use vstd::multiset::Multiset;
use vstd::prelude::*;

verus! {

broadcast use {vstd::multiset::group_multiset_axioms, vstd::seq_lib::group_to_multiset_ensures};

/// The number of leading zero bits of `x`, as `num_traits::PrimInt::leading_zeros` computes it.
#[verifier::external_body]
fn leading_zeros(x: u64) -> (r: u32)
    ensures
        r <= 64,
        x < pow2((64 - r) as nat),
        r < 64 ==> x >= pow2((63 - r) as nat),
{
    num_traits::PrimInt::leading_zeros(x)
}

/// The width that bucket `i` starts at, counted from the smallest key.
pub open spec fn size_sum_spec(i: nat) -> nat {
    if i == 0 {
        0
    } else {
        pow2((i - 1) as nat)
    }
}

/// The items held by the first `i` buckets.
pub open spec fn content<V>(ds: Seq<Vec<(u64, V)>>, i: int) -> Multiset<(u64, V)>
    decreases i,
{
    if i <= 0 {
        Multiset::empty()
    } else {
        content(ds, i - 1).add(ds[i - 1]@.to_multiset())
    }
}

proof fn lemma_content_update<V>(ds: Seq<Vec<(u64, V)>>, j: int, nv: Vec<(u64, V)>, d: Multiset<(u64, V)>, i: int)
    requires
        0 <= j < ds.len(),
        i <= ds.len(),
        nv@.to_multiset() == ds[j]@.to_multiset().add(d),
    ensures
        content(ds.update(j, nv), i) == if i > j {
            content(ds, i).add(d)
        } else {
            content(ds, i)
        },
    decreases i,
{
    if i > 0 {
        lemma_content_update(ds, j, nv, d, i - 1);
        let a = content(ds, i - 1);
        if i - 1 == j {
            assert(content(ds.update(j, nv), i) =~= a.add(ds[j]@.to_multiset().add(d)));
            assert(content(ds, i).add(d) =~= a.add(ds[j]@.to_multiset()).add(d));
        } else if i - 1 > j {
            assert(content(ds.update(j, nv), i) =~= a.add(d).add(ds[i - 1]@.to_multiset()));
            assert(content(ds, i).add(d) =~= a.add(ds[i - 1]@.to_multiset()).add(d));
        }
    }
}

proof fn lemma_content_empty<V>(ds: Seq<Vec<(u64, V)>>, i: int)
    requires
        i <= ds.len(),
        forall|j: int| 0 <= j < i ==> (#[trigger] ds[j])@.len() == 0,
    ensures
        content(ds, i).len() == 0,
    decreases i,
{
    if i > 0 {
        lemma_content_empty(ds, i - 1);
        assert(ds[i - 1]@.to_multiset().len() == 0);
    }
}

proof fn lemma_content_member<V>(ds: Seq<Vec<(u64, V)>>, i: int, e: (u64, V))
    requires
        i <= ds.len(),
        content(ds, i).contains(e),
    ensures
        exists|j: int, t: int| 0 <= j < i && 0 <= t < ds[j]@.len() && #[trigger] ds[j]@[t] == e,
    decreases i,
{
    if i > 0 {
        if content(ds, i - 1).contains(e) {
            lemma_content_member(ds, i - 1, e);
        } else {
            assert(ds[i - 1]@.to_multiset().contains(e));
            assert(ds[i - 1]@.contains(e));
            let t = choose|t: int| 0 <= t < ds[i - 1]@.len() && #[trigger] ds[i - 1]@[t] == e;
            assert(0 <= i - 1 < i && 0 <= t < ds[i - 1]@.len() && ds[i - 1]@[t] == e);
        }
    }
}

/// A monotone priority queue keyed by `u64`: a key pushed may not be below
/// the last key popped nor more than `c` above it.
pub struct RadixHeap<V> {
    starts: Vec<u64>,
    datas: Vec<Vec<(u64, V)>>,
    len: usize,
    c: Ghost<nat>,
}

impl<V> View for RadixHeap<V> {
    type V = Multiset<(u64, V)>;

    /// The items in the heap.
    closed spec fn view(&self) -> Multiset<(u64, V)> {
        content(self.datas@, self.datas@.len() as int)
    }
}

impl<V> RadixHeap<V> {
    /// The greatest difference between the last key popped and a key pushed.
    pub closed spec fn max_diff(&self) -> nat {
        self.c@
    }

    /// The last key popped, or the smallest key in the heap when it was refilled.
    pub closed spec fn last(&self) -> u64 {
        self.starts@[0]
    }

    /// The width of the last bucket; a key is only accepted when adding this
    /// to it cannot overflow.
    pub closed spec fn span(&self) -> nat {
        size_sum_spec((self.starts@.len() - 1) as nat)
    }

    pub closed spec fn wf(&self) -> bool {
        let nb = self.starts@.len();
        let st = self.starts@;
        let ds = self.datas@;
        &&& 3 <= nb <= 65
        &&& ds.len() == nb
        &&& self.c@ < size_sum_spec((nb - 1) as nat)
        &&& forall|i: int, j: int| 0 <= i <= j < nb ==> st[i] <= st[j]
        &&& st[1] <= st[0] + 1
        &&& forall|i: int| 1 <= i < nb - 1 ==> st[i + 1] - st[i] <= #[trigger] size_sum_spec(i as nat)
        &&& forall|i: int, t: int|
            0 <= i < nb && 0 <= t < ds[i]@.len() ==> {
                let k = (#[trigger] ds[i]@[t]).0;
                &&& st[i] <= k
                &&& i + 1 < nb ==> k < st[i + 1]
                &&& k <= st[0] + self.c@
                &&& k + size_sum_spec((nb - 1) as nat) <= u64::MAX
            }
        &&& self.len == content(ds, nb as int).len()
    }

    proof fn lemma_all_at_least(&self, e: (u64, V))
        requires
            self.wf(),
            self@.contains(e),
        ensures
            self.last() <= e.0,
            e.0 <= self.last() + self.max_diff(),
            self.datas@[0]@.len() > 0 ==> self.datas@[0]@[self.datas@[0]@.len() - 1].0 <= e.0,
    {
        lemma_content_member(self.datas@, self.datas@.len() as int, e);
        let (j, t) = choose|j: int, t: int|
            0 <= j < self.datas@.len() && 0 <= t < self.datas@[j]@.len() && #[trigger] self.datas@[j]@[t] == e;
        assert(self.starts@[0] <= self.starts@[j]);
        if self.datas@[0]@.len() > 0 {
            let last = self.datas@[0]@.len() - 1;
            assert(self.datas@[0]@[last].0 < self.starts@[1]);
            assert(self.datas@[0]@[last].0 == self.starts@[0]);
        }
    }

    /// `1 << (i - 1)` for `i > 0`, zero for `i == 0`.
    fn size_sum(i: usize) -> (r: u64)
        requires
            i <= 64,
        ensures
            r == size_sum_spec(i as nat),
    {
        if i == 0 {
            0
        } else {
            proof {
                lemma_u64_pow2_no_overflow((i - 1) as nat);
                lemma_u64_shl_is_mul(1u64, (i - 1) as u64);
            }
            1u64 << ((i - 1) as u64)
        }
    }

    /// An empty heap for keys that never lie more than `c` above the last key popped.
    pub fn new(c: u64) -> (heap: Self)
        requires
            c < 0x4000_0000_0000_0000u64,
        ensures
            heap.wf(),
            heap@ == Multiset::<(u64, V)>::empty(),
            heap.max_diff() == c,
            heap.last() == 0,
            c < heap.span() <= 4 * c + 2,
    {
        let lz = leading_zeros(c);
        proof {
            lemma2_to64();
            lemma2_to64_rest();
            if lz == 0 {
                lemma_pow2_strictly_increases(62, 63);
            }
        }
        let num_buckets = 64 - lz as usize + 3;
        let mut starts: Vec<u64> = Vec::new();
        let mut datas: Vec<Vec<(u64, V)>> = Vec::new();
        let mut i: usize = 0;
        while i < num_buckets
            invariant
                i <= num_buckets,
                num_buckets <= 65,
                starts@.len() == i,
                datas@.len() == i,
                forall|j: int| 0 <= j < i ==> starts@[j] == size_sum_spec(j as nat),
                forall|j: int| 0 <= j < i ==> (#[trigger] datas@[j])@.len() == 0,
            decreases num_buckets - i,
        {
            let s = Self::size_sum(i);
            starts.push(s);
            datas.push(Vec::new());
            i = i + 1;
        }
        let heap = RadixHeap { starts, datas, len: 0, c: Ghost(c as nat) };
        proof {
            let nb = num_buckets as int;
            lemma2_to64();
            assert forall|a: int, b: int| 0 <= a <= b < nb implies heap.starts@[a] <= heap.starts@[b] by {
                if 0 < a < b {
                    lemma_pow2_strictly_increases((a - 1) as nat, (b - 1) as nat);
                }
            }
            assert forall|a: int| 1 <= a < nb - 1 implies heap.starts@[a + 1] - heap.starts@[a] <= #[trigger] size_sum_spec(
                a as nat,
            ) by {
                lemma_pow2_adds((a - 1) as nat, 1);
                lemma2_to64();
            }
            lemma_pow2_adds((64 - lz) as nat, 1);
            lemma2_to64();
            lemma_content_empty(heap.datas@, nb);
            assert(heap.span() == pow2((65 - lz) as nat));
            if lz < 64 {
                lemma_pow2_adds((63 - lz) as nat, 2);
                assert(pow2(2) == 4) by {
                    lemma2_to64();
                }
                assert(heap.span() == 4 * pow2((63 - lz) as nat));
            } else {
                assert(pow2(1) == 2) by {
                    lemma2_to64();
                }
            }
        }
        assert(heap@ =~= Multiset::<(u64, V)>::empty());
        heap
    }

    #[inline]
    pub fn len(&self) -> (n: usize)
        requires
            self.wf(),
        ensures
            n == self@.len(),
    {
        self.len
    }

    #[inline]
    pub fn is_empty(&self) -> (b: bool)
        requires
            self.wf(),
        ensures
            b == (self@.len() == 0),
    {
        self.len == 0
    }

    /// The last bucket below `limit` whose start is at most `key`.
    fn find_bucket(&self, key: u64, limit: usize) -> (j: usize)
        requires
            1 <= limit <= self.starts@.len(),
            self.starts@[0] <= key,
        ensures
            j < limit,
            self.starts@[j as int] <= key,
            forall|i: int| j < i < limit ==> self.starts@[i] > key,
    {
        let mut j = limit - 1;
        while self.starts[j] > key
            invariant
                j < limit,
                limit <= self.starts@.len(),
                self.starts@[0] <= key,
                forall|i: int| j < i < limit ==> self.starts@[i] > key,
            decreases j,
        {
            j = j - 1;
        }
        j
    }

    /// Adds `value` under `key`.
    pub fn push(&mut self, key: u64, value: V)
        requires
            old(self).wf(),
            old(self).last() <= key <= old(self).last() + old(self).max_diff(),
            key + old(self).span() <= u64::MAX,
            old(self)@.len() < usize::MAX,
        ensures
            final(self).wf(),
            final(self)@ == old(self)@.insert((key, value)),
            final(self).last() == old(self).last(),
            final(self).max_diff() == old(self).max_diff(),
            final(self).span() == old(self).span(),
    {
        let nb = self.starts.len();
        let j = self.find_bucket(key, nb);
        let ghost ds = self.datas@;
        let mut d = self.datas.remove(j);
        d.push((key, value));
        self.datas.insert(j, d);
        proof {
            assert(self.datas@ == ds.update(j as int, d));
            assert(d@.to_multiset() =~= ds[j as int]@.to_multiset().add(Multiset::singleton((key, value))));
            lemma_content_update(ds, j as int, d, Multiset::singleton((key, value)), nb as int);
            assert(self@ =~= old(self)@.insert((key, value)));
            assert forall|i: int, t: int| 0 <= i < nb && 0 <= t < self.datas@[i]@.len() implies {
                let k = (#[trigger] self.datas@[i]@[t]).0;
                &&& self.starts@[i] <= k
                &&& i + 1 < nb ==> k < self.starts@[i + 1]
                &&& k <= self.starts@[0] + self.c@
                &&& k + size_sum_spec((nb - 1) as nat) <= u64::MAX
            } by {
                if i == j && t == ds[i]@.len() {
                } else if i == j {
                    assert(self.datas@[i]@[t] == ds[i]@[t]);
                } else {
                    assert(self.datas@[i] == ds[i]);
                }
            }
        }
        self.len = self.len + 1;
    }

    /// Removes and returns an item of smallest key; `None` when the heap is empty.
    pub fn pop(&mut self) -> (r: Option<(u64, V)>)
        requires
            old(self).wf(),
        ensures
            final(self).wf(),
            final(self).max_diff() == old(self).max_diff(),
            final(self).span() == old(self).span(),
            old(self)@.len() == 0 <==> r is None,
            r is None ==> final(self)@ == old(self)@ && final(self).last() == old(self).last(),
            r matches Some(e) ==> {
                &&& old(self)@.contains(e)
                &&& forall|x: (u64, V)| old(self)@.contains(x) ==> e.0 <= x.0
                &&& final(self)@ == old(self)@.remove(e)
                &&& final(self).last() == e.0
            },
    {
        if self.len == 0 {
            return None;
        }
        if self.datas[0].len() == 0 {
            self.distribute();
        }
        let ghost ds = self.datas@;
        let ghost before = *self;
        let mut d = self.datas.remove(0);
        let e = d.pop().unwrap();
        self.datas.insert(0, d);
        self.len = self.len - 1;
        proof {
            let nb = ds.len();
            assert(self.datas@ == ds.update(0, d));
            assert(ds[0]@ == d@.push(e));
            assert(ds[0]@.to_multiset() =~= d@.to_multiset().add(Multiset::singleton(e)));
            lemma_content_update(self.datas@, 0, ds[0], Multiset::singleton(e), nb as int);
            assert(self.datas@.update(0, ds[0]) == ds);
            assert(before@ == self@.insert(e));
            assert(before@.contains(e));
            assert(self@ =~= before@.remove(e));
            assert(e.0 == self.starts@[0]) by {
                assert(ds[0]@[ds[0]@.len() - 1] == e);
            }
            assert forall|x: (u64, V)| before@.contains(x) implies e.0 <= x.0 by {
                before.lemma_all_at_least(x);
            }
            assert forall|i: int, t: int| 0 <= i < nb && 0 <= t < self.datas@[i]@.len() implies {
                let k = (#[trigger] self.datas@[i]@[t]).0;
                &&& self.starts@[i] <= k
                &&& i + 1 < nb ==> k < self.starts@[i + 1]
                &&& k <= self.starts@[0] + self.c@
                &&& k + size_sum_spec((nb - 1) as nat) <= u64::MAX
            } by {
                assert(self.datas@[i]@[t] == ds[i]@[t]);
            }
        }
        Some(e)
    }

    /// The first bucket that holds an item.
    fn first_non_empty(&self) -> (idx: usize)
        requires
            self.wf(),
            self.len > 0,
            self.datas@[0]@.len() == 0,
        ensures
            1 <= idx < self.starts@.len(),
            self.datas@[idx as int]@.len() > 0,
            forall|j: int| 0 <= j < idx ==> (#[trigger] self.datas@[j])@.len() == 0,
    {
        let nb = self.starts.len();
        let mut idx: usize = 0;
        while idx < nb && self.datas[idx].len() == 0
            invariant
                idx <= nb,
                nb == self.starts@.len(),
                self.wf(),
                self.len > 0,
                forall|j: int| 0 <= j < idx ==> (#[trigger] self.datas@[j])@.len() == 0,
            decreases nb - idx,
        {
            idx = idx + 1;
        }
        if idx == nb {
            proof {
                lemma_content_empty(self.datas@, nb as int);
            }
            assert(false);
        }
        idx
    }

    /// The smallest key among `data`.
    fn min_key_of(data: &Vec<(u64, V)>) -> (m: u64)
        requires
            data@.len() > 0,
        ensures
            exists|s: int| 0 <= s < data@.len() && #[trigger] data@[s].0 == m,
            forall|s: int| 0 <= s < data@.len() ==> m <= #[trigger] data@[s].0,
    {
        let mut min_key = data[0].0;
        let mut t: usize = 1;
        while t < data.len()
            invariant
                1 <= t <= data@.len(),
                exists|s: int| 0 <= s < t && #[trigger] data@[s].0 == min_key,
                forall|s: int| 0 <= s < t ==> min_key <= #[trigger] data@[s].0,
            decreases data@.len() - t,
        {
            if data[t].0 < min_key {
                min_key = data[t].0;
            }
            t = t + 1;
        }
        min_key
    }

    /// Moves the starts of the buckets up to `idx` so that they begin at
    /// `min_key` with their usual widths, never past `end`.
    fn move_starts(&mut self, idx: usize, min_key: u64, end: u64)
        requires
            idx < old(self).starts@.len() <= 65,
            min_key + size_sum_spec((old(self).starts@.len() - 1) as nat) <= u64::MAX,
        ensures
            final(self).starts@.len() == old(self).starts@.len(),
            forall|j: int| 0 <= j <= idx ==> final(self).starts@[j] == if end < min_key + size_sum_spec(j as nat) {
                end as int
            } else {
                min_key + size_sum_spec(j as nat)
            },
            forall|j: int| idx < j < old(self).starts@.len() ==> final(self).starts@[j] == old(self).starts@[j],
            final(self).datas == old(self).datas,
            final(self).c == old(self).c,
            final(self).len == old(self).len,
    {
        let nb = self.starts.len();
        let mut i: usize = 0;
        while i <= idx
            invariant
                i <= idx + 1,
                idx < nb,
                nb == self.starts@.len(),
                nb <= 65,
                min_key + size_sum_spec((nb - 1) as nat) <= u64::MAX,
                forall|j: int| 0 <= j < i ==> self.starts@[j] == if end < min_key + size_sum_spec(j as nat) {
                    end as int
                } else {
                    min_key + size_sum_spec(j as nat)
                },
                forall|j: int| i <= j < nb ==> self.starts@[j] == old(self).starts@[j],
                self.datas == old(self).datas,
                self.c == old(self).c,
                self.len == old(self).len,
            decreases idx + 1 - i,
        {
            proof {
                if 1 <= i < nb - 1 {
                    lemma_pow2_strictly_increases((i - 1) as nat, (nb - 2) as nat);
                }
            }
            let s = Self::size_sum(i);
            let v = if end < min_key + s { end } else { min_key + s };
            self.starts.set(i, v);
            i = i + 1;
        }
    }

    /// Puts the items of `rev`, last first, into the buckets before `idx`.
    fn hand_out(&mut self, rev: Vec<(u64, V)>, idx: usize, min_key: u64, Ghost(taken): Ghost<Seq<(u64, V)>>)
        requires
            old(self).wf_partial(idx as int, min_key),
            old(self).starts@[1] > min_key,
            1 <= idx < old(self).starts@.len(),
            forall|s: int| 0 <= s < taken.len() ==> min_key <= #[trigger] taken[s].0,
            forall|s: int| 0 <= s < taken.len() ==> #[trigger] taken[s].0 < old(self).starts@[idx as int],
            forall|s: int| 0 <= s < taken.len() ==> #[trigger] taken[s].0 + size_sum_spec((old(self).starts@.len() - 1) as nat) <= u64::MAX,
            forall|s: int| 0 <= s < taken.len() ==> #[trigger] taken[s].0 <= old(self).starts@[0] + old(self).c@,
            forall|s: int| 0 <= s < rev@.len() ==> taken.contains(#[trigger] rev@[s]),
            old(self).datas@[idx as int]@.len() == 0,
            old(self).datas@[0]@.len() > 0 || rev@.len() > 0 && exists|s: int| 0 <= s < rev@.len() && #[trigger] rev@[s].0 == min_key,
        ensures
            final(self).wf_partial(idx as int, min_key),
            final(self).starts@ == old(self).starts@,
            final(self).c == old(self).c,
            final(self).len == old(self).len,
            final(self).datas@[0]@.len() > 0,
            final(self)@ == rev@.reverse().to_multiset().add(old(self)@),
    {
        let mut rev = rev;
        let nb = self.starts.len();
        let ghost st1 = self.starts@;
        let ghost c = self.c@;
        let ghost span = size_sum_spec((nb - 1) as nat);
        let ghost all = rev@.reverse().to_multiset().add(old(self)@);
        while rev.len() > 0
            invariant
                self.wf_partial(idx as int, min_key),
                self.starts@ == st1,
                st1[1] > min_key,
                self.datas@.len() == nb,
                nb == self.starts@.len(),
                self.c@ == c,
                self.c == old(self).c,
                self.len == old(self).len,
                1 <= idx < nb,
                forall|s: int| 0 <= s < taken.len() ==> min_key <= #[trigger] taken[s].0,
                forall|s: int| 0 <= s < taken.len() ==> #[trigger] taken[s].0 < st1[idx as int],
                forall|s: int| 0 <= s < taken.len() ==> #[trigger] taken[s].0 + span <= u64::MAX,
                forall|s: int| 0 <= s < taken.len() ==> #[trigger] taken[s].0 <= st1[0] + c,
                span == size_sum_spec((nb - 1) as nat),
                rev@.reverse().to_multiset().add(content(self.datas@, nb as int)) == all,
                forall|s: int| 0 <= s < rev@.len() ==> taken.contains(#[trigger] rev@[s]),
                self.datas@[idx as int]@.len() == 0,
                self.datas@[0]@.len() > 0 || rev@.len() > 0 && exists|s: int| 0 <= s < rev@.len() && #[trigger] rev@[s].0 == min_key,
            decreases rev.len(),
        {
            let ghost rv = rev@;
            let x = rev.pop().unwrap();
            let ghost ds = self.datas@;
            proof {
                assert(rv.contains(x)) by {
                    assert(rv[rv.len() - 1] == x);
                }
                assert(taken.contains(x));
            }
            let j = self.find_bucket(x.0, idx);
            let mut d = self.datas.remove(j);
            d.push(x);
            self.datas.insert(j, d);
            proof {
                assert(self.datas@ == ds.update(j as int, d));
                assert(d@.to_multiset() =~= ds[j as int]@.to_multiset().add(Multiset::singleton(x)));
                lemma_content_update(ds, j as int, d, Multiset::singleton(x), nb as int);
                assert(rv == rev@.push(x));
                assert(rv.reverse() =~= seq![x] + rev@.reverse());
                assert(rv.reverse().to_multiset() =~= rev@.reverse().to_multiset().insert(x)) by {
                    vstd::seq_lib::lemma_multiset_commutative(seq![x], rev@.reverse());
                }
                assert forall|s: int| 0 <= s < rev@.len() implies taken.contains(#[trigger] rev@[s]) by {
                    assert(rev@[s] == rv[s]);
                }
                assert(self.wf_partial(idx as int, min_key)) by {
                    assert forall|i: int, t: int| 0 <= i < nb && 0 <= t < self.datas@[i]@.len() implies {
                        let k = (#[trigger] self.datas@[i]@[t]).0;
                        &&& st1[i] <= k
                        &&& i + 1 < nb ==> k < st1[i + 1]
                        &&& k <= st1[0] + c
                        &&& k + span <= u64::MAX
                    } by {
                        if i == j && t == ds[i]@.len() {
                            let s = choose|s: int| 0 <= s < taken.len() && #[trigger] taken[s] == x;
                            assert(taken[s].0 < st1[idx as int]);
                        } else if i == j {
                            assert(self.datas@[i]@[t] == ds[i]@[t]);
                        } else {
                            assert(self.datas@[i] == ds[i]);
                        }
                    }
                }
                if x.0 == min_key {
                    assert(j == 0);
                }
                if ds[0]@.len() == 0 && x.0 != min_key {
                    let s = choose|s: int| 0 <= s < rv.len() && #[trigger] rv[s].0 == min_key;
                    assert(s < rev@.len());
                    assert(rev@[s] == rv[s]);
                }
                assert(rev@.reverse().to_multiset().add(content(self.datas@, nb as int)) =~= all);
            }
        }
        assert(rev@.reverse().to_multiset() =~= Multiset::empty());
        assert(self@ =~= all);
    }

    /// Refills the first bucket: empties the first non-empty bucket into the
    /// buckets before it, whose starts move up to its smallest key.
    #[verifier::rlimit(80)]
    #[verifier::spinoff_prover]
    fn distribute(&mut self)
        requires
            old(self).wf(),
            old(self).len > 0,
            old(self).datas@[0]@.len() == 0,
        ensures
            final(self).wf(),
            final(self)@ == old(self)@,
            final(self).len == old(self).len,
            final(self).max_diff() == old(self).max_diff(),
            final(self).span() == old(self).span(),
            final(self).datas@[0]@.len() > 0,
            old(self).last() <= final(self).last(),
            forall|x: (u64, V)| old(self)@.contains(x) ==> final(self).last() <= x.0,
    {
        let nb = self.starts.len();
        let idx = self.first_non_empty();
        let ghost ds0 = self.datas@;
        let ghost st0 = self.starts@;
        let data = self.datas.remove(idx);
        self.datas.insert(idx, Vec::new());
        let ghost taken = data@;
        let ghost emp = self.datas@[idx as int];
        proof {
            assert(self.datas@ == ds0.update(idx as int, emp));
            assert(emp@ == Seq::<(u64, V)>::empty());
            assert(ds0[idx as int]@.to_multiset() =~= emp@.to_multiset().add(taken.to_multiset()));
            lemma_content_update(self.datas@, idx as int, ds0[idx as int], taken.to_multiset(), nb as int);
            assert(self.datas@.update(idx as int, ds0[idx as int]) == ds0);
        }
        let min_key = Self::min_key_of(&data);
        let end = if idx + 1 < nb { self.starts[idx + 1] } else { u64::MAX };
        let ghost c = self.c@;
        let ghost span = size_sum_spec((nb - 1) as nat);
        proof {
            let s = choose|s: int| 0 <= s < taken.len() && #[trigger] taken[s].0 == min_key;
            assert(ds0[idx as int]@[s] == taken[s]);
            assert(min_key < end);
            assert(min_key + span <= u64::MAX);
            assert(st0[idx as int] <= min_key);
        }
        self.move_starts(idx, min_key, end);
        let ghost st1 = self.starts@;
        proof {
            // the new starts are in order and keep the bucket widths
            lemma2_to64();
            assert(st1[0] == min_key);
            assert(st1[1] > min_key);
            assert forall|a: int, b: int| 0 <= a <= b < nb implies st1[a] <= st1[b] by {
                if 0 < a < b && b <= idx {
                    lemma_pow2_strictly_increases((a - 1) as nat, (b - 1) as nat);
                }
                if a <= idx < b {
                    assert(st0[idx + 1] <= st0[b]);
                }
                if idx < a {
                    assert(st0[a] <= st0[b]);
                }
            }
            assert forall|a: int| 1 <= a < nb - 1 implies st1[a + 1] - st1[a] <= #[trigger] size_sum_spec(a as nat) by {
                if a < idx {
                    lemma_pow2_adds((a - 1) as nat, 1);
                } else if a == idx {
                    assert(st0[a + 1] - st0[a] <= size_sum_spec(a as nat));
                }
            }
            assert forall|i: int, t: int| 0 <= i < nb && 0 <= t < self.datas@[i]@.len() implies {
                let k = (#[trigger] self.datas@[i]@[t]).0;
                &&& st1[i] <= k
                &&& i + 1 < nb ==> k < st1[i + 1]
                &&& k <= st1[0] + c
                &&& k + span <= u64::MAX
            } by {
                if i < idx {
                    assert(self.datas@[i] == ds0[i]);
                }
                assert(i > idx);
                assert(self.datas@[i] == ds0[i]);
                assert(st0[0] <= st1[0]);
            }
            assert(self.wf_partial(idx as int, min_key));
            assert forall|s: int| 0 <= s < taken.len() implies #[trigger] taken[s].0 < st1[idx as int] by {
                assert(ds0[idx as int]@[s] == taken[s]);
            }
            assert forall|s: int| 0 <= s < taken.len() implies #[trigger] taken[s].0 <= st1[0] + c && taken[s].0 + span <= u64::MAX by {
                assert(ds0[idx as int]@[s] == taken[s]);
            }
        }
        // hand the items out again, in their order
        let mut data = data;
        let mut rev: Vec<(u64, V)> = Vec::new();
        while data.len() > 0
            invariant
                data@ + rev@.reverse() == taken,
            decreases data.len(),
        {
            let ghost before = data@;
            let x = data.pop().unwrap();
            rev.push(x);
            assert(data@ + rev@.reverse() =~= taken) by {
                assert(before == data@.push(x));
                assert(rev@.reverse() =~= seq![x] + rev@.drop_last().reverse());
            }
        }
        proof {
            assert(rev@.reverse() =~= taken);
            assert forall|s: int| 0 <= s < rev@.len() implies taken.contains(#[trigger] rev@[s]) by {
                assert(rev@[s] == rev@.reverse()[rev@.len() - 1 - s]);
            }
            let s = choose|s: int| 0 <= s < taken.len() && #[trigger] taken[s].0 == min_key;
            assert(rev@[rev@.len() - 1 - s] == taken[s]);
        }
        self.hand_out(rev, idx, min_key, Ghost(taken));
        proof {
            assert(self@ =~= old(self)@);
            assert forall|x: (u64, V)| old(self)@.contains(x) implies self.last() <= x.0 by {
                lemma_content_member(ds0, nb as int, x);
                let (j, t) = choose|j: int, t: int| 0 <= j < nb && 0 <= t < ds0[j]@.len() && #[trigger] ds0[j]@[t] == x;
                if j == idx {
                    assert(ds0[j]@[t] == taken[t]);
                } else if j > idx {
                    assert(st0[idx as int + 1] <= st0[j]);
                }
            }
        }
    }

    /// The heap invariant while the items of bucket `idx` are handed out again.
    closed spec fn wf_partial(&self, idx: int, min_key: u64) -> bool {
        let nb = self.starts@.len();
        let st = self.starts@;
        let ds = self.datas@;
        &&& 3 <= nb <= 65
        &&& ds.len() == nb
        &&& self.c@ < size_sum_spec((nb - 1) as nat)
        &&& forall|i: int, j: int| 0 <= i <= j < nb ==> st[i] <= st[j]
        &&& st[1] <= st[0] + 1
        &&& st[0] == min_key
        &&& forall|i: int| 1 <= i < nb - 1 ==> st[i + 1] - st[i] <= #[trigger] size_sum_spec(i as nat)
        &&& forall|i: int, t: int|
            0 <= i < nb && 0 <= t < ds[i]@.len() ==> {
                let k = (#[trigger] ds[i]@[t]).0;
                &&& st[i] <= k
                &&& i + 1 < nb ==> k < st[i + 1]
                &&& k <= st[0] + self.c@
                &&& k + size_sum_spec((nb - 1) as nat) <= u64::MAX
            }
    }
}

} // verus!
