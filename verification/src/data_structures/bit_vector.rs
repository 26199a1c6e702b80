use vstd::prelude::*;

verus! {

/// A fixed-length sequence of bits packed 64 to a word.
pub struct BitVector {
    data: Vec<u64>,
    size: usize,
}

/// Bit `o` of the word `w`.
pub open spec fn word_bit(w: u64, o: u64) -> bool {
    (w >> o) & 1u64 == 1u64
}

proof fn lemma_set_bit(w: u64, o: u64, j: u64)
    requires
        o < 64,
        j < 64,
    ensures
        word_bit(w | (1u64 << o), j) == (j == o || word_bit(w, j)),
        word_bit(w & !(1u64 << o), j) == (j != o && word_bit(w, j)),
{
    assert(((w | (1u64 << o)) >> j) & 1u64 == 1u64 <==> (j == o || (w >> j) & 1u64 == 1u64))
        by (bit_vector)
        requires
            o < 64,
            j < 64,
    ;
    assert(((w & !(1u64 << o)) >> j) & 1u64 == 1u64 <==> (j != o && (w >> j) & 1u64 == 1u64))
        by (bit_vector)
        requires
            o < 64,
            j < 64,
    ;
}

proof fn lemma_zero_bits(j: u64)
    requires
        j < 64,
    ensures
        !word_bit(0u64, j),
{
    assert((0u64 >> j) & 1u64 != 1u64) by (bit_vector);
}

impl View for BitVector {
    type V = Seq<bool>;

    closed spec fn view(&self) -> Seq<bool> {
        Seq::new(self.size as nat, |i: int| word_bit(self.data@[i / 64], (i % 64) as u64))
    }
}

impl BitVector {
    pub closed spec fn wf(&self) -> bool {
        self.data@.len() * 64 >= self.size
    }

    /// `size` bits, all clear.
    pub fn new(size: usize) -> (bv: Self)
        ensures
            bv.wf(),
            bv@ == Seq::new(size as nat, |i: int| false),
    {
        let num_blocks = size / 64 + if size % 64 == 0 { 0 } else { 1 };
        let bv = BitVector { data: vec![0u64; num_blocks], size };
        proof {
            assert forall|i: int| 0 <= i < size implies !#[trigger] word_bit(bv.data@[i / 64], (i % 64) as u64) by {
                lemma_zero_bits((i % 64) as u64);
            }
        }
        assert(bv@ =~= Seq::new(size as nat, |i: int| false));
        bv
    }

    #[inline(always)]
    pub fn len(&self) -> (n: usize)
        ensures
            n == self@.len(),
    {
        self.size
    }

    /// Sets bit `index` to `b`.
    #[inline(always)]
    pub fn set(&mut self, index: usize, b: bool)
        requires
            old(self).wf(),
            index < old(self)@.len(),
        ensures
            final(self).wf(),
            final(self)@ == old(self)@.update(index as int, b),
    {
        let block = index / 64;
        let offset = (index % 64) as u64;
        let w = self.data[block];
        let nw = if b { w | (1u64 << offset) } else { w & !(1u64 << offset) };
        self.data.set(block, nw);
        proof {
            let ov = old(self)@;
            assert forall|i: int| 0 <= i < self.size implies #[trigger] self@[i] == ov.update(
                index as int,
                b,
            )[i] by {
                lemma_set_bit(w, offset, (i % 64) as u64);
                if i / 64 != block as int {
                    assert(self.data@[i / 64] == old(self).data@[i / 64]);
                } else if i != index as int {
                    assert((i % 64) as u64 != offset);
                }
            }
            assert(self@ =~= ov.update(index as int, b));
        }
    }

    /// Bit `index`.
    #[inline(always)]
    pub fn get(&self, index: usize) -> (b: bool)
        requires
            self.wf(),
            index < self@.len(),
        ensures
            b == self@[index as int],
    {
        let block = index / 64;
        let offset = (index % 64) as u64;
        (self.data[block] >> offset) & 1 == 1
    }

    /// Clears every bit.
    #[inline(always)]
    pub fn clear(&mut self)
        requires
            old(self).wf(),
        ensures
            final(self).wf(),
            final(self)@ == Seq::new(old(self)@.len(), |i: int| false),
    {
        let mut k: usize = 0;
        let n = self.data.len();
        while k < n
            invariant
                k <= n,
                n == self.data@.len(),
                self.size == old(self).size,
                self.data@.len() == old(self).data@.len(),
                forall|j: int| 0 <= j < k ==> self.data@[j] == 0u64,
            decreases n - k,
        {
            self.data.set(k, 0u64);
            k = k + 1;
        }
        proof {
            assert forall|i: int| 0 <= i < self.size implies !#[trigger] word_bit(self.data@[i / 64], (i % 64) as u64) by {
                lemma_zero_bits((i % 64) as u64);
            }
        }
        assert(self@ =~= Seq::new(old(self)@.len(), |i: int| false));
    }
}

} // verus!
