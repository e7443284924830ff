use vstd::prelude::*;
use crate::ds::bits::{word_bit, lemma_mask_test, lemma_write_bit, lemma_flip_bit, lemma_zero_word, lemma_split_index};

verus! {

/// A vector of bits stored in 64-bit words, without a recorded size.
pub struct BitVec {
    bits: Vec<u64>,
}

impl BitVec {
    /// Every addressable bit: 64 per word.
    pub closed spec fn view(&self) -> Seq<bool> {
        Seq::new(64 * self.bits@.len(), |i: int| word_bit(self.bits@[i / 64], (i % 64) as nat))
    }

    /// Room for at least `n` bits, all clear.
    pub fn new(n: usize) -> (r: BitVec)
        requires
            n + 63 <= usize::MAX,
        ensures
            r@.len() == 64 * ((n + 63) / 64),
            forall|i: int| 0 <= i < r@.len() ==> !r@[i],
    {
        let w = (n + 63) / 64;
        let bits: Vec<u64> = vec![0u64; w];
        let r = BitVec { bits };
        assert forall|i: int| 0 <= i < r@.len() implies !r@[i] by {
            lemma_zero_word((i % 64) as nat);
        }
        r
    }

    /// Bit `i`; the vector is consumed.
    pub fn get(self, i: usize) -> (b: bool)
        requires
            i < self@.len(),
        ensures
            b == self@[i as int],
    {
        proof { lemma_split_index(i); }
        let k: u64 = (i & 63) as u64;
        let w = self.bits[i >> 6];
        proof { lemma_mask_test(w, k); }
        w & (1u64 << k) > 0
    }

    /// Negates bit `i`.
    pub fn flip(&mut self, i: usize)
        requires
            i < old(self)@.len(),
        ensures
            final(self)@ == old(self)@.update(i as int, !old(self)@[i as int]),
    {
        proof { lemma_split_index(i); }
        let k: u64 = (i & 63) as u64;
        let j = i >> 6;
        let w = self.bits[j];
        let nw = w ^ (1u64 << k);
        self.bits.set(j, nw);
        proof {
            lemma_flip_bit(w, k);
            let o = old(self)@;
            assert forall|x: int| 0 <= x < self@.len() implies self@[x] == o.update(i as int, !o[i as int])[x] by {
                let xk = (x % 64) as u64;
                if x / 64 == j as int {
                    assert(word_bit(nw, xk as nat) == if xk == k { !word_bit(w, xk as nat) } else { word_bit(w, xk as nat) });
                }
            }
            assert(self@ =~= o.update(i as int, !o[i as int]));
        }
    }

    /// Sets bit `i` to `b`.
    pub fn set(&mut self, i: usize, b: bool)
        requires
            i < old(self)@.len(),
        ensures
            final(self)@ == old(self)@.update(i as int, b),
    {
        proof { lemma_split_index(i); }
        let k: u64 = (i & 63) as u64;
        let j = i >> 6;
        let w = self.bits[j];
        let c: u64 = if b { 1u64 } else { 0u64 };
        let nw = (w & !(1u64 << k)) | (c << k);
        self.bits.set(j, nw);
        proof {
            lemma_write_bit(w, k, c);
            let o = old(self)@;
            assert forall|x: int| 0 <= x < self@.len() implies self@[x] == o.update(i as int, b)[x] by {
                let xk = (x % 64) as u64;
                if x / 64 == j as int {
                    assert(word_bit(nw, xk as nat) == if xk == k { b } else { word_bit(w, xk as nat) });
                }
            }
            assert(self@ =~= o.update(i as int, b));
        }
    }
}

} // verus!
