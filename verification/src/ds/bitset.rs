use vstd::prelude::*;
use vstd::string::StringExecFns;
use crate::ds::bits::{word_bit, lemma_mask_test, lemma_write_bit, lemma_flip_bit, lemma_zero_word, lemma_split_index};

verus! {

/// A vector of bits of a given size, stored in 64-bit words.
pub struct BitVec {
    n: usize,
    bits: Vec<u64>,
}

/// Number of 64-bit words that hold `n` bits.
pub open spec fn words_for(n: nat) -> nat {
    ((n + 63) / 64) as nat
}

impl BitVec {
    /// The words hold exactly enough room for the size.
    pub closed spec fn wf(&self) -> bool {
        self.bits@.len() == words_for(self.n as nat)
    }

    /// The number of bits the vector was made with.
    pub closed spec fn spec_size(&self) -> nat {
        self.n as nat
    }

    /// Every addressable bit: 64 per word, so at least `spec_size()` of them.
    pub closed spec fn view(&self) -> Seq<bool> {
        Seq::new(64 * self.bits@.len(), |i: int| word_bit(self.bits@[i / 64], (i % 64) as nat))
    }

    /// A vector of `n` bits, all clear.
    pub fn new(n: usize) -> (r: BitVec)
        requires
            n + 63 <= usize::MAX,
        ensures
            r.wf(),
            r.spec_size() == n,
            r@.len() == 64 * words_for(n as nat),
            forall|i: int| 0 <= i < r@.len() ==> !r@[i],
    {
        let w = (n + 63) / 64;
        let bits: Vec<u64> = vec![0u64; w];
        let r = BitVec { n, bits };
        assert forall|i: int| 0 <= i < r@.len() implies !r@[i] by {
            lemma_zero_word((i % 64) as nat);
        }
        r
    }

    /// The number of bits the vector was made with.
    pub fn size(&self) -> (r: usize)
        ensures
            r == self.spec_size(),
    {
        self.n
    }

    /// The number of 64-bit words that store the bits.
    pub fn words(&self) -> (r: usize)
        ensures
            r * 64 == self@.len(),
    {
        self.bits.len()
    }

    /// Bit `i`.
    pub fn get(&self, i: usize) -> (b: bool)
        requires
            i < self@.len(),
        ensures
            b == self@[i as int],
    {
        proof { lemma_split_index(i); }
        let k: u64 = (i & 63) as u64;
        let w = self.bits[i >> 6];
        proof { lemma_mask_test(w, k); }
        w & (1u64 << k) > 0
    }

    /// Negates bit `i`.
    pub fn flip(&mut self, i: usize)
        requires
            old(self).wf(),
            i < old(self)@.len(),
        ensures
            final(self).wf(),
            final(self).spec_size() == old(self).spec_size(),
            final(self)@ == old(self)@.update(i as int, !old(self)@[i as int]),
    {
        proof { lemma_split_index(i); }
        let k: u64 = (i & 63) as u64;
        let j = i >> 6;
        let w = self.bits[j];
        let nw = w ^ (1u64 << k);
        self.bits.set(j, nw);
        proof {
            lemma_flip_bit(w, k);
            let o = old(self)@;
            assert forall|x: int| 0 <= x < self@.len() implies self@[x] == o.update(i as int, !o[i as int])[x] by {
                let xk = (x % 64) as u64;
                if x / 64 == j as int {
                    assert(word_bit(nw, xk as nat) == if xk == k { !word_bit(w, xk as nat) } else { word_bit(w, xk as nat) });
                }
            }
            assert(self@ =~= o.update(i as int, !o[i as int]));
        }
    }

    /// Sets bit `i` to `b`.
    pub fn set(&mut self, i: usize, b: bool)
        requires
            old(self).wf(),
            i < old(self)@.len(),
        ensures
            final(self).wf(),
            final(self).spec_size() == old(self).spec_size(),
            final(self)@ == old(self)@.update(i as int, b),
    {
        proof { lemma_split_index(i); }
        let k: u64 = (i & 63) as u64;
        let j = i >> 6;
        let w = self.bits[j];
        let c: u64 = if b { 1u64 } else { 0u64 };
        let nw = (w & !(1u64 << k)) | (c << k);
        self.bits.set(j, nw);
        proof {
            lemma_write_bit(w, k, c);
            let o = old(self)@;
            assert forall|x: int| 0 <= x < self@.len() implies self@[x] == o.update(i as int, b)[x] by {
                let xk = (x % 64) as u64;
                if x / 64 == j as int {
                    assert(word_bit(nw, xk as nat) == if xk == k { b } else { word_bit(w, xk as nat) });
                }
            }
            assert(self@ =~= o.update(i as int, b));
        }
    }

    /// The bits `0..size()` written as `0` and `1` between square brackets.
    pub fn debug_string(&self) -> (s: String)
        requires
            self.wf(),
        ensures
            s@ == seq!['['] + Seq::new(self.spec_size(), |i: int| if self@[i] { '1' } else { '0' }) + seq![']'],
    {
        proof {
            reveal_strlit("[");
            reveal_strlit("]");
            reveal_strlit("0");
            reveal_strlit("1");
        }
        let mut s = String::from_str("[");
        let mut i: usize = 0;
        while i < self.n
            invariant
                self.wf(),
                i <= self.n,
                self@.len() >= self.n,
                s@ == seq!['['] + Seq::new(i as nat, |x: int| if self@[x] { '1' } else { '0' }),
            decreases self.n - i,
        {
            proof {
                reveal_strlit("0");
                reveal_strlit("1");
            }
            if self.get(i) {
                s.append("1");
            } else {
                s.append("0");
            }
            assert(s@ =~= seq!['['] + Seq::new((i + 1) as nat, |x: int| if self@[x] { '1' } else { '0' }));
            i = i + 1;
        }
        proof { reveal_strlit("]"); }
        s.append("]");
        s
    }
}

} // verus!
