use vstd::prelude::*;

verus! {

/// Bit `k` of the word `w`, as a boolean.
pub open spec fn word_bit(w: u64, k: nat) -> bool {
    (w >> k) & 1u64 == 1u64
}

/// Reading a bit by masking agrees with `word_bit`.
pub proof fn lemma_mask_test(w: u64, k: u64)
    requires
        k < 64,
    ensures
        ((w & (1u64 << k)) > 0) == word_bit(w, k as nat),
{
    assert(((w & (1u64 << k)) > 0) == ((w >> k) & 1u64 == 1u64)) by (bit_vector)
        requires k < 64;
}

/// Writing bit `k` of `w` to the one-bit value `c` changes that bit only.
pub proof fn lemma_write_bit(w: u64, k: u64, c: u64)
    requires
        k < 64,
        c <= 1,
    ensures
        forall|j: u64|
            j < 64 ==> #[trigger] word_bit((w & !(1u64 << k)) | (c << k), j as nat)
                == if j == k { c == 1u64 } else { word_bit(w, j as nat) },
{
    assert forall|j: u64| j < 64 implies #[trigger] word_bit((w & !(1u64 << k)) | (c << k), j as nat)
        == if j == k { c == 1u64 } else { word_bit(w, j as nat) } by {
        assert((((w & !(1u64 << k)) | (c << k)) >> j) & 1u64 == (if j == k { c } else { (w >> j) & 1u64 }))
            by (bit_vector)
            requires k < 64, j < 64, c <= 1u64;
    }
}

/// Flipping bit `k` of `w` negates that bit only.
pub proof fn lemma_flip_bit(w: u64, k: u64)
    requires
        k < 64,
    ensures
        forall|j: u64|
            j < 64 ==> #[trigger] word_bit(w ^ (1u64 << k), j as nat)
                == if j == k { !word_bit(w, j as nat) } else { word_bit(w, j as nat) },
{
    assert forall|j: u64| j < 64 implies #[trigger] word_bit(w ^ (1u64 << k), j as nat)
        == if j == k { !word_bit(w, j as nat) } else { word_bit(w, j as nat) } by {
        assert(((w ^ (1u64 << k)) >> j) & 1u64 == (if j == k { (1u64 - ((w >> j) & 1u64)) as u64 } else { (w >> j) & 1u64 }))
            by (bit_vector)
            requires k < 64, j < 64;
        assert(((w >> j) & 1u64) <= 1u64) by (bit_vector);
    }
}

/// The zero word has no bit set.
pub proof fn lemma_zero_word(k: nat)
    requires
        k < 64,
    ensures
        !word_bit(0u64, k),
{
    let kk = k as u64;
    assert((0u64 >> kk) & 1u64 == 0u64) by (bit_vector);
}

/// Splitting an index into a word index and a bit offset.
pub proof fn lemma_split_index(i: usize)
    ensures
        i >> 6usize == i / 64,
        i & 63usize == i % 64,
{
    assert(i >> 6usize == i / 64) by (bit_vector);
    assert(i & 63usize == i % 64) by (bit_vector);
}

} // verus!
