use vstd::prelude::*;

verus! {

/// The permuted congruential generator that the search programs draw from.
#[verifier::external_type_specification]
#[verifier::external_body]
pub struct ExMcg128Xsl64(rand_pcg::Mcg128Xsl64);

/// A generator seeded with `seed`, through `rand_pcg::Mcg128Xsl64::new`.
/// Nothing is stated of its state.
#[verifier::external_body]
pub(crate) fn new_mt(seed: u128) -> (mt: rand_pcg::Mcg128Xsl64) {
    rand_pcg::Mcg128Xsl64::new(seed)
}

/// A draw in `lo..hi`, through `rand::Rng::gen_range`, which panics on an
/// empty range. The draw depends on the generator's state, so only its range is
/// stated, and nothing of the state afterwards.
#[verifier::external_body]
pub(crate) fn gen_index(mt: &mut rand_pcg::Mcg128Xsl64, lo: usize, hi: usize) -> (r: usize)
    requires
        lo < hi,
    ensures
        lo <= r < hi,
{
    rand::Rng::gen_range(mt, lo..hi)
}

/// A draw that is `true` with chance `num / den`, through
/// `rand::Rng::gen_ratio`, which panics where `den` is zero or `num` exceeds
/// it; `true` for sure where `num == den` and `false` where `num` is zero.
#[verifier::external_body]
pub(crate) fn gen_ratio(mt: &mut rand_pcg::Mcg128Xsl64, num: u32, den: u32) -> (r: bool)
    requires
        0 < den,
        num <= den,
    ensures
        num == den ==> r,
        num == 0 ==> !r,
{
    rand::Rng::gen_ratio(mt, num, den)
}

/// A uniformly drawn word, through `rand::Rng::gen::<u64>`. Any word can come.
#[verifier::external_body]
pub(crate) fn gen_word(mt: &mut rand_pcg::Mcg128Xsl64) -> (r: u64) {
    rand::Rng::gen::<u64>(mt)
}

} // verus!
