use vstd::prelude::*;

verus! {

/// The four words of a xorshift128 generator.
pub struct Xor128 {
    x: u32,
    y: u32,
    z: u32,
    w: u32,
}

/// One xorshift128 step on the state `(x, y, z, w)`.
pub open spec fn xor128_step(s: (u32, u32, u32, u32)) -> (u32, u32, u32, u32) {
    let (x, y, z, w) = s;
    let t = x ^ (x << 11u32);
    (y, z, w, (w ^ (w >> 19u32)) ^ (t ^ (t >> 8u32)))
}

/// From a state whose first word is zero, the new last word is the old
/// last word mixed with itself shifted down by 19 bits: it changes exactly
/// when some bit at or above bit 19 is set, and its top 19 bits stay.
pub proof fn lemma_step_from_zero_x(y: u32, z: u32, w: u32)
    ensures
        xor128_step((0u32, y, z, w)) == (y, z, w, w ^ (w >> 19u32)),
        (xor128_step((0u32, y, z, w)).3 == w) <==> (w < 0x80000u32),
        xor128_step((0u32, y, z, w)).3 >> 13u32 == w >> 13u32,
{
    assert((w ^ (w >> 19u32)) ^ ((0u32 ^ (0u32 << 11u32)) ^ ((0u32 ^ (0u32 << 11u32)) >> 8u32)) == w ^ (w >> 19u32)) by (bit_vector);
    assert(((w ^ (w >> 19u32)) == w) <==> (w < 0x80000u32)) by (bit_vector);
    assert((w ^ (w >> 19u32)) >> 13u32 == w >> 13u32) by (bit_vector);
}

/// One step depends on the old first word only through `x ^ (x << 11)`,
/// and the new last word always differs from the mixed old last word
/// `w ^ (w >> 19)` by exactly that value folded with itself shifted down
/// by 8 bits.
pub proof fn lemma_step_mixes(s: (u32, u32, u32, u32))
    ensures
        ({
            let (x, y, z, w) = s;
            let t = x ^ (x << 11u32);
            let n = xor128_step(s).3;
            &&& n ^ (w ^ (w >> 19u32)) == t ^ (t >> 8u32)
            &&& (xor128_step(s).0, xor128_step(s).1, xor128_step(s).2) == (y, z, w)
        }),
{
    let (x, y, z, w) = s;
    let t = x ^ (x << 11u32);
    let n = (w ^ (w >> 19u32)) ^ (t ^ (t >> 8u32));
    assert(n ^ (w ^ (w >> 19u32)) == t ^ (t >> 8u32)) by (bit_vector)
        requires
            n == (w ^ (w >> 19u32)) ^ (t ^ (t >> 8u32)),
    ;
}

/// Scales a 32-bit draw `g` into `[0, a)`: the high word of `g * a`.
pub open spec fn scale_draw(g: u32, a: u32) -> u32 {
    ((g as int * a as int) / 0x1_0000_0000) as u32
}

/// The scaled draw is below the bound, and zero for a bound of zero.
pub proof fn lemma_scale_draw_bound(g: u32, a: u32)
    ensures
        a > 0 ==> scale_draw(g, a) < a,
        a == 0 ==> scale_draw(g, a) == 0,
        scale_draw(g, a) as int == (g as int * a as int) / 0x1_0000_0000,
{
    assert(g as int * a as int <= 0xffff_ffff * a as int) by (nonlinear_arith);
    assert(a > 0 ==> (g as int * a as int) / 0x1_0000_0000 < a as int) by (nonlinear_arith)
        requires g as int * a as int <= 0xffff_ffff * a as int, g as int * a as int >= 0;
    assert((g as int * a as int) / 0x1_0000_0000 >= 0) by (nonlinear_arith)
        requires g as int * a as int >= 0;
    assert(g as int * a as int >= 0) by (nonlinear_arith);
}

impl Xor128 {
    /// The generator state `(x, y, z, w)`.
    pub closed spec fn view(&self) -> (u32, u32, u32, u32) {
        (self.x, self.y, self.z, self.w)
    }

    /// A generator with the fixed starting words and `seed` as its last word.
    pub fn new(seed: u32) -> (r: Self)
        ensures
            r@ == (123456789u32, 362436039u32, 521288629u32, seed),
    {
        Xor128 { x: 123456789, y: 362436039, z: 521288629, w: seed }
    }

    /// Advances one step and returns the new last word: Marsaglia's
    /// xorshift128, `t = x ^ (x << 11)`, the words shift down one place, and
    /// the new last word is `(w ^ (w >> 19)) ^ (t ^ (t >> 8))`.
    pub fn gen(&mut self) -> (r: u32)
        ensures
            final(self)@ == xor128_step(old(self)@),
            r == final(self)@.3,
            ({
                let (x, y, z, w) = old(self)@;
                let t = x ^ (x << 11u32);
                &&& final(self)@.0 == y
                &&& final(self)@.1 == z
                &&& final(self)@.2 == w
                &&& r == (w ^ (w >> 19u32)) ^ (t ^ (t >> 8u32))
            }),
    {
        let t = self.x ^ (self.x << 11u32);
        self.x = self.y;
        self.y = self.z;
        self.z = self.w;
        self.w = (self.w ^ (self.w >> 19u32)) ^ (t ^ (t >> 8u32));
        self.w
    }

    /// A draw in `[0, a)` (zero when `a` is zero), from one step.
    pub fn rand_u(&mut self, a: u32) -> (r: u32)
        ensures
            final(self)@ == xor128_step(old(self)@),
            r == scale_draw(final(self)@.3, a),
            a > 0 ==> r < a,
            a == 0 ==> r == 0,
    {
        let g = self.gen();
        proof { lemma_scale_draw_bound(g, a); }
        let p: u64 = g as u64 * a as u64;
        proof {
            assert(p == g as int * a as int) by (nonlinear_arith)
                requires p == g as u64 * a as u64;
            assert(p >> 32u64 == p / 0x1_0000_0000u64) by (bit_vector);
        }
        (p >> 32u64) as u32
    }

    /// A draw in `[a, b)` (exactly `a` when `a == b`), from one step.
    pub fn rand_uu(&mut self, a: u32, b: u32) -> (r: u32)
        requires
            a <= b,
        ensures
            final(self)@ == xor128_step(old(self)@),
            r == a + scale_draw(final(self)@.3, (b - a) as u32),
            a < b ==> a <= r < b,
            a == b ==> r == a,
    {
        let d = self.rand_u(b - a);
        d + a
    }

    /// A draw in `[a, b)` (exactly `a` when `a == b`), from one step.
    pub fn rand_ii(&mut self, a: i32, b: i32) -> (r: i32)
        requires
            a <= b,
        ensures
            final(self)@ == xor128_step(old(self)@),
            r == a + scale_draw(final(self)@.3, (b - a) as u32),
            a < b ==> a <= r < b,
            a == b ==> r == a,
    {
        let span: i64 = b as i64 - a as i64;
        let d = self.rand_u(span as u32);
        (a as i64 + d as i64) as i32
    }
}

} // verus!
