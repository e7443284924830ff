use vstd::prelude::*;
use crate::ds::bits::{word_bit, lemma_mask_test, lemma_zero_word, lemma_split_index};

verus! {

/// A cell of an `N`-wide grid laid out in rows of `P` (a power of two,
/// `P == 1 << L`), as its index; `usize::MAX` stands for no cell.
#[derive(Clone, Copy, Debug)]
pub struct N2pPos<const N: usize, const P: usize, const L: usize>(pub usize);

/// `x + d` wrapped around at `usize::MAX`.
pub open spec fn wrapped(x: usize, d: usize) -> usize {
    if x + d > usize::MAX {
        (x + d - usize::MAX - 1) as usize
    } else {
        (x + d) as usize
    }
}

/// The step in direction `di`: left, up, right, down.
pub open spec fn step_of(p: usize, di: int) -> usize {
    if di == 0 {
        usize::MAX
    } else if di == 1 {
        if p == 0 { 0 } else { (usize::MAX - p + 1) as usize }
    } else if di == 2 {
        1
    } else {
        p
    }
}

impl<const N: usize, const P: usize, const L: usize> N2pPos<N, P, L> {
    /// No cell.
    pub fn dang() -> (r: Self)
        ensures
            r.0 == usize::MAX,
    {
        Self(usize::MAX)
    }

    /// Whether this stands for no cell.
    pub fn is_dang(&self) -> (r: bool)
        ensures
            r == (self.0 == usize::MAX),
    {
        self.0 == usize::MAX
    }

    /// The cell in row `i`, column `j`.
    pub fn xy(i: usize, j: usize) -> (r: Self)
        requires
            i * P + j <= usize::MAX,
        ensures
            r.0 == i * P + j,
    {
        Self(i * P + j)
    }

    /// The row and the column: the index shifted down by `L`, and its low
    /// bits.
    pub fn to_xy(&self) -> (r: (usize, usize))
        requires
            P >= 1,
            L < usize::BITS,
        ensures
            r == (self.0 >> L, self.0 & ((P - 1) as usize)),
    {
        (self.0 >> L, self.0 & (P - 1))
    }

    /// Laying out row `i` and column `j` and reading them back with `to_xy`
    /// gives them again.
    pub proof fn lemma_xy_to_xy(i: usize, j: usize)
        requires
            L < usize::BITS,
            P == vstd::arithmetic::power2::pow2(L as nat),
            j < P,
            i * P + j <= usize::MAX,
        ensures
            ((i * P + j) as usize) >> L == i,
            ((i * P + j) as usize) & ((P - 1) as usize) == j,
    {
        let x = (i * P + j) as usize;
        vstd::bits::lemma_usize_shr_is_div(x, L);
        vstd::bits::lemma_usize_low_bits_mask_is_mod(x, L as nat);
        vstd::arithmetic::div_mod::lemma_fundamental_div_mod_converse(x as int, P as int, i as int, j as int);
        assert(vstd::bits::low_bits_mask(L as nat) == P - 1);
    }

    /// The same round trip with the row width written as `1 << L`.
    pub proof fn lemma_xy_to_xy_shift(i: usize, j: usize)
        requires
            L < usize::BITS,
            P == 1usize << L,
            j < P,
            i * P + j <= usize::MAX,
        ensures
            ((i * P + j) as usize) >> L == i,
            ((i * P + j) as usize) & ((P - 1) as usize) == j,
    {
        vstd::bits::lemma_usize_pow2_no_overflow(L as nat);
        vstd::bits::lemma_usize_shl_is_mul(1, L);
        Self::lemma_xy_to_xy(i, j);
    }

    /// The neighbour in direction `di` (left, up, right, down), where it
    /// lies on the grid: its column below `N` and its index below `N * P`.
    pub fn delta(&self, di: usize) -> (r: Option<Self>)
        requires
            di < 4,
            P >= 1,
            N * P <= usize::MAX,
        ensures
            ({
                let v = wrapped(self.0, step_of(P, di as int));
                r == if v & ((P - 1) as usize) < N && v < N * P {
                    Some(Self(v))
                } else {
                    None::<Self>
                }
            }),
    {
        let d = if di == 0 {
            usize::MAX
        } else if di == 1 {
            0usize.wrapping_sub(P)
        } else if di == 2 {
            1
        } else {
            P
        };
        let v = self.0.wrapping_add(d);
        if v & (P - 1) < N && v < N * P {
            Some(Self(v))
        } else {
            None
        }
    }
}

impl<const N: usize, const P: usize, const L: usize> Default for N2pPos<N, P, L> {
    fn default() -> (r: Self)
        ensures
            r.0 == usize::MAX,
    {
        Self::dang()
    }
}

/// A set of `n` flags in 64-bit words.
pub struct Bitset {
    b: Vec<u64>,
    n: usize,
}

impl Bitset {
    /// The words hold exactly enough room for the flags.
    pub closed spec fn wf(&self) -> bool {
        self.b@.len() == (self.n + 63) / 64
    }

    /// The flags.
    pub closed spec fn view(&self) -> Seq<bool> {
        Seq::new(self.n as nat, |i: int| word_bit(self.b@[i / 64], (i % 64) as nat))
    }

    /// `n` flags, all clear.
    pub fn new(n: usize) -> (r: Bitset)
        requires
            n + 63 <= usize::MAX,
        ensures
            r.wf(),
            r@.len() == n,
            forall|i: int| 0 <= i < n ==> !r@[i],
    {
        let s = (n + 63) / 64;
        let mut b: Vec<u64> = Vec::new();
        let mut k: usize = 0;
        while k < s
            invariant
                k <= s,
                b@.len() == k,
                forall|x: int| 0 <= x < k ==> #[trigger] b@[x] == 0,
            decreases s - k,
        {
            b.push(0);
            k = k + 1;
        }
        let r = Bitset { b, n };
        assert forall|i: int| 0 <= i < n implies !r@[i] by {
            lemma_zero_word((i % 64) as nat);
        }
        r
    }

    /// Sets flag `i` to `v`.
    pub fn set(&mut self, i: usize, v: bool)
        requires
            old(self).wf(),
            i < old(self)@.len(),
        ensures
            final(self).wf(),
            final(self)@ == old(self)@.update(i as int, v),
    {
        proof {
            lemma_split_index(i);
        }
        let k: u64 = (i & 63) as u64;
        let j = i / 64;
        let w = self.b[j];
        let nw = if v { w | (1u64 << k) } else { w & !(1u64 << k) };
        self.b.set(j, nw);
        proof {
            lemma_set_bit(w, k, v, nw);
            let o = old(self)@;
            assert forall|x: int| 0 <= x < self@.len() implies self@[x] == o.update(i as int, v)[x] by {
                let xk = (x % 64) as u64;
                if x / 64 == j as int {
                    assert(word_bit(nw, xk as nat) == if xk == k { v } else { word_bit(w, xk as nat) });
                    if xk == k {
                        assert(x == i);
                    }
                }
            }
            assert(self@ =~= o.update(i as int, v));
        }
    }

    /// Flag `i`.
    pub fn get(&self, i: usize) -> (r: bool)
        requires
            self.wf(),
            i < self@.len(),
        ensures
            r == self@[i as int],
    {
        proof {
            lemma_split_index(i);
        }
        let k: u64 = (i & 63) as u64;
        let w = self.b[i / 64];
        proof {
            lemma_mask_test(w, k);
        }
        (w & (1u64 << k)) > 0
    }
}

/// Setting or clearing bit `k` of `w` changes that bit only.
pub proof fn lemma_set_bit(w: u64, k: u64, v: bool, nw: u64)
    requires
        k < 64,
        nw == if v { w | (1u64 << k) } else { w & !(1u64 << k) },
    ensures
        forall|j: u64| j < 64 ==> #[trigger] word_bit(nw, j as nat) == if j == k { v } else { word_bit(w, j as nat) },
{
    assert forall|j: u64| j < 64 implies #[trigger] word_bit(nw, j as nat) == if j == k { v } else { word_bit(w, j as nat) } by {
        if v {
            assert(((w | (1u64 << k)) >> j) & 1u64 == (if j == k { 1u64 } else { (w >> j) & 1u64 }))
                by (bit_vector)
                requires k < 64, j < 64;
        } else {
            assert(((w & !(1u64 << k)) >> j) & 1u64 == (if j == k { 0u64 } else { (w >> j) & 1u64 }))
                by (bit_vector)
                requires k < 64, j < 64;
        }
    }
}

/// The neighbours of cell `v` of an `n` by `n` grid: up, down, left, right,
/// each where it lies on the grid.
pub open spec fn neighbours(n: int, v: int) -> Seq<usize> {
    let (i, j) = (v / n, v % n);
    (if i > 0 { seq![(v - n) as usize] } else { Seq::empty() }) + (if i + 1 < n { seq![(v + n) as usize] } else {
        Seq::empty()
    }) + (if j > 0 { seq![(v - 1) as usize] } else { Seq::empty() }) + (if j + 1 < n {
        seq![(v + 1) as usize]
    } else {
        Seq::empty()
    })
}

/// The neighbour of cell `v` in slot `s` (up, down, left, right), or
/// `usize::MAX` where there is none.
pub open spec fn neighbour_slot(n: int, v: int, s: int) -> usize {
    let (i, j) = (v / n, v % n);
    if s == 0 {
        if i > 0 { (v - n) as usize } else { usize::MAX }
    } else if s == 1 {
        if i + 1 < n { (v + n) as usize } else { usize::MAX }
    } else if s == 2 {
        if j > 0 { (v - 1) as usize } else { usize::MAX }
    } else {
        if j + 1 < n { (v + 1) as usize } else { usize::MAX }
    }
}

/// The grid's side that these tables take.
pub const MAX_SIDE: usize = 1000;

/// The neighbours of every cell of an `n` by `n` grid, in lists.
pub fn neighbour_lists(n: usize) -> (r: Vec<Vec<usize>>)
    requires
        1 <= n <= MAX_SIDE,
    ensures
        r@.len() == n * n,
        forall|v: int| 0 <= v < n * n ==> (#[trigger] r@[v])@ == neighbours(n as int, v),
{
    assert(n * n <= 1_000_000) by (nonlinear_arith)
        requires
            n <= 1000,
    ;
    let nn = n * n;
    let mut r: Vec<Vec<usize>> = Vec::new();
    let mut v: usize = 0;
    while v < nn
        invariant
            1 <= n <= MAX_SIDE,
            nn == n * n,
            nn <= 1_000_000,
            v <= nn,
            r@.len() == v,
            forall|x: int| 0 <= x < v ==> (#[trigger] r@[x])@ == neighbours(n as int, x),
        decreases nn - v,
    {
        let i = v / n;
        let j = v % n;
        proof {
            lemma_grid_cell(n as int, v as int);
        }
        let mut d: Vec<usize> = Vec::new();
        if i > 0 {
            d.push(v - n);
        }
        if i + 1 < n {
            d.push(v + n);
        }
        if j > 0 {
            d.push(v - 1);
        }
        if j + 1 < n {
            d.push(v + 1);
        }
        assert(d@ =~= neighbours(n as int, v as int));
        r.push(d);
        v = v + 1;
    }
    r
}

/// The neighbours of every cell of an `n` by `n` grid, four slots a cell.
pub fn neighbour_slots(n: usize) -> (r: Vec<usize>)
    requires
        1 <= n <= MAX_SIDE,
    ensures
        r@.len() == 4 * n * n,
        forall|v: int, s: int| 0 <= v < n * n && 0 <= s < 4 ==> #[trigger] r@[v * 4 + s] == neighbour_slot(n as int, v, s),
{
    assert(n * n <= 1_000_000) by (nonlinear_arith)
        requires
            n <= 1000,
    ;
    let nn = n * n;
    let mut r: Vec<usize> = Vec::new();
    let mut v: usize = 0;
    while v < nn
        invariant
            1 <= n <= MAX_SIDE,
            nn == n * n,
            nn <= 1_000_000,
            v <= nn,
            r@.len() == 4 * v,
            forall|x: int, s: int| 0 <= x < v && 0 <= s < 4 ==> #[trigger] r@[x * 4 + s] == neighbour_slot(n as int, x, s),
        decreases nn - v,
    {
        let i = v / n;
        let j = v % n;
        proof {
            lemma_grid_cell(n as int, v as int);
        }
        let ghost r0 = r@;
        r.push(if i > 0 { v - n } else { usize::MAX });
        r.push(if i + 1 < n { v + n } else { usize::MAX });
        r.push(if j > 0 { v - 1 } else { usize::MAX });
        r.push(if j + 1 < n { v + 1 } else { usize::MAX });
        assert forall|x: int, s: int| 0 <= x < v + 1 && 0 <= s < 4 implies #[trigger] r@[x * 4 + s] == neighbour_slot(n as int, x, s) by {
            if x < v {
                assert(x * 4 + s < 4 * v);
                assert(r@[x * 4 + s] == r0[x * 4 + s]);
            }
        }
        v = v + 1;
    }
    assert(4 * nn == 4 * n * n) by (nonlinear_arith)
        requires
            nn == n * n,
    ;
    r
}

/// Where `v` lies on an `n` by `n` grid.
pub proof fn lemma_grid_cell(n: int, v: int)
    requires
        n > 0,
        0 <= v < n * n,
    ensures
        0 <= v / n < n,
        0 <= v % n < n,
        v / n > 0 ==> v >= n,
        v / n + 1 < n ==> v + n < n * n,
        v % n > 0 ==> v >= 1,
        v % n + 1 < n ==> v + 1 < n * n,
{
    let i = v / n;
    let j = v % n;
    assert(v == i * n + j && 0 <= i < n && 0 <= j < n) by (nonlinear_arith)
        requires
            i == v / n,
            j == v % n,
            0 <= v < n * n,
            n > 0,
    ;
    assert(i + 1 < n ==> i * n + j + n < n * n) by (nonlinear_arith)
        requires
            0 <= j < n,
    ;
    assert(i > 0 ==> i * n + j >= n) by (nonlinear_arith)
        requires
            0 <= j,
            n > 0,
    ;
    assert(j + 1 < n ==> i * n + j + 1 < n * n) by (nonlinear_arith)
        requires
            0 <= i < n,
            0 <= j,
    ;
}

} // verus!
