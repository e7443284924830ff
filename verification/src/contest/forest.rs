use vstd::prelude::*;
use crate::random::pcg::gen_index;
use crate::util::grid::Bitset;

verus! {

/// The number of vertices.
pub const N: usize = 1000;

/// The slots per vertex in the table of its neighbours' levels.
pub const SLOTS: usize = 12;

/// The greatest level a vertex may take.
pub const HEIGHT: i32 = 10;

/// The greatest absolute beauty a vertex may have, so that every score fits
/// in an `i32`.
pub const MAX_BEAUTY: i32 = 100_000;

/// The most edges taken.
pub const MAX_EDGES: usize = 100_000;

/// The neighbours of `x` along the first `k` edges, in the order the edges
/// come: `v` for an edge `(x, v)`, then `u` for an edge `(u, x)`.
pub open spec fn adj(e: Seq<(usize, usize)>, x: int, k: int) -> Seq<usize>
    decreases k,
{
    if k <= 0 {
        Seq::empty()
    } else {
        let (u, v) = e[k - 1];
        adj(e, x, k - 1) + (if u == x { seq![v] } else { Seq::empty() }) + (if v == x {
            seq![u]
        } else {
            Seq::empty()
        })
    }
}

/// Some edge among the first `k` joins `idx / N` and `idx % N`, as the
/// index `u * N + v` of either end first.
pub open spec fn linked(e: Seq<(usize, usize)>, k: int, idx: int) -> bool {
    exists|j: int| 0 <= j < k && (idx == #[trigger] e[j].0 * N + e[j].1 || idx == e[j].1 * N + e[j].0)
}

/// The rows laid end to end.
pub open spec fn flat(rows: Seq<Seq<usize>>, k: int) -> Seq<usize>
    decreases k,
{
    if k <= 0 {
        Seq::empty()
    } else {
        flat(rows, k - 1) + rows[k - 1]
    }
}

pub proof fn lemma_flat_prefix(rows: Seq<Seq<usize>>, x: int, k: int)
    requires
        0 <= x <= k,
    ensures
        flat(rows, x).len() <= flat(rows, k).len(),
        flat(rows, k).subrange(0, flat(rows, x).len() as int) == flat(rows, x),
    decreases k,
{
    if x < k {
        lemma_flat_prefix(rows, x, k - 1);
        let a = flat(rows, k - 1);
        assert((a + rows[k - 1]).subrange(0, flat(rows, x).len() as int) =~= a.subrange(0, flat(rows, x).len() as int));
    } else {
        assert(flat(rows, k).subrange(0, flat(rows, k).len() as int) =~= flat(rows, k));
    }
}

/// The graph of the vertices: their beauties, the edges, each vertex's
/// neighbours laid end to end in `g` from `s[x]` to `s[x + 1]`, and which
/// pairs are joined.
pub struct Input {
    pub m: usize,
    pub a: Vec<i32>,
    pub e: Vec<(usize, usize)>,
    pub g: Vec<usize>,
    pub s: Vec<usize>,
    pub b: Bitset,
}

impl Input {
    /// The neighbours of `x`.
    pub open spec fn nexts(&self, x: int) -> Seq<usize> {
        self.g@.subrange(self.s@[x] as int, self.s@[x + 1] as int)
    }

    /// The tables are those of the edges.
    pub open spec fn wf(&self) -> bool {
        &&& self.a@.len() == N
        &&& forall|x: int| 0 <= x < N ==> -MAX_BEAUTY <= #[trigger] self.a@[x] <= MAX_BEAUTY
        &&& self.e@.len() == self.m
        &&& self.m <= MAX_EDGES
        &&& forall|k: int| 0 <= k < self.m ==> (#[trigger] self.e@[k]).0 < N && self.e@[k].1 < N
        &&& self.s@.len() == N + 1
        &&& forall|x: int| 0 <= x < N ==> #[trigger] self.s@[x] <= self.s@[x + 1] <= self.g@.len()
        &&& forall|x: int| 0 <= x < N ==> #[trigger] self.nexts(x) == adj(self.e@, x, self.m as int)
        &&& forall|p: int| 0 <= p < self.g@.len() ==> #[trigger] self.g@[p] < N
        &&& self.g@.len() <= N * 2 * MAX_EDGES
        &&& self.b.wf()
        &&& self.b@.len() == N * N
        &&& forall|idx: int| 0 <= idx < N * N ==> #[trigger] self.b@[idx] == linked(self.e@, self.m as int, idx)
    }

    /// The graph of the beauties `a` and the edges `e`.
    pub fn new(a: Vec<i32>, e: Vec<(usize, usize)>) -> (r: Input)
        requires
            a@.len() == N,
            forall|x: int| 0 <= x < N ==> -MAX_BEAUTY <= #[trigger] a@[x] <= MAX_BEAUTY,
            e@.len() <= MAX_EDGES,
            forall|k: int| 0 <= k < e@.len() ==> (#[trigger] e@[k]).0 < N && e@[k].1 < N,
        ensures
            r.wf(),
            r.a@ == a@,
            r.e@ == e@,
    {
        let m = e.len();
        let mut rows: Vec<Vec<usize>> = Vec::new();
        let mut x: usize = 0;
        while x < N
            invariant
                x <= N,
                rows@.len() == x,
                forall|y: int| 0 <= y < x ==> (#[trigger] rows@[y])@ == adj(e@, y, 0),
            decreases N - x,
        {
            rows.push(Vec::new());
            x = x + 1;
        }
        let mut b = Bitset::new(N * N);
        let mut k: usize = 0;
        while k < m
            invariant
                m == e@.len(),
                forall|j: int| 0 <= j < e@.len() ==> (#[trigger] e@[j]).0 < N && e@[j].1 < N,
                k <= m,
                rows@.len() == N,
                forall|y: int| 0 <= y < N ==> (#[trigger] rows@[y])@ == adj(e@, y, k as int),
                b.wf(),
                b@.len() == N * N,
                forall|idx: int| 0 <= idx < N * N ==> #[trigger] b@[idx] == linked(e@, k as int, idx),
            decreases m - k,
        {
            let (u, v) = e[k];
            b.set(u * N + v, true);
            b.set(v * N + u, true);
            let ghost r0 = rows@;
            let mut row = rows.remove(u);
            row.push(v);
            rows.insert(u, row);
            let ghost r1 = rows@;
            let mut row = rows.remove(v);
            row.push(u);
            rows.insert(v, row);
            proof {
                assert forall|y: int| 0 <= y < N implies (#[trigger] rows@[y])@ == adj(e@, y, k + 1) by {
                    assert(r1[y]@ == if y == u { r0[y]@.push(v) } else { r0[y]@ });
                    assert(rows@[y]@ == if y == v { r1[y]@.push(u) } else { r1[y]@ });
                    if y == u && y == v {
                        assert(adj(e@, y, k + 1) =~= adj(e@, y, k as int).push(v).push(u));
                    } else if y == u {
                        assert(adj(e@, y, k + 1) =~= adj(e@, y, k as int).push(v));
                    } else if y == v {
                        assert(adj(e@, y, k + 1) =~= adj(e@, y, k as int).push(u));
                    } else {
                        assert(adj(e@, y, k + 1) =~= adj(e@, y, k as int));
                    }
                }
                assert forall|idx: int| 0 <= idx < N * N implies #[trigger] b@[idx] == linked(e@, k + 1, idx) by {
                    if idx == u * N + v || idx == v * N + u {
                        assert(e@[k as int] == (u, v));
                    } else if linked(e@, k + 1, idx) {
                        let j = choose|j: int| 0 <= j < k + 1 && (idx == #[trigger] e@[j].0 * N + e@[j].1 || idx == e@[j].1 * N + e@[j].0);
                        assert(j < k);
                    }
                }
            }
            k = k + 1;
        }
        let ghost rv = rows@.map_values(|r: Vec<usize>| r@);
        let mut g: Vec<usize> = Vec::new();
        let mut s: Vec<usize> = Vec::new();
        s.push(0);
        let mut x: usize = 0;
        while x < N
            invariant
                x <= N,
                rows@.len() == N,
                rv == rows@.map_values(|r: Vec<usize>| r@),
                m == e@.len(),
                forall|j: int| 0 <= j < e@.len() ==> (#[trigger] e@[j]).0 < N && e@[j].1 < N,
                forall|y: int| 0 <= y < N ==> (#[trigger] rows@[y])@ == adj(e@, y, m as int),
                g@ == flat(rv, x as int),
                s@.len() == x + 1,
                forall|y: int| 0 <= y <= x ==> #[trigger] s@[y] == flat(rv, y).len(),
                forall|p: int| 0 <= p < g@.len() ==> #[trigger] g@[p] < N,
                g@.len() <= x * 2 * MAX_EDGES,
                m <= MAX_EDGES,
            decreases N - x,
        {
            let ghost g0 = g@;
            let mut q: usize = 0;
            while q < rows[x].len()
                invariant
                    x < N,
                    rows@.len() == N,
                    rv == rows@.map_values(|r: Vec<usize>| r@),
                    q <= rows@[x as int]@.len(),
                    g@ == g0 + rows@[x as int]@.subrange(0, q as int),
                    forall|y: int| 0 <= y < N ==> (#[trigger] rows@[y])@ == adj(e@, y, m as int),
                    m == e@.len(),
                    forall|j: int| 0 <= j < e@.len() ==> (#[trigger] e@[j]).0 < N && e@[j].1 < N,
                    forall|p: int| 0 <= p < g@.len() ==> #[trigger] g@[p] < N,
                decreases rows@[x as int]@.len() - q,
            {
                let c = rows[x][q];
                proof {
                    lemma_adj_bound(e@, x as int, m as int);
                    assert(rows@[x as int]@[q as int] == adj(e@, x as int, m as int)[q as int]);
                }
                g.push(c);
                q = q + 1;
                assert(g@ =~= g0 + rows@[x as int]@.subrange(0, q as int));
            }
            assert(rows@[x as int]@.subrange(0, q as int) =~= rv[x as int]);
            proof {
                lemma_adj_len(e@, x as int, m as int);
            }
            s.push(g.len());
            x = x + 1;
        }
        let r = Input { m, a, e, g, s, b };
        proof {
            assert forall|y: int| 0 <= y < N implies #[trigger] r.s@[y] <= r.s@[y + 1] <= r.g@.len() by {
                lemma_flat_prefix(rv, y, y + 1);
                lemma_flat_prefix(rv, y + 1, N as int);
            }
            assert forall|y: int| 0 <= y < N implies #[trigger] r.nexts(y) == adj(r.e@, y, r.m as int) by {
                lemma_flat_prefix(rv, y + 1, N as int);
                lemma_flat_prefix(rv, y, y + 1);
                let f = flat(rv, N as int);
                let fy = flat(rv, y + 1);
                assert(f.subrange(0, fy.len() as int) == fy);
                assert(fy == flat(rv, y) + rv[y]);
                assert(r.nexts(y) =~= fy.subrange(flat(rv, y).len() as int, fy.len() as int));
                assert(fy.subrange(flat(rv, y).len() as int, fy.len() as int) =~= rv[y]);
            }
        }
        r
    }
}

/// Each edge adds at most two neighbours.
pub proof fn lemma_adj_len(e: Seq<(usize, usize)>, x: int, k: int)
    requires
        k >= 0,
    ensures
        adj(e, x, k).len() <= 2 * k,
    decreases k,
{
    if k > 0 {
        lemma_adj_len(e, x, k - 1);
    }
}

/// Every neighbour along edges with ends below `N` is below `N`.
pub proof fn lemma_adj_bound(e: Seq<(usize, usize)>, x: int, k: int)
    requires
        k <= e.len(),
        forall|j: int| 0 <= j < e.len() ==> (#[trigger] e[j]).0 < N && e[j].1 < N,
    ensures
        forall|q: int| 0 <= q < adj(e, x, k).len() ==> #[trigger] adj(e, x, k)[q] < N,
    decreases k,
{
    if k > 0 {
        lemma_adj_bound(e, x, k - 1);
        let (u, v) = e[k - 1];
        let a0 = adj(e, x, k - 1);
        let p1: Seq<usize> = if u == x { seq![v] } else { Seq::empty() };
        let p2: Seq<usize> = if v == x { seq![u] } else { Seq::empty() };
        assert forall|q: int| 0 <= q < adj(e, x, k).len() implies #[trigger] adj(e, x, k)[q] < N by {
            if q < a0.len() {
                assert(adj(e, x, k)[q] == (a0 + p1)[q]);
            } else if q < a0.len() + p1.len() {
                assert(adj(e, x, k)[q] == (a0 + p1)[q]);
                assert((a0 + p1)[q] == p1[q - a0.len()]);
            } else {
                assert(adj(e, x, k)[q] == p2[q - a0.len() - p1.len()]);
            }
        }
    }
}


/// How many of the vertices `ks` stand at level `l`.
pub open spec fn level_count(v: Seq<i32>, ks: Seq<usize>, l: int) -> int
    decreases ks.len(),
{
    if ks.len() == 0 {
        0
    } else {
        level_count(v, ks.drop_last(), l) + if v[ks.last() as int] == l { 1int } else { 0int }
    }
}

/// How many times `x` occurs in `ks`.
pub open spec fn occ(ks: Seq<usize>, x: int) -> int
    decreases ks.len(),
{
    if ks.len() == 0 {
        0
    } else {
        occ(ks.drop_last(), x) + if ks.last() == x { 1int } else { 0int }
    }
}

/// The score: every vertex's beauty times one more than its level.
pub open spec fn score_sum(a: Seq<i32>, v: Seq<i32>, k: int) -> int
    decreases k,
{
    if k <= 0 {
        0
    } else {
        score_sum(a, v, k - 1) + a[k - 1] * (v[k - 1] + 1)
    }
}

pub proof fn lemma_occ_concat(s1: Seq<usize>, s2: Seq<usize>, x: int)
    ensures
        occ(s1 + s2, x) == occ(s1, x) + occ(s2, x),
    decreases s2.len(),
{
    if s2.len() == 0 {
        assert(s1 + s2 =~= s1);
    } else {
        assert((s1 + s2).drop_last() =~= s1 + s2.drop_last());
        lemma_occ_concat(s1, s2.drop_last(), x);
    }
}

/// `x` neighbours `y` as often as `y` neighbours `x`.
pub proof fn lemma_adj_symmetric(e: Seq<(usize, usize)>, x: int, y: int, k: int)
    ensures
        occ(adj(e, x, k), y) == occ(adj(e, y, k), x),
    decreases k,
{
    if k > 0 {
        lemma_adj_symmetric(e, x, y, k - 1);
        let (u, v) = e[k - 1];
        let px: Seq<usize> = if u == x { seq![v] } else { Seq::empty() };
        let qx: Seq<usize> = if v == x { seq![u] } else { Seq::empty() };
        let py: Seq<usize> = if u == y { seq![v] } else { Seq::empty() };
        let qy: Seq<usize> = if v == y { seq![u] } else { Seq::empty() };
        lemma_occ_concat(adj(e, x, k - 1) + px, qx, y);
        lemma_occ_concat(adj(e, x, k - 1), px, y);
        lemma_occ_concat(adj(e, y, k - 1) + py, qy, x);
        lemma_occ_concat(adj(e, y, k - 1), py, x);
        assert(occ(px, y) == if u == x && v == y { 1int } else { 0int }) by {
            if u == x {
                assert(px.drop_last() =~= Seq::<usize>::empty());
                assert(occ(Seq::<usize>::empty(), y) == 0);
            }
        }
        assert(occ(qx, y) == if v == x && u == y { 1int } else { 0int }) by {
            if v == x {
                assert(qx.drop_last() =~= Seq::<usize>::empty());
                assert(occ(Seq::<usize>::empty(), y) == 0);
            }
        }
        assert(occ(py, x) == if u == y && v == x { 1int } else { 0int }) by {
            if u == y {
                assert(py.drop_last() =~= Seq::<usize>::empty());
                assert(occ(Seq::<usize>::empty(), x) == 0);
            }
        }
        assert(occ(qy, x) == if v == y && u == x { 1int } else { 0int }) by {
            if v == y {
                assert(qy.drop_last() =~= Seq::<usize>::empty());
                assert(occ(Seq::<usize>::empty(), x) == 0);
            }
        }
    }
}

/// Moving vertex `i` to level `nv` changes each count by its occurrences.
pub proof fn lemma_level_count_update(v: Seq<i32>, ks: Seq<usize>, i: int, nv: i32, l: int)
    requires
        0 <= i < v.len(),
        forall|q: int| 0 <= q < ks.len() ==> #[trigger] ks[q] < v.len(),
    ensures
        level_count(v.update(i, nv), ks, l) == level_count(v, ks, l) + occ(ks, i) * ((if nv == l { 1int } else { 0int }) - (if v[i] == l { 1int } else { 0int })),
    decreases ks.len(),
{
    if ks.len() > 0 {
        assert forall|q: int| 0 <= q < ks.drop_last().len() implies #[trigger] ks.drop_last()[q] < v.len() by {
            assert(ks.drop_last()[q] == ks[q]);
        }
        lemma_level_count_update(v, ks.drop_last(), i, nv, l);
        let o = occ(ks.drop_last(), i);
        let d = (if nv == l { 1int } else { 0int }) - (if v[i] == l { 1int } else { 0int });
        assert((o + 1) * d == o * d + d) by (nonlinear_arith);
    }
}

/// A vertex at level `v[i]` is counted there each time it occurs.
pub proof fn lemma_level_count_ge_occ(v: Seq<i32>, ks: Seq<usize>, i: int)
    requires
        0 <= i < v.len(),
    ensures
        level_count(v, ks, v[i] as int) >= occ(ks, i),
        0 <= occ(ks, i) <= ks.len(),
        0 <= level_count(v, ks, v[i] as int) <= ks.len(),
    decreases ks.len(),
{
    if ks.len() > 0 {
        lemma_level_count_ge_occ(v, ks.drop_last(), i);
    }
}

pub proof fn lemma_level_count_range(v: Seq<i32>, ks: Seq<usize>, l: int)
    ensures
        0 <= level_count(v, ks, l) <= ks.len(),
    decreases ks.len(),
{
    if ks.len() > 0 {
        lemma_level_count_range(v, ks.drop_last(), l);
    }
}

pub proof fn lemma_score_sum_update(a: Seq<i32>, v: Seq<i32>, i: int, nv: i32, k: int)
    requires
        0 <= i < v.len(),
        0 <= k <= v.len(),
    ensures
        score_sum(a, v.update(i, nv), k) == score_sum(a, v, k) + if i < k { a[i] * (nv - v[i]) } else { 0 },
    decreases k,
{
    if k > 0 {
        lemma_score_sum_update(a, v, i, nv, k - 1);
        if k - 1 == i {
            assert(a[i] * (nv + 1) - a[i] * (v[i] + 1) == a[i] * (nv - v[i])) by (nonlinear_arith);
        }
    }
}

pub proof fn lemma_score_sum_bound(a: Seq<i32>, v: Seq<i32>, k: int)
    requires
        0 <= k <= v.len(),
        k <= a.len(),
        forall|x: int| 0 <= x < a.len() ==> -MAX_BEAUTY <= #[trigger] a[x] <= MAX_BEAUTY,
        forall|x: int| 0 <= x < v.len() ==> 0 <= #[trigger] v[x] <= HEIGHT,
    ensures
        -k * MAX_BEAUTY * (HEIGHT + 1) <= score_sum(a, v, k) <= k * MAX_BEAUTY * (HEIGHT + 1),
    decreases k,
{
    if k > 0 {
        lemma_score_sum_bound(a, v, k - 1);
        let ax = a[k - 1];
        let vx = v[k - 1];
        assert(-MAX_BEAUTY * (HEIGHT + 1) <= ax * (vx + 1) <= MAX_BEAUTY * (HEIGHT + 1)) by (nonlinear_arith)
            requires
                -MAX_BEAUTY <= ax <= MAX_BEAUTY,
                0 <= vx <= HEIGHT,
        ;
    }
}

/// The levels of the vertices, a table of how many neighbours of each
/// vertex stand at each level, and the score.
pub struct Forest {
    pub v: Vec<i32>,
    pub levels: Vec<usize>,
    pub score: i32,
}

impl Forest {
    /// Every level is between 0 and `HEIGHT`, and the table counts, for
    /// each vertex and level, the neighbours at that level.
    pub open spec fn levels_ok(&self, input: &Input) -> bool {
        &&& self.v@.len() == N
        &&& forall|x: int| 0 <= x < N ==> 0 <= #[trigger] self.v@[x] <= HEIGHT
        &&& self.levels@.len() == N * SLOTS
        &&& forall|x: int, l: int|
            0 <= x < N && 0 <= l < SLOTS ==> #[trigger] self.levels@[x * SLOTS + l] == level_count(
                self.v@,
                input.nexts(x),
                l,
            )
    }

    /// The levels and the table agree, and the score is that of the levels.
    pub open spec fn wf(&self, input: &Input) -> bool {
        &&& input.wf()
        &&& self.levels_ok(input)
        &&& self.score == score_sum(input.a@, self.v@, N as int)
    }
}


pub proof fn lemma_occ_prefix(ks: Seq<usize>, p: int, y: int)
    requires
        0 <= p <= ks.len(),
    ensures
        0 <= occ(ks.subrange(0, p), y) <= occ(ks, y),
        occ(ks.subrange(0, p), y) <= p,
    decreases ks.len(),
{
    if p == ks.len() {
        assert(ks.subrange(0, p) =~= ks);
        lemma_occ_len(ks, y);
    } else {
        assert(ks.drop_last().subrange(0, p) =~= ks.subrange(0, p));
        lemma_occ_prefix(ks.drop_last(), p, y);
    }
}

pub proof fn lemma_occ_len(ks: Seq<usize>, y: int)
    ensures
        0 <= occ(ks, y) <= ks.len(),
    decreases ks.len(),
{
    if ks.len() > 0 {
        lemma_occ_len(ks.drop_last(), y);
    }
}

/// How a count at level `l` changes when a neighbour moves from level
/// `from` to level `to`.
pub open spec fn moved_by(from: int, to: int, l: int) -> int {
    (if to == l { 1int } else { 0int }) - (if from == l { 1int } else { 0int })
}

impl Forest {
    /// Moves vertex `x` to level `to`, keeping the table of neighbours'
    /// levels up to date.
    fn shift_level(&mut self, input: &Input, x: usize, to: i32)
        requires
            input.wf(),
            old(self).levels_ok(input),
            x < N,
            0 <= to <= HEIGHT,
        ensures
            final(self).levels_ok(input),
            final(self).v@ == old(self).v@.update(x as int, to),
            final(self).score == old(self).score,
    {
        let from = self.v[x];
        let lo = input.s[x];
        let hi = input.s[x + 1];
        let ghost nx = input.nexts(x as int);
        let ghost v0 = self.v@;
        let mut p = lo;
        proof {
            assert(nx.subrange(0, 0) =~= Seq::<usize>::empty());
        }
        while p < hi
            invariant
                input.wf(),
                x < N,
                0 <= to <= HEIGHT,
                v0 == old(self).v@,
                v0.len() == N,
                self.v@ == v0,
                self.score == old(self).score,
                from == v0[x as int],
                0 <= from <= HEIGHT,
                lo == input.s@[x as int],
                hi == input.s@[x + 1],
                nx == input.nexts(x as int),
                lo <= p <= hi,
                self.levels@.len() == N * SLOTS,
                forall|y: int| 0 <= y < N ==> 0 <= #[trigger] v0[y] <= HEIGHT,
                forall|y: int, l: int|
                    0 <= y < N && 0 <= l < SLOTS ==> #[trigger] self.levels@[y * SLOTS + l] == level_count(
                        v0,
                        input.nexts(y),
                        l,
                    ) + occ(nx.subrange(0, p - lo), y) * moved_by(from as int, to as int, l),
            decreases hi - p,
        {
            let j = input.g[p];
            let ghost pre = nx.subrange(0, p - lo);
            proof {
                assert(nx[p - lo] == j);
                assert(nx.subrange(0, p - lo + 1) =~= pre.push(j));
                lemma_adj_symmetric(input.e@, x as int, j as int, input.m as int);
                lemma_occ_prefix(nx, p - lo + 1, j as int);
                lemma_level_count_ge_occ(v0, input.nexts(j as int), x as int);
                lemma_level_count_range(v0, input.nexts(j as int), to as int);
                lemma_occ_len(pre, j as int);
                assert(input.nexts(j as int).len() <= input.g@.len());
                assert(pre.len() <= input.g@.len());
            }
            proof {
                assert(input.nexts(j as int) == adj(input.e@, j as int, input.m as int));
                assert(nx == adj(input.e@, x as int, input.m as int));
                assert(pre.push(j).drop_last() =~= pre);
                assert(occ(pre.push(j), j as int) == occ(pre, j as int) + 1);
                assert(occ(nx.subrange(0, p - lo + 1), j as int) == occ(pre, j as int) + 1);
                let cf = level_count(v0, input.nexts(j as int), from as int);
                let ct = level_count(v0, input.nexts(j as int), to as int);
                assert(cf >= occ(pre, j as int) + 1);
                assert(self.levels@[j * SLOTS + from] == cf + occ(pre, j as int) * moved_by(from as int, to as int, from as int));
                assert(self.levels@[j * SLOTS + to] == ct + occ(pre, j as int) * moved_by(from as int, to as int, to as int));
                assert(0 <= occ(pre, j as int) <= input.g@.len());
                assert(0 <= ct <= input.g@.len());
                assert(input.g@.len() <= 200_000_000);
                let o = occ(pre, j as int);
                let mf = moved_by(from as int, to as int, from as int);
                let mt = moved_by(from as int, to as int, to as int);
                if to == from {
                    assert(mf == 0);
                    assert(o * mf == 0) by (nonlinear_arith)
                        requires
                            mf == 0,
                    ;
                } else {
                    assert(mf == -1 && mt == 1);
                    assert(o * mf == -o && o * mt == o) by (nonlinear_arith)
                        requires
                            mf == -1,
                            mt == 1,
                    ;
                }
            }
            let fi = j * SLOTS + from as usize;
            let ti = j * SLOTS + to as usize;
            assert(fi == j * SLOTS + from && ti == j * SLOTS + to);
            let fa = self.levels[fi];
            assert(fa >= 1);
            self.levels.set(fi, fa - 1);
            let ta = self.levels[ti];
            assert(ta <= 400_000_000);
            self.levels.set(ti, ta + 1);
            proof {
                let pre2 = pre.push(j);
                assert forall|y: int, l: int|
                    0 <= y < N && 0 <= l < SLOTS implies #[trigger] self.levels@[y * SLOTS + l] == level_count(
                        v0,
                        input.nexts(y),
                        l,
                    ) + occ(nx.subrange(0, p - lo + 1), y) * moved_by(from as int, to as int, l) by {
                    assert(pre2.drop_last() =~= pre);
                    assert(occ(pre2, y) == occ(pre, y) + if j == y { 1int } else { 0int });
                    let o = occ(pre, y);
                    assert((o + 1) * moved_by(from as int, to as int, l) == o * moved_by(from as int, to as int, l) + moved_by(from as int, to as int, l)) by (nonlinear_arith);
                    if y == j {
                        if l == from || l == to {
                        } else {
                            assert(y * SLOTS + l != j * SLOTS + from);
                            assert(y * SLOTS + l != j * SLOTS + to);
                        }
                    } else {
                        assert(y * SLOTS + l != j * SLOTS + from);
                        assert(y * SLOTS + l != j * SLOTS + to);
                    }
                }
            }
            p = p + 1;
        }
        self.v.set(x, to);
        proof {
            assert(nx.subrange(0, hi - lo) =~= nx);
            assert forall|y: int, l: int|
                0 <= y < N && 0 <= l < SLOTS implies #[trigger] self.levels@[y * SLOTS + l] == level_count(
                    self.v@,
                    input.nexts(y),
                    l,
                ) by {
                lemma_adj_symmetric(input.e@, x as int, y, input.m as int);
                assert forall|q: int| 0 <= q < input.nexts(y).len() implies #[trigger] input.nexts(y)[q] < v0.len() by {
                    assert(input.nexts(y)[q] == input.g@[input.s@[y] + q]);
                }
                lemma_level_count_update(v0, input.nexts(y), x as int, to, l);
            }
        }
    }

    /// Every vertex at level 0: each vertex's neighbours all counted at
    /// level 0, and the score the sum of the beauties.
    pub fn new(input: &Input) -> (f: Forest)
        requires
            input.wf(),
        ensures
            f.wf(input),
            f.v@ == Seq::new(N as nat, |x: int| 0i32),
            supported(input, f.v@),
    {
        let mut v: Vec<i32> = Vec::new();
        let mut x: usize = 0;
        while x < N
            invariant
                x <= N,
                v@ == Seq::new(x as nat, |y: int| 0i32),
            decreases N - x,
        {
            v.push(0);
            x = x + 1;
            assert(v@ =~= Seq::new(x as nat, |y: int| 0i32));
        }
        let mut levels: Vec<usize> = Vec::new();
        let mut x: usize = 0;
        while x < N
            invariant
                input.wf(),
                x <= N,
                v@ == Seq::new(N as nat, |y: int| 0i32),
                levels@.len() == x * SLOTS,
                forall|y: int, l: int|
                    0 <= y < x && 0 <= l < SLOTS ==> #[trigger] levels@[y * SLOTS + l] == level_count(
                        v@,
                        input.nexts(y),
                        l,
                    ),
            decreases N - x,
        {
            let deg = input.s[x + 1] - input.s[x];
            let ghost l0 = levels@;
            proof {
                lemma_all_zero_count(v@, input.nexts(x as int));
            }
            let mut l: usize = 0;
            while l < SLOTS
                invariant
                    x < N,
                    l <= SLOTS,
                    levels@.len() == x * SLOTS + l,
                    levels@.subrange(0, x * SLOTS) == l0,
                    deg == input.nexts(x as int).len(),
                    forall|l2: int| 0 <= l2 < l ==> #[trigger] levels@[x * SLOTS + l2] == if l2 == 0 { deg } else { 0 },
                decreases SLOTS - l,
            {
                levels.push(if l == 0 { deg } else { 0 });
                l = l + 1;
                assert(levels@.subrange(0, x * SLOTS) =~= l0);
            }
            proof {
                assert forall|y: int, l2: int|
                    0 <= y < x + 1 && 0 <= l2 < SLOTS implies #[trigger] levels@[y * SLOTS + l2] == level_count(
                        v@,
                        input.nexts(y),
                        l2,
                    ) by {
                    if y < x {
                        assert(levels@[y * SLOTS + l2] == levels@.subrange(0, x * SLOTS)[y * SLOTS + l2]);
                    }
                }
            }
            x = x + 1;
        }
        let mut score: i32 = 0;
        let mut x: usize = 0;
        while x < N
            invariant
                input.wf(),
                x <= N,
                v@ == Seq::new(N as nat, |y: int| 0i32),
                score == score_sum(input.a@, v@, x as int),
                -x * MAX_BEAUTY <= score <= x * MAX_BEAUTY,
            decreases N - x,
        {
            assert(v@[x as int] == 0);
            assert(input.a@[x as int] * (v@[x as int] + 1) == input.a@[x as int]);
            score = score + input.a[x];
            x = x + 1;
        }
        Forest { v, levels, score }
    }
}

/// With every vertex at level 0, a list counts all its members at level 0.
pub proof fn lemma_all_zero_count(v: Seq<i32>, ks: Seq<usize>)
    requires
        forall|q: int| 0 <= q < ks.len() ==> (#[trigger] ks[q]) < v.len(),
        forall|y: int| 0 <= y < v.len() ==> #[trigger] v[y] == 0,
    ensures
        forall|l: int| #[trigger] level_count(v, ks, l) == if l == 0 { ks.len() as int } else { 0 },
    decreases ks.len(),
{
    if ks.len() > 0 {
        assert forall|q: int| 0 <= q < ks.drop_last().len() implies (#[trigger] ks.drop_last()[q]) < v.len() by {
            assert(ks.drop_last()[q] == ks[q]);
        }
        lemma_all_zero_count(v, ks.drop_last());
        assert(ks[ks.len() - 1] < v.len());
        assert(v[ks.last() as int] == 0);
        assert forall|l: int| #[trigger] level_count(v, ks, l) == if l == 0 { ks.len() as int } else { 0 } by {
            assert(level_count(v, ks.drop_last(), l) == if l == 0 { ks.drop_last().len() as int } else { 0 });
        }
    }
}


/// No neighbour of `i` one level above it has `i` as its only neighbour at
/// `i`'s level, as the table counts.
pub open spec fn relevel_ok(f: &Forest, input: &Input, i: int) -> bool {
    forall|q: int|
        0 <= q < input.nexts(i).len() ==> {
            let j = #[trigger] input.nexts(i)[q] as int;
            f.v@[j] == 0 || f.v@[j] - f.v@[i] != 1 || f.levels@[j * SLOTS + f.v@[i]] > 1
        }
}

/// Each neighbour `k` of `x` (other than `y`) one level above it keeps a
/// neighbour at `x`'s level once `x` and `y` exchange levels: another one,
/// as the table counts, or `y` itself.
pub open spec fn keeps_support(f: &Forest, input: &Input, x: int, y: int) -> bool {
    forall|q: int|
        0 <= q < input.nexts(x).len() ==> {
            let k = #[trigger] input.nexts(x)[q] as int;
            k == y || f.v@[k] == 0 || f.v@[k] - f.v@[x] != 1 || f.levels@[k * SLOTS + f.v@[x]] > 1
                || input.b@[k * N + y]
        }
}

/// Where `x` and `y` exchange levels, each finds a neighbour one level
/// below its new level, as the table counts, or the other one is it.
pub open spec fn swap_supported(f: &Forest, x: int, y: int) -> bool {
    let (vx, vy) = (f.v@[x], f.v@[y]);
    &&& vx != vy
    &&& (vx - vy == 1 || vx == 0 || f.levels@[y * SLOTS + vx - 1] != 0)
    &&& (vy - vx == 1 || vy == 0 || f.levels@[x * SLOTS + vy - 1] != 0)
}

/// Level `nv` for vertex `i` is 0 or one above some neighbour of `i`.
pub open spec fn raised_level(f: &Forest, input: &Input, i: int, nv: int) -> bool {
    nv == 0 || exists|q: int| 0 <= q < input.nexts(i).len() && f.v@[#[trigger] input.nexts(i)[q] as int] + 1 == nv
}

/// The parent of `x` after the first `k` edges: the end one level below it
/// of the last edge that has one, or -1.
pub open spec fn parent_of(e: Seq<(usize, usize)>, v: Seq<i32>, x: int, k: int) -> int
    decreases k,
{
    if k <= 0 {
        -1
    } else {
        let (u, w) = e[k - 1];
        if u == x && v[w as int] + 1 == v[u as int] {
            w as int
        } else if w == x && v[u as int] + 1 == v[w as int] {
            u as int
        } else {
            parent_of(e, v, x, k - 1)
        }
    }
}

impl Forest {
    /// Draws a vertex `i` and a choice among its neighbours and the floor:
    /// one level above the drawn neighbour, or level 0. `None` where the
    /// neighbour is at the top level; else `i`, its new level and the change
    /// of score.
    pub fn propose_relevel(&self, input: &Input, mt: &mut rand_pcg::Mcg128Xsl64) -> (r: Option<(usize, i32, i32)>)
        requires
            self.wf(input),
        ensures
            r matches Some((i, nv, delta)) ==> i < N && 0 <= nv <= HEIGHT,
            r matches Some((i, nv, delta)) ==> raised_level(self, input, i as int, nv as int),
            r matches Some((i, nv, delta)) ==> delta == input.a@[i as int] * (nv - self.v@[i as int]),
            r is None ==> exists|i: int, q: int|
                0 <= i < N && 0 <= q < input.nexts(i).len() && self.v@[#[trigger] input.nexts(i)[q] as int] == HEIGHT,
    {
        let i = gen_index(mt, 0, N);
        let l = input.s[i + 1] - input.s[i];
        let chi = gen_index(mt, 0, l + 1);
        self.relevel_at(input, i, chi)
    }

    /// The proposal for vertex `i` with the choice `chi`: a choice below the
    /// number of `i`'s neighbours picks that neighbour, and `i` goes one
    /// level above it (`None` where the neighbour is at the top level); the
    /// last choice sends `i` to level 0. With the new level comes the change
    /// of score.
    pub fn relevel_at(&self, input: &Input, i: usize, chi: usize) -> (r: Option<(usize, i32, i32)>)
        requires
            self.wf(input),
            i < N,
            chi <= input.nexts(i as int).len(),
        ensures
            ({
                let l = input.nexts(i as int).len();
                let up = chi < l;
                &&& r is None <==> (up && self.v@[input.nexts(i as int)[chi as int] as int] == HEIGHT)
                &&& r matches Some((j, nv, delta)) ==> {
                    &&& j == i
                    &&& nv == if up { self.v@[input.nexts(i as int)[chi as int] as int] + 1 } else { 0 }
                    &&& 0 <= nv <= HEIGHT
                    &&& raised_level(self, input, i as int, nv as int)
                    &&& delta == input.a@[i as int] * (nv - self.v@[i as int])
                }
            }),
    {
        let l = input.s[i + 1] - input.s[i];
        let nv = if chi < l {
            let nb = input.g[input.s[i] + chi];
            assert(input.nexts(i as int)[chi as int] == nb);
            if self.v[nb] == HEIGHT {
                proof {
                    assert(0 <= i < N && 0 <= chi < input.nexts(i as int).len());
                    assert(self.v@[input.nexts(i as int)[chi as int] as int] == HEIGHT);
                }
                return None;
            }
            self.v[nb] + 1
        } else {
            0
        };
        let ai = input.a[i];
        let vi = self.v[i];
        assert(-MAX_BEAUTY * HEIGHT <= ai * (nv - vi) <= MAX_BEAUTY * HEIGHT) by (nonlinear_arith)
            requires
                -MAX_BEAUTY <= ai <= MAX_BEAUTY,
                -HEIGHT <= nv - vi <= HEIGHT,
        ;
        proof {
            if chi < l {
                let nb = input.nexts(i as int)[chi as int];
                assert(self.v@[nb as int] + 1 == nv);
            }
            assert(i < N);
            assert(0 <= nv <= HEIGHT);
            assert(raised_level(self, input, i as int, nv as int));
            assert(ai * (nv - vi) == input.a@[i as int] * (nv - self.v@[i as int]));
        }
        Some((i, nv, ai * (nv - vi)))
    }

    /// Moves vertex `i` to level `nv` where no neighbour one level above it
    /// depends on it alone; returns whether it did.
    pub fn commit_relevel(&mut self, input: &Input, i: usize, nv: i32) -> (r: bool)
        requires
            old(self).wf(input),
            i < N,
            0 <= nv <= HEIGHT,
        ensures
            r == relevel_ok(old(self), input, i as int),
            r ==> final(self).wf(input) && final(self).v@ == old(self).v@.update(i as int, nv)
                && final(self).score == old(self).score + input.a@[i as int] * (nv - old(self).v@[i as int]),
            !r ==> *final(self) == *old(self),
    {
        let vi = self.v[i];
        let mut p = input.s[i];
        let hi = input.s[i + 1];
        while p < hi
            invariant
                self.wf(input),
                *self == *old(self),
                i < N,
                vi == self.v@[i as int],
                input.s@[i as int] <= p <= hi,
                hi == input.s@[i + 1],
                forall|q: int|
                    0 <= q < p - input.s@[i as int] ==> {
                        let j = #[trigger] input.nexts(i as int)[q] as int;
                        self.v@[j] == 0 || self.v@[j] - self.v@[i as int] != 1 || self.levels@[j * SLOTS + self.v@[i as int]] > 1
                    },
            decreases hi - p,
        {
            let j = input.g[p];
            assert(input.nexts(i as int)[p - input.s@[i as int]] == j);
            let vj = self.v[j];
            if vj != 0 && vj - vi == 1 && self.levels[j * SLOTS + vi as usize] <= 1 {
                return false;
            }
            p = p + 1;
        }
        proof {
            assert(0 <= vi <= HEIGHT);
            assert(-MAX_BEAUTY * HEIGHT <= input.a@[i as int] * (nv - vi) <= MAX_BEAUTY * HEIGHT) by (nonlinear_arith)
                requires
                    -MAX_BEAUTY <= input.a@[i as int] <= MAX_BEAUTY,
                    -HEIGHT <= nv - vi <= HEIGHT,
            ;
            lemma_score_sum_update(input.a@, self.v@, i as int, nv, N as int);
            lemma_score_sum_bound(input.a@, self.v@, N as int);
            lemma_score_sum_bound(input.a@, self.v@.update(i as int, nv), N as int);
        }
        let delta = input.a[i] * (nv - vi);
        self.shift_level(input, i, nv);
        self.score = self.score + delta;
        true
    }

    /// Draws an edge `(i, j)`; `None` where its ends share a level or where
    /// either end would find no neighbour one level below its new level;
    /// else the ends and the change of score from exchanging their levels.
    pub fn propose_swap(&self, input: &Input, mt: &mut rand_pcg::Mcg128Xsl64) -> (r: Option<(usize, usize, i32)>)
        requires
            self.wf(input),
            input.m > 0,
        ensures
            match r {
                Some((i, j, delta)) => {
                    &&& i < N
                    &&& j < N
                    &&& exists|k: int| 0 <= k < input.m && #[trigger] input.e@[k] == (i, j)
                    &&& swap_supported(self, i as int, j as int)
                    &&& delta == input.a@[i as int] * (self.v@[j as int] - self.v@[i as int]) + input.a@[j as int] * (
                    self.v@[i as int] - self.v@[j as int])
                },
                None => exists|k: int| 0 <= k < input.m && !swap_supported(self, (#[trigger] input.e@[k]).0 as int, input.e@[k].1 as int),
            },
    {
        let k = gen_index(mt, 0, input.m);
        let (i, j) = input.e[k];
        let vi = self.v[i];
        let vj = self.v[j];
        proof {
            assert(input.e@[k as int] == (i, j));
        }
        if vi == vj {
            return None;
        }
        if vi - vj != 1 && vi > 0 && self.levels[j * SLOTS + (vi - 1) as usize] == 0 {
            return None;
        }
        if vj - vi != 1 && vj > 0 && self.levels[i * SLOTS + (vj - 1) as usize] == 0 {
            return None;
        }
        let ai = input.a[i];
        let aj = input.a[j];
        assert(-MAX_BEAUTY * HEIGHT <= ai * (vj - vi) <= MAX_BEAUTY * HEIGHT) by (nonlinear_arith)
            requires
                -MAX_BEAUTY <= ai <= MAX_BEAUTY,
                -HEIGHT <= vj - vi <= HEIGHT,
        ;
        assert(-MAX_BEAUTY * HEIGHT <= aj * (vi - vj) <= MAX_BEAUTY * HEIGHT) by (nonlinear_arith)
            requires
                -MAX_BEAUTY <= aj <= MAX_BEAUTY,
                -HEIGHT <= vi - vj <= HEIGHT,
        ;
        Some((i, j, ai * (vj - vi) + aj * (vi - vj)))
    }

    /// Whether every neighbour of `x` other than `y` one level above `x`
    /// keeps a neighbour at `x`'s level once `x` and `y` exchange levels.
    fn check_support(&self, input: &Input, x: usize, y: usize) -> (r: bool)
        requires
            self.wf(input),
            x < N,
            y < N,
        ensures
            r == keeps_support(self, input, x as int, y as int),
    {
        let vx = self.v[x];
        let mut p = input.s[x];
        let hi = input.s[x + 1];
        while p < hi
            invariant
                self.wf(input),
                x < N,
                y < N,
                vx == self.v@[x as int],
                input.s@[x as int] <= p <= hi,
                hi == input.s@[x + 1],
                forall|q: int|
                    0 <= q < p - input.s@[x as int] ==> {
                        let k = #[trigger] input.nexts(x as int)[q] as int;
                        k == y || self.v@[k] == 0 || self.v@[k] - self.v@[x as int] != 1 || self.levels@[k * SLOTS + self.v@[x as int]] > 1
                            || input.b@[k * N + y]
                    },
            decreases hi - p,
        {
            let k = input.g[p];
            assert(input.nexts(x as int)[p - input.s@[x as int]] == k);
            let vk = self.v[k];
            if k != y && vk != 0 && vk - vx == 1 && self.levels[k * SLOTS + vx as usize] <= 1 && !input.b.get(k * N + y) {
                return false;
            }
            p = p + 1;
        }
        true
    }

    /// Exchanges the levels of `i` and `j` where no neighbour of either
    /// loses its last neighbour one level below; returns whether it did.
    pub fn commit_swap(&mut self, input: &Input, i: usize, j: usize) -> (r: bool)
        requires
            old(self).wf(input),
            i < N,
            j < N,
            old(self).v@[i as int] != old(self).v@[j as int],
        ensures
            r == (keeps_support(old(self), input, i as int, j as int) && keeps_support(old(self), input, j as int, i as int)),
            r ==> final(self).wf(input) && final(self).v@ == old(self).v@.update(i as int, old(self).v@[j as int]).update(
                j as int,
                old(self).v@[i as int],
            ) && final(self).score == old(self).score + input.a@[i as int] * (old(self).v@[j as int] - old(self).v@[i as int])
                + input.a@[j as int] * (old(self).v@[i as int] - old(self).v@[j as int]),
            !r ==> *final(self) == *old(self),
    {
        if !self.check_support(input, i, j) {
            return false;
        }
        if !self.check_support(input, j, i) {
            return false;
        }
        let vi = self.v[i];
        let vj = self.v[j];
        let ai = input.a[i];
        let aj = input.a[j];
        let ghost v0 = self.v@;
        proof {
            assert(-MAX_BEAUTY * HEIGHT <= ai * (vj - vi) <= MAX_BEAUTY * HEIGHT) by (nonlinear_arith)
                requires
                    -MAX_BEAUTY <= ai <= MAX_BEAUTY,
                    -HEIGHT <= vj - vi <= HEIGHT,
            ;
            assert(-MAX_BEAUTY * HEIGHT <= aj * (vi - vj) <= MAX_BEAUTY * HEIGHT) by (nonlinear_arith)
                requires
                    -MAX_BEAUTY <= aj <= MAX_BEAUTY,
                    -HEIGHT <= vi - vj <= HEIGHT,
            ;
            let v1 = v0.update(i as int, vj);
            lemma_score_sum_update(input.a@, v0, i as int, vj, N as int);
            lemma_score_sum_update(input.a@, v1, j as int, vi, N as int);
            lemma_score_sum_bound(input.a@, v0, N as int);
            lemma_score_sum_bound(input.a@, v1.update(j as int, vi), N as int);
        }
        let delta = ai * (vj - vi) + aj * (vi - vj);
        self.shift_level(input, i, vj);
        self.shift_level(input, j, vi);
        self.score = self.score + delta;
        true
    }

    /// Each vertex's parent: the end one level below it of the last edge
    /// that has one, or -1.
    pub fn parents(&self, input: &Input) -> (r: Vec<isize>)
        requires
            self.wf(input),
        ensures
            r@.len() == N,
            forall|x: int| 0 <= x < N ==> #[trigger] r@[x] == parent_of(input.e@, self.v@, x, input.m as int),
    {
        let mut par: Vec<usize> = Vec::new();
        let mut x: usize = 0;
        while x < N
            invariant
                x <= N,
                par@ == Seq::new(x as nat, |y: int| usize::MAX),
            decreases N - x,
        {
            par.push(usize::MAX);
            x = x + 1;
            assert(par@ =~= Seq::new(x as nat, |y: int| usize::MAX));
        }
        let mut k: usize = 0;
        while k < input.m
            invariant
                self.wf(input),
                k <= input.m,
                par@.len() == N,
                forall|y: int| 0 <= y < N ==> #[trigger] par@[y] == if parent_of(input.e@, self.v@, y, k as int) < 0 {
                    usize::MAX
                } else {
                    parent_of(input.e@, self.v@, y, k as int) as usize
                },
                forall|y: int| 0 <= y < N ==> -1 <= #[trigger] parent_of(input.e@, self.v@, y, k as int) < N,
            decreases input.m - k,
        {
            let (u, w) = input.e[k];
            proof {
                assert(input.e@[k as int] == (u, w));
                assert(u < N && w < N);
            }
            if self.v[u] + 1 == self.v[w] {
                par.set(w, u);
            }
            if self.v[w] + 1 == self.v[u] {
                par.set(u, w);
            }
            proof {
                assert forall|y: int| 0 <= y < N implies -1 <= #[trigger] parent_of(input.e@, self.v@, y, k + 1) < N by {
                    assert(-1 <= parent_of(input.e@, self.v@, y, k as int) < N);
                }
            }
            k = k + 1;
        }
        let mut r: Vec<isize> = Vec::new();
        let mut x: usize = 0;
        while x < N
            invariant
                self.wf(input),
                x <= N,
                par@.len() == N,
                forall|y: int| 0 <= y < N ==> #[trigger] par@[y] == if parent_of(input.e@, self.v@, y, input.m as int) < 0 {
                    usize::MAX
                } else {
                    parent_of(input.e@, self.v@, y, input.m as int) as usize
                },
                forall|y: int| 0 <= y < N ==> -1 <= #[trigger] parent_of(input.e@, self.v@, y, input.m as int) < N,
                r@.len() == x,
                forall|y: int| 0 <= y < x ==> #[trigger] r@[y] == parent_of(input.e@, self.v@, y, input.m as int),
            decreases N - x,
        {
            let p = par[x];
            r.push(if p == usize::MAX { -1 } else { p as isize });
            x = x + 1;
        }
        r
    }
}


/// No vertex neighbours itself, and no two edges join the same pair.
pub open spec fn simple(input: &Input) -> bool {
    forall|x: int, y: int|
        0 <= x < N && 0 <= y < N ==> #[trigger] occ(input.nexts(x), y) <= if x == y { 0int } else { 1int }
}

/// Vertex `x` has a neighbour one level below it.
pub open spec fn has_support(input: &Input, v: Seq<i32>, x: int) -> bool {
    exists|q: int| 0 <= q < input.nexts(x).len() && v[#[trigger] input.nexts(x)[q] as int] + 1 == v[x]
}

/// Every vertex above level 0 has a neighbour one level below it.
pub open spec fn supported(input: &Input, v: Seq<i32>) -> bool {
    forall|x: int| 0 <= x < N && v[x] != 0 ==> #[trigger] has_support(input, v, x)
}

/// `y` occurs in `ks` exactly when some entry of `ks` is `y`.
pub proof fn lemma_occ_witness(ks: Seq<usize>, y: int)
    ensures
        occ(ks, y) >= 1 <==> exists|q: int| 0 <= q < ks.len() && ks[q] == y,
    decreases ks.len(),
{
    lemma_occ_len(ks, y);
    if ks.len() > 0 {
        let dl = ks.drop_last();
        lemma_occ_witness(dl, y);
        lemma_occ_len(dl, y);
        if occ(ks, y) >= 1 {
            if ks.last() == y {
                assert(ks[ks.len() - 1] == y);
            } else {
                let q = choose|q: int| 0 <= q < dl.len() && dl[q] == y;
                assert(ks[q] == y);
            }
        }
        if exists|q: int| 0 <= q < ks.len() && ks[q] == y {
            let q = choose|q: int| 0 <= q < ks.len() && ks[q] == y;
            if q < ks.len() - 1 {
                assert(dl[q] == y);
            }
        }
    }
}

/// Where more of `ks` stand at level `l` than `z` occurs in it, some entry
/// other than `z` stands at level `l`.
pub proof fn lemma_other_at_level(v: Seq<i32>, ks: Seq<usize>, l: int, z: int)
    requires
        level_count(v, ks, l) > occ(ks, z),
    ensures
        exists|q: int| 0 <= q < ks.len() && ks[q] != z && v[ks[q] as int] == l,
    decreases ks.len(),
{
    if ks.len() > 0 {
        let dl = ks.drop_last();
        let last = ks.last();
        if last != z && v[last as int] == l {
            assert(ks[ks.len() - 1] == last);
        } else {
            lemma_other_at_level(v, dl, l, z);
            let q = choose|q: int| 0 <= q < dl.len() && dl[q] != z && v[dl[q] as int] == l;
            assert(ks[q] == dl[q]);
        }
    }
}

/// The edge `e[k]` puts its second end among the neighbours of its first.
pub proof fn lemma_edge_adj(e: Seq<(usize, usize)>, k: int, m: int)
    requires
        0 <= k < m <= e.len(),
    ensures
        occ(adj(e, e[k].0 as int, m), e[k].1 as int) >= 1,
    decreases m,
{
    let (u, w) = e[m - 1];
    let x = e[k].0 as int;
    let y = e[k].1 as int;
    let a0 = adj(e, x, m - 1);
    let p1: Seq<usize> = if u == x { seq![w] } else { Seq::empty() };
    let p2: Seq<usize> = if w == x { seq![u] } else { Seq::empty() };
    assert(adj(e, x, m) == a0 + p1 + p2);
    lemma_occ_concat(a0 + p1, p2, y);
    lemma_occ_concat(a0, p1, y);
    lemma_occ_len(a0, y);
    lemma_occ_len(p1, y);
    lemma_occ_len(p2, y);
    if k < m - 1 {
        lemma_edge_adj(e, k, m - 1);
    } else {
        assert(p1 == seq![w]);
        assert(p1.drop_last() =~= Seq::<usize>::empty());
        assert(occ(Seq::<usize>::empty(), y) == 0);
    }
}

/// The neighbours of a vertex are vertices.
proof fn lemma_nexts_bound(input: &Input, x: int)
    requires
        input.wf(),
        0 <= x < N,
    ensures
        forall|q: int| 0 <= q < input.nexts(x).len() ==> #[trigger] input.nexts(x)[q] < N,
{
    assert forall|q: int| 0 <= q < input.nexts(x).len() implies #[trigger] input.nexts(x)[q] < N by {
        assert(input.nexts(x)[q] == input.g@[input.s@[x] + q]);
    }
}

/// Joined pairs, as the bit table marks them, are neighbours.
pub proof fn lemma_linked_neighbours(input: &Input, x: int, y: int)
    requires
        input.wf(),
        0 <= x < N,
        0 <= y < N,
        input.b@[x * N + y],
    ensures
        occ(input.nexts(x), y) >= 1,
{
    assert(0 <= x * N + y < N * N);
    assert(linked(input.e@, input.m as int, x * N + y));
    let k = choose|k: int|
        0 <= k < input.m && (x * N + y == #[trigger] input.e@[k].0 * N + input.e@[k].1 || x * N + y
            == input.e@[k].1 * N + input.e@[k].0);
    let (u, w) = input.e@[k];
    lemma_edge_adj(input.e@, k, input.m as int);
    lemma_adj_symmetric(input.e@, u as int, w as int, input.m as int);
    assert(input.nexts(x) == adj(input.e@, x, input.m as int));
    if x * N + y == u * N + w {
        assert(x == u && y == w);
    } else {
        assert(x == w && y == u);
    }
}

/// The vertex `z` that takes the level of its neighbour `o` finds a
/// neighbour one level below, as `swap_supported` asks of the table.
proof fn lemma_swap_moved(f: &Forest, input: &Input, z: int, o: int, w: Seq<i32>)
    requires
        f.wf(input),
        simple(input),
        0 <= z < N,
        0 <= o < N,
        z != o,
        occ(input.nexts(z), o) >= 1,
        f.v@[z] != f.v@[o],
        f.v@[o] - f.v@[z] == 1 || f.v@[o] == 0 || f.levels@[z * SLOTS + f.v@[o] - 1] != 0,
        w.len() == N,
        w[z] == f.v@[o],
        w[o] == f.v@[z],
        forall|y: int| 0 <= y < N && y != z && y != o ==> #[trigger] w[y] == f.v@[y],
    ensures
        w[z] != 0 ==> has_support(input, w, z),
{
    let v = f.v@;
    lemma_nexts_bound(input, z);
    if w[z] != 0 {
        if v[o] - v[z] == 1 {
            lemma_occ_witness(input.nexts(z), o);
            let q = choose|q: int| 0 <= q < input.nexts(z).len() && input.nexts(z)[q] == o;
            assert(w[input.nexts(z)[q] as int] + 1 == w[z]);
        } else {
            let l = v[o] - 1;
            assert(0 <= l < SLOTS);
            assert(f.levels@[z * SLOTS + l] == level_count(v, input.nexts(z), l));
            assert(occ(input.nexts(z), z) <= 0);
            lemma_other_at_level(v, input.nexts(z), l, z);
            let q = choose|q: int|
                0 <= q < input.nexts(z).len() && input.nexts(z)[q] != z && v[input.nexts(z)[q] as int] == l;
            let y = input.nexts(z)[q] as int;
            assert(y != o);
            assert(w[y] == v[y]);
            assert(w[input.nexts(z)[q] as int] + 1 == w[z]);
        }
    }
}

/// A neighbour `x` of `z` one level above it keeps a neighbour one level
/// below once `z` and `o` exchange levels, as `keeps_support` asks.
proof fn lemma_swap_neighbour(f: &Forest, input: &Input, z: int, o: int, x: int, w: Seq<i32>)
    requires
        f.wf(input),
        simple(input),
        0 <= z < N,
        0 <= o < N,
        0 <= x < N,
        x != z,
        x != o,
        f.v@[z] != f.v@[o],
        keeps_support(f, input, z, o),
        occ(input.nexts(x), z) >= 1,
        f.v@[x] == f.v@[z] + 1,
        w.len() == N,
        w[z] == f.v@[o],
        w[o] == f.v@[z],
        forall|y: int| 0 <= y < N && y != z && y != o ==> #[trigger] w[y] == f.v@[y],
    ensures
        has_support(input, w, x),
{
    let v = f.v@;
    lemma_nexts_bound(input, x);
    assert(input.nexts(x) == adj(input.e@, x, input.m as int));
    assert(input.nexts(z) == adj(input.e@, z, input.m as int));
    lemma_adj_symmetric(input.e@, x, z, input.m as int);
    lemma_occ_witness(input.nexts(z), x);
    let q2 = choose|q: int| 0 <= q < input.nexts(z).len() && input.nexts(z)[q] == x;
    assert(input.nexts(z)[q2] == x);
    let l = v[z] as int;
    assert(0 <= l < SLOTS);
    if f.levels@[x * SLOTS + l] > 1 {
        assert(f.levels@[x * SLOTS + l] == level_count(v, input.nexts(x), l));
        assert(occ(input.nexts(x), z) <= 1);
        lemma_other_at_level(v, input.nexts(x), l, z);
        let q = choose|q: int|
            0 <= q < input.nexts(x).len() && input.nexts(x)[q] != z && v[input.nexts(x)[q] as int] == l;
        let y = input.nexts(x)[q] as int;
        assert(y != o);
        assert(w[y] == v[y]);
        assert(w[input.nexts(x)[q] as int] + 1 == w[x]);
    } else {
        assert(input.b@[x * N + o]);
        lemma_linked_neighbours(input, x, o);
        lemma_occ_witness(input.nexts(x), o);
        let q = choose|q: int| 0 <= q < input.nexts(x).len() && input.nexts(x)[q] == o;
        assert(w[input.nexts(x)[q] as int] + 1 == w[x]);
    }
}

/// On a graph without loops or repeated edges, a move of vertex `i` to
/// level `nv` that `propose_relevel` offers and `commit_relevel` takes
/// keeps every vertex above level 0 next to one a level below it.
pub proof fn lemma_relevel_keeps_supported(f: &Forest, input: &Input, i: usize, nv: i32)
    requires
        f.wf(input),
        simple(input),
        supported(input, f.v@),
        i < N,
        0 <= nv <= HEIGHT,
        raised_level(f, input, i as int, nv as int),
        relevel_ok(f, input, i as int),
    ensures
        supported(input, f.v@.update(i as int, nv)),
{
    let v = f.v@;
    let w = v.update(i as int, nv);
    let ii = i as int;
    assert forall|x: int| 0 <= x < N && w[x] != 0 implies #[trigger] has_support(input, w, x) by {
        lemma_nexts_bound(input, x);
        if x == ii {
            let q = choose|q: int| 0 <= q < input.nexts(ii).len() && v[#[trigger] input.nexts(ii)[q] as int] + 1 == nv;
            let y = input.nexts(ii)[q] as int;
            assert(occ(input.nexts(ii), ii) <= 0);
            lemma_occ_witness(input.nexts(ii), ii);
            assert(y != ii);
            assert(w[input.nexts(x)[q] as int] + 1 == w[x]);
        } else {
            assert(has_support(input, v, x));
            let q = choose|q: int| 0 <= q < input.nexts(x).len() && v[#[trigger] input.nexts(x)[q] as int] + 1 == v[x];
            let y = input.nexts(x)[q] as int;
            if y != ii {
                assert(w[input.nexts(x)[q] as int] + 1 == w[x]);
            } else {
                lemma_nexts_bound(input, ii);
                assert(input.nexts(x) == adj(input.e@, x, input.m as int));
                assert(input.nexts(ii) == adj(input.e@, ii, input.m as int));
                lemma_occ_witness(input.nexts(x), ii);
                lemma_adj_symmetric(input.e@, x, ii, input.m as int);
                lemma_occ_witness(input.nexts(ii), x);
                let q2 = choose|q: int| 0 <= q < input.nexts(ii).len() && input.nexts(ii)[q] == x;
                assert(input.nexts(ii)[q2] == x);
                let l = v[ii] as int;
                assert(0 <= l < SLOTS);
                assert(f.levels@[x * SLOTS + l] > 1);
                assert(f.levels@[x * SLOTS + l] == level_count(v, input.nexts(x), l));
                assert(occ(input.nexts(x), ii) <= 1);
                lemma_other_at_level(v, input.nexts(x), l, ii);
                let q3 = choose|q: int|
                    0 <= q < input.nexts(x).len() && input.nexts(x)[q] != ii && v[input.nexts(x)[q] as int] == l;
                assert(w[input.nexts(x)[q3] as int] + 1 == w[x]);
            }
        }
    }
}

/// On a graph without loops or repeated edges, an exchange of the levels
/// of the ends of edge `(i, j)` that `propose_swap` offers and
/// `commit_swap` takes keeps every vertex above level 0 next to one a
/// level below it.
pub proof fn lemma_swap_keeps_supported(f: &Forest, input: &Input, i: usize, j: usize)
    requires
        f.wf(input),
        simple(input),
        supported(input, f.v@),
        i < N,
        j < N,
        exists|k: int| 0 <= k < input.m && #[trigger] input.e@[k] == (i, j),
        swap_supported(f, i as int, j as int),
        keeps_support(f, input, i as int, j as int),
        keeps_support(f, input, j as int, i as int),
    ensures
        supported(input, f.v@.update(i as int, f.v@[j as int]).update(j as int, f.v@[i as int])),
{
    let v = f.v@;
    let (ii, jj) = (i as int, j as int);
    let w = v.update(ii, v[jj]).update(jj, v[ii]);
    let k = choose|k: int| 0 <= k < input.m && #[trigger] input.e@[k] == (i, j);
    lemma_edge_adj(input.e@, k, input.m as int);
    lemma_adj_symmetric(input.e@, ii, jj, input.m as int);
    assert(input.nexts(ii) == adj(input.e@, ii, input.m as int));
    assert(input.nexts(jj) == adj(input.e@, jj, input.m as int));
    assert forall|x: int| 0 <= x < N && w[x] != 0 implies #[trigger] has_support(input, w, x) by {
        lemma_nexts_bound(input, x);
        if x == ii {
            lemma_swap_moved(f, input, ii, jj, w);
        } else if x == jj {
            lemma_swap_moved(f, input, jj, ii, w);
        } else {
            assert(has_support(input, v, x));
            let q = choose|q: int| 0 <= q < input.nexts(x).len() && v[#[trigger] input.nexts(x)[q] as int] + 1 == v[x];
            let y = input.nexts(x)[q] as int;
            if y == ii {
                lemma_occ_witness(input.nexts(x), ii);
                lemma_swap_neighbour(f, input, ii, jj, x, w);
            } else if y == jj {
                lemma_occ_witness(input.nexts(x), jj);
                lemma_swap_neighbour(f, input, jj, ii, x, w);
            } else {
                assert(w[input.nexts(x)[q] as int] + 1 == w[x]);
            }
        }
    }
}

} // verus!
