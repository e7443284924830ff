use vstd::prelude::*;
use crate::ds::union_find::{group_count, grouped, lemma_identity_groups, lemma_relabel_count, relabel, UnionFind};
use crate::random::pcg::gen_index;

verus! {

/// A tile is a set of line ends: bit 0 left, bit 1 up, bit 2 right, bit 3
/// down. Tile `i` joins tile `j` beside it in direction `d` (0 left, 1 up,
/// 2 right, 3 down) where `i` has a line end facing `j` and `j` one facing
/// back.
pub open spec fn joins(i: u8, j: u8, d: int) -> bool {
    if d == 0 {
        i & 1 != 0 && j & 4 != 0
    } else if d == 1 {
        i & 2 != 0 && j & 8 != 0
    } else if d == 2 {
        i & 4 != 0 && j & 1 != 0
    } else {
        i & 8 != 0 && j & 2 != 0
    }
}

/// The table of `joins` over every two tiles and direction, at
/// `(i * 16 + j) * 4 + d`, one for a join and zero otherwise.
pub fn join_table() -> (p: Vec<i64>)
    ensures
        p@.len() == 1024,
        forall|i: int, j: int, d: int|
            0 <= i < 16 && 0 <= j < 16 && 0 <= d < 4 ==> #[trigger] p@[(i * 16 + j) * 4 + d] == if joins(
                i as u8,
                j as u8,
                d,
            ) {
                1i64
            } else {
                0i64
            },
{
    let mut p: Vec<i64> = Vec::new();
    let mut x: usize = 0;
    while x < 1024
        invariant
            x <= 1024,
            p@.len() == x,
            forall|y: int| 0 <= y < x ==> #[trigger] p@[y] == if joins((y / 64) as u8, ((y / 4) % 16) as u8, y % 4) {
                1i64
            } else {
                0i64
            },
        decreases 1024 - x,
    {
        let i = (x / 64) as u8;
        let j = ((x / 4) % 16) as u8;
        let v = pop_count(i, j, x % 4);
        p.push(v);
        x = x + 1;
    }
    assert forall|i: int, j: int, d: int|
        0 <= i < 16 && 0 <= j < 16 && 0 <= d < 4 implies #[trigger] p@[(i * 16 + j) * 4 + d] == if joins(
            i as u8,
            j as u8,
            d,
        ) {
            1i64
        } else {
            0i64
        } by {
        let y = (i * 16 + j) * 4 + d;
        assert(y / 64 == i && (y / 4) % 16 == j && y % 4 == d) by (nonlinear_arith)
            requires
                y == (i * 16 + j) * 4 + d,
                0 <= i < 16,
                0 <= j < 16,
                0 <= d < 4,
        ;
    }
    p
}

/// One where tile `i` joins tile `j` in direction `d`, else zero.
pub fn pop_count(i: u8, j: u8, d: usize) -> (r: i64)
    requires
        d < 4,
    ensures
        r == if joins(i, j, d as int) { 1i64 } else { 0i64 },
{
    let b = if d == 0 {
        i & 1 != 0 && j & 4 != 0
    } else if d == 1 {
        i & 2 != 0 && j & 8 != 0
    } else if d == 2 {
        i & 4 != 0 && j & 1 != 0
    } else {
        i & 8 != 0 && j & 2 != 0
    };
    if b {
        1
    } else {
        0
    }
}

/// The neighbours of cell `v` of an `n` by `n` board to its right and below,
/// with the direction to each.
pub open spec fn forward_of(n: int, v: int) -> Seq<(usize, usize)> {
    let (i, j) = (v / n, v % n);
    (if j + 1 < n { seq![((v + 1) as usize, 2usize)] } else { Seq::empty() }) + (if i + 1 < n {
        seq![((v + n) as usize, 3usize)]
    } else {
        Seq::empty()
    })
}

/// All neighbours of cell `v`, left, right, up, down, with the directions.
pub open spec fn around_of(n: int, v: int) -> Seq<(usize, usize)> {
    let (i, j) = (v / n, v % n);
    (if j > 0 { seq![((v - 1) as usize, 0usize)] } else { Seq::empty() }) + (if j + 1 < n {
        seq![((v + 1) as usize, 2usize)]
    } else {
        Seq::empty()
    }) + (if i > 0 { seq![((v - n) as usize, 1usize)] } else { Seq::empty() }) + (if i + 1 < n {
        seq![((v + n) as usize, 3usize)]
    } else {
        Seq::empty()
    })
}

/// The directions in which cell `v` lies on the board's edge.
pub open spec fn edges_of(n: int, v: int) -> Seq<usize> {
    let (i, j) = (v / n, v % n);
    (if j == 0 { seq![0usize] } else { Seq::empty() }) + (if j + 1 == n { seq![2usize] } else {
        Seq::empty()
    }) + (if i == 0 { seq![1usize] } else { Seq::empty() }) + (if i + 1 == n { seq![3usize] } else {
        Seq::empty()
    })
}

/// The board size, the number of moves allowed, the empty cell, and the
/// tiles.
pub struct Input {
    pub n: usize,
    pub t: usize,
    pub s: usize,
    pub c: Vec<u8>,
}

/// The tiles of the board in their current places, and the neighbourhoods
/// of every cell.
pub struct State {
    pub place: Vec<usize>,
    pub c: Vec<u8>,
    pub s: usize,
    pub delta: Vec<Vec<(usize, usize)>>,
    pub check: Vec<Vec<(usize, usize)>>,
    pub outer: Vec<Vec<usize>>,
    pub dist: Vec<Vec<i64>>,
}

/// The largest board side taken.
pub const MAX_N: usize = 10;

impl State {
    /// The neighbourhoods and distances are those of an `n` by `n` board.
    pub open spec fn board_ok(&self, n: int) -> bool {
        &&& 2 <= n <= MAX_N
        &&& self.place@.len() == n * n
        &&& self.c@.len() == n * n
        &&& self.delta@.len() == n * n
        &&& self.check@.len() == n * n
        &&& self.outer@.len() == n * n
        &&& forall|v: int| 0 <= v < n * n ==> (#[trigger] self.delta@[v])@ == forward_of(n, v)
        &&& forall|v: int| 0 <= v < n * n ==> (#[trigger] self.check@[v])@ == around_of(n, v)
        &&& forall|v: int| 0 <= v < n * n ==> (#[trigger] self.outer@[v])@ == edges_of(n, v)
        &&& self.dist@.len() == n * n
        &&& forall|v: int| 0 <= v < n * n ==> (#[trigger] self.dist@[v])@.len() == n * n
        &&& forall|v: int, u: int|
            0 <= v < n * n && 0 <= u < n * n ==> #[trigger] self.dist@[v]@[u] == abs_int(v / n - u / n)
                + abs_int(v % n - u % n)
    }

    /// The board of `input` with every tile in its own place.
    pub fn new(input: &Input) -> (st: State)
        requires
            2 <= input.n <= MAX_N,
            input.c@.len() == input.n * input.n,
        ensures
            st.board_ok(input.n as int),
            st.place@ == Seq::new((input.n * input.n) as nat, |v: int| v as usize),
            st.c@ == input.c@,
            st.s == input.s,
    {
        let n = input.n;
        assert(n * n <= 100) by (nonlinear_arith)
            requires
                n <= 10,
        ;
        let nn = n * n;
        let mut delta: Vec<Vec<(usize, usize)>> = Vec::new();
        let mut check: Vec<Vec<(usize, usize)>> = Vec::new();
        let mut outer: Vec<Vec<usize>> = Vec::new();
        let mut v: usize = 0;
        while v < nn
            invariant
                2 <= n <= MAX_N,
                nn == n * n,
                nn <= 100,
                v <= n * n,
                delta@.len() == v,
                check@.len() == v,
                outer@.len() == v,
                forall|x: int| 0 <= x < v ==> (#[trigger] delta@[x])@ == forward_of(n as int, x),
                forall|x: int| 0 <= x < v ==> (#[trigger] check@[x])@ == around_of(n as int, x),
                forall|x: int| 0 <= x < v ==> (#[trigger] outer@[x])@ == edges_of(n as int, x),
            decreases n * n - v,
        {
            let i = v / n;
            let j = v % n;
            assert(i < n) by (nonlinear_arith)
                requires
                    i == v / n,
                    v < n * n,
                    n > 0,
            ;
            let mut dv: Vec<(usize, usize)> = Vec::new();
            let mut cv: Vec<(usize, usize)> = Vec::new();
            let mut ov: Vec<usize> = Vec::new();
            assert(v == i * n + j) by (nonlinear_arith)
                requires
                    i == v / n,
                    j == v % n,
                    n > 0,
            ;
            if j > 0 {
                cv.push((v - 1, 0));
            } else {
                ov.push(0);
            }
            if j + 1 < n {
                dv.push((v + 1, 2));
                cv.push((v + 1, 2));
            } else {
                ov.push(2);
            }
            if i > 0 {
                assert(v >= n) by (nonlinear_arith)
                    requires
                        i == v / n,
                        i > 0,
                        n > 0,
                ;
                cv.push((v - n, 1));
            } else {
                ov.push(1);
            }
            if i + 1 < n {
                assert(v + n < n * n) by (nonlinear_arith)
                    requires
                        v == i * n + j,
                        i + 1 < n,
                        j < n,
                ;
                dv.push((v + n, 3));
                cv.push((v + n, 3));
            } else {
                ov.push(3);
            }
            assert(dv@ =~= forward_of(n as int, v as int));
            assert(cv@ =~= around_of(n as int, v as int));
            assert(ov@ =~= edges_of(n as int, v as int));
            delta.push(dv);
            check.push(cv);
            outer.push(ov);
            v = v + 1;
        }
        let mut dist: Vec<Vec<i64>> = Vec::new();
        let mut v: usize = 0;
        while v < nn
            invariant
                2 <= n <= MAX_N,
                nn == n * n,
                nn <= 100,
                v <= n * n,
                dist@.len() == v,
                forall|x: int| 0 <= x < v ==> (#[trigger] dist@[x])@.len() == n * n,
                forall|x: int, u: int|
                    0 <= x < v && 0 <= u < n * n ==> #[trigger] dist@[x]@[u] == abs_int(x / (n as int) - u / (n as int))
                        + abs_int(x % (n as int) - u % (n as int)),
            decreases n * n - v,
        {
            let mut row: Vec<i64> = Vec::new();
            let mut u: usize = 0;
            while u < nn
                invariant
                    2 <= n <= MAX_N,
                    nn == n * n,
                    nn <= 100,
                    v < n * n,
                    u <= n * n,
                    row@.len() == u,
                    forall|x: int| 0 <= x < u ==> #[trigger] row@[x] == abs_int((v as int) / (n as int) - x / (n as int)) + abs_int((v as int) % (n as int) - x % (n as int)),
                decreases n * n - u,
            {
                let (i, j, a, b) = (v / n, v % n, u / n, u % n);
                let di = if i < a { a - i } else { i - a };
                let dj = if j < b { b - j } else { j - b };
                assert(di < 100 && dj < 100) by (nonlinear_arith)
                    requires
                        i == v / n,
                        a == u / n,
                        v < n * n,
                        u < n * n,
                        n <= 10,
                        n > 0,
                        di == if i < a { a - i } else { i - a },
                        j < n,
                        b < n,
                        dj == if j < b { b - j } else { j - b },
                ;
                row.push((di + dj) as i64);
                u = u + 1;
            }
            dist.push(row);
            v = v + 1;
        }
        let mut place: Vec<usize> = Vec::new();
        let mut v: usize = 0;
        while v < nn
            invariant
                nn == n * n,
                v <= n * n,
                place@ == Seq::new(v as nat, |x: int| x as usize),
            decreases n * n - v,
        {
            place.push(v);
            v = v + 1;
            assert(place@ =~= Seq::new(v as nat, |x: int| x as usize));
        }
        let mut c: Vec<u8> = Vec::new();
        let mut v: usize = 0;
        while v < nn
            invariant
                nn == n * n,
                v <= n * n,
                input.c@.len() == n * n,
                c@ == input.c@.subrange(0, v as int),
            decreases n * n - v,
        {
            c.push(input.c[v]);
            v = v + 1;
            assert(c@ =~= input.c@.subrange(0, v as int));
        }
        assert(c@ =~= input.c@);
        State { place, c, s: input.s, delta, check, outer, dist }
    }

    /// The tile at `i` has no line end facing off the board, and joins some
    /// neighbour.
    pub fn check_ok_placement(&self, i: usize) -> (r: bool)
        requires
            i < self.c@.len(),
            i < self.outer@.len(),
            i < self.check@.len(),
            forall|k: int| 0 <= k < self.outer@[i as int]@.len() ==> #[trigger] self.outer@[i as int]@[k] < 8,
            forall|k: int| 0 <= k < self.check@[i as int]@.len() ==> (#[trigger] self.check@[i as int]@[k]).0 < self.c@.len() && self.check@[i as int]@[k].1 < 4,
        ensures
            r == (edge_clear(self.c@[i as int], self.outer@[i as int]@) && joins_some(self.c@, i as int, self.check@[i as int]@)),
    {
        let outer = &self.outer[i];
        let mut k: usize = 0;
        while k < outer.len()
            invariant
                outer@ == self.outer@[i as int]@,
                forall|k2: int| 0 <= k2 < outer@.len() ==> #[trigger] outer@[k2] < 8,
                i < self.c@.len(),
                k <= outer@.len(),
                forall|k2: int| 0 <= k2 < k ==> self.c@[i as int] & (1u8 << #[trigger] outer@[k2] as u8) == 0,
            decreases outer@.len() - k,
        {
            let d = outer[k];
            if self.c[i] & (1u8 << d as u8) > 0 {
                assert(!edge_clear(self.c@[i as int], outer@)) by {
                    assert(self.c@[i as int] & (1u8 << outer@[k as int] as u8) != 0);
                }
                return false;
            }
            k = k + 1;
        }
        assert(edge_clear(self.c@[i as int], self.outer@[i as int]@));
        let check = &self.check[i];
        let mut k: usize = 0;
        while k < check.len()
            invariant
                edge_clear(self.c@[i as int], self.outer@[i as int]@),
                check@ == self.check@[i as int]@,
                forall|k2: int| 0 <= k2 < check@.len() ==> (#[trigger] check@[k2]).0 < self.c@.len() && check@[k2].1 < 4,
                i < self.c@.len(),
                k <= check@.len(),
                forall|k2: int| 0 <= k2 < k ==> !joins(self.c@[i as int], self.c@[#[trigger] check@[k2].0 as int], check@[k2].1 as int),
            decreases check@.len() - k,
        {
            let (j, d) = check[k];
            if pop_count(self.c[i], self.c[j], d) > 0 {
                assert(joins(self.c@[i as int], self.c@[check@[k as int].0 as int], check@[k as int].1 as int));
                return true;
            }
            k = k + 1;
        }
        false
    }
}

/// The tile `c` has no line end in the directions `ds`.
pub open spec fn edge_clear(c: u8, ds: Seq<usize>) -> bool {
    forall|k: int| 0 <= k < ds.len() ==> c & (1u8 << #[trigger] ds[k] as u8) == 0
}

/// The tile at `i` joins one of the neighbours `nb`.
pub open spec fn joins_some(c: Seq<u8>, i: int, nb: Seq<(usize, usize)>) -> bool {
    exists|k: int| 0 <= k < nb.len() && joins(c[i], c[#[trigger] nb[k].0 as int], nb[k].1 as int)
}

pub open spec fn abs_int(x: int) -> int {
    if x < 0 { -x } else { x }
}

/// The pairs `(v, j)` among the first `k` right and lower neighbours of cell
/// `v` whose tiles join.
pub open spec fn joined_at(c: Seq<u8>, delta: Seq<Vec<(usize, usize)>>, v: int, k: int) -> Seq<(int, int)>
    decreases k,
{
    if k <= 0 {
        Seq::empty()
    } else {
        let (j, d) = delta[v]@[k - 1];
        joined_at(c, delta, v, k - 1) + if joins(c[v], c[j as int], d as int) {
            seq![(v, j as int)]
        } else {
            Seq::empty()
        }
    }
}

/// The joined pairs of the first `i` cells, cell by cell.
pub open spec fn joined_upto(c: Seq<u8>, delta: Seq<Vec<(usize, usize)>>, i: int) -> Seq<(int, int)>
    decreases i,
{
    if i <= 0 {
        Seq::empty()
    } else {
        joined_upto(c, delta, i - 1) + joined_at(c, delta, i - 1, delta[i - 1]@.len() as int)
    }
}

impl State {
    /// The number of groups of cells whose tiles join: each cell joined with
    /// its right and lower neighbours where their tiles join, in order.
    pub fn count_components(&self) -> (r: usize)
        requires
            self.place@.len() == self.c@.len(),
            self.delta@.len() == self.c@.len(),
            forall|v: int, k: int|
                0 <= v < self.delta@.len() && 0 <= k < self.delta@[v]@.len() ==> (#[trigger] self.delta@[v]@[k]).0 < self.c@.len()
                    && self.delta@[v]@[k].1 < 4,
        ensures
            r == group_count(grouped(self.c@.len() as int, joined_upto(self.c@, self.delta@, self.c@.len() as int))),
    {
        let n = self.place.len();
        let mut uf = UnionFind::new(n);
        let mut cnt = n;
        let ghost mut done: Seq<(int, int)> = Seq::empty();
        proof {
            lemma_identity_groups(n as int);
        }
        let mut i: usize = 0;
        while i < n
            invariant
                n == self.c@.len(),
                self.delta@.len() == n,
                forall|v: int, k: int|
                    0 <= v < self.delta@.len() && 0 <= k < self.delta@[v]@.len() ==> (#[trigger] self.delta@[v]@[k]).0 < n
                        && self.delta@[v]@[k].1 < 4,
                i <= n,
                uf.wf(),
                uf.spec_len() == n,
                done == joined_upto(self.c@, self.delta@, i as int),
                cnt == group_count(grouped(n as int, done)),
                grouped(n as int, done).len() == n,
                forall|u: int| 0 <= u < n ==> 0 <= #[trigger] grouped(n as int, done)[u] < n,
                forall|u: int, w: int| 0 <= u < n && 0 <= w < n ==> (#[trigger] uf.find(u) == #[trigger] uf.find(w) <==> grouped(n as int, done)[u] == grouped(n as int, done)[w]),
            decreases n - i,
        {
            let nb = &self.delta[i];
            let mut k: usize = 0;
            while k < nb.len()
                invariant
                    n == self.c@.len(),
                    self.delta@.len() == n,
                    nb@ == self.delta@[i as int]@,
                    forall|v: int, k2: int|
                        0 <= v < self.delta@.len() && 0 <= k2 < self.delta@[v]@.len() ==> (#[trigger] self.delta@[v]@[k2]).0 < n
                            && self.delta@[v]@[k2].1 < 4,
                    i < n,
                    k <= nb@.len(),
                    uf.wf(),
                    uf.spec_len() == n,
                    done == joined_upto(self.c@, self.delta@, i as int) + joined_at(self.c@, self.delta@, i as int, k as int),
                    cnt == group_count(grouped(n as int, done)),
                    grouped(n as int, done).len() == n,
                    forall|u: int| 0 <= u < n ==> 0 <= #[trigger] grouped(n as int, done)[u] < n,
                    forall|u: int, w: int| 0 <= u < n && 0 <= w < n ==> (#[trigger] uf.find(u) == #[trigger] uf.find(w) <==> grouped(n as int, done)[u] == grouped(n as int, done)[w]),
                decreases nb@.len() - k,
            {
                let (j, d) = nb[k];
                assert(self.delta@[i as int]@[k as int] == (j, d));
                if pop_count(self.c[i], self.c[j], d) > 0 {
                    let ghost lab = grouped(n as int, done);
                    let ghost uf0 = uf;
                    let res = uf.unite(i, j);
                    proof {
                        let nd = done.push((i as int, j as int));
                        assert(nd.drop_last() == done);
                        let lab2 = grouped(n as int, nd);
                        assert(lab2 == relabel(lab, i as int, j as int));
                        if lab[i as int] != lab[j as int] {
                            lemma_relabel_count(lab, i as int, j as int);
                        }
                        assert forall|u: int, w: int| 0 <= u < n && 0 <= w < n implies (#[trigger] uf.find(u) == #[trigger] uf.find(w) <==> lab2[u] == lab2[w]) by {
                            assert(uf0.find(u) == uf0.find(i as int) <==> lab[u] == lab[i as int]);
                            assert(uf0.find(u) == uf0.find(j as int) <==> lab[u] == lab[j as int]);
                            assert(uf0.find(w) == uf0.find(i as int) <==> lab[w] == lab[i as int]);
                            assert(uf0.find(w) == uf0.find(j as int) <==> lab[w] == lab[j as int]);
                            assert(uf0.find(u) == uf0.find(w) <==> lab[u] == lab[w]);
                        }
                        done = nd;
                    }
                    if res.is_some() {
                        cnt = cnt - 1;
                    }
                    proof {
                        assert(joined_at(self.c@, self.delta@, i as int, k + 1) == joined_at(self.c@, self.delta@, i as int, k as int).push((i as int, j as int)));
                        assert(done =~= joined_upto(self.c@, self.delta@, i as int) + joined_at(self.c@, self.delta@, i as int, k + 1));
                    }
                } else {
                    proof {
                        assert(joined_at(self.c@, self.delta@, i as int, k + 1) =~= joined_at(self.c@, self.delta@, i as int, k as int));
                    }
                }
                k = k + 1;
            }
            proof {
                assert(done =~= joined_upto(self.c@, self.delta@, i + 1));
            }
            i = i + 1;
        }
        cnt
    }
}

/// The sequence with the entries at `i` and `j` exchanged.
pub open spec fn swapped<T>(s: Seq<T>, i: int, j: int) -> Seq<T> {
    s.update(i, s[j]).update(j, s[i])
}

/// How much closer to their goals the tiles at `i` and `j` come when
/// exchanged, by the distances `dist`.
pub open spec fn dist_gain(dist: Seq<Vec<i64>>, place: Seq<usize>, i: int, j: int) -> int {
    -dist[place[i] as int]@[j] + dist[place[i] as int]@[i] - dist[place[j] as int]@[i] + dist[place[j] as int]@[j]
}

/// The progress of the annealing: the groups now, the distance walked,
/// the exchanges made, and the best board with two groups found so far.
pub struct Progress {
    pub now_comps: usize,
    pub now_dist: i64,
    pub swap_cnt: usize,
    pub best_dist: i64,
    pub best_place: Vec<usize>,
}

/// Both tiles sit well once the tiles at `i` and `j` of `st` are exchanged:
/// no line end off the board, and each joined to a neighbour.
pub open spec fn sit_after(st: State, i: int, j: int) -> bool {
    let c = swapped(st.c@, i, j);
    &&& edge_clear(c[i], st.outer@[i]@)
    &&& joins_some(c, i, st.check@[i]@)
    &&& edge_clear(c[j], st.outer@[j]@)
    &&& joins_some(c, j, st.check@[j]@)
}

impl State {
    /// The state holds an `n` by `n` board with its tiles placed.
    pub open spec fn ready(&self, n: int) -> bool {
        &&& self.board_ok(n)
        &&& forall|v: int| 0 <= v < n * n ==> #[trigger] self.place@[v] < n * n
    }

    /// Draws two cells `i` and `j` of the board, each from all `n * n`
    /// cells, and tries them with `swap_if_sits`: where they differ and both
    /// exchanged tiles sit well, the exchange stays and its change of the
    /// distance to the goals and the number of groups after come back;
    /// otherwise the board stays and the outcome is `None`.
    pub fn try_swap(&mut self, n: usize, mt: &mut rand_pcg::Mcg128Xsl64) -> (r: (usize, usize, Option<(i64, usize)>))
        requires
            old(self).ready(n as int),
        ensures
            final(self).ready(n as int),
            final(self).delta@ == old(self).delta@,
            final(self).check@ == old(self).check@,
            final(self).outer@ == old(self).outer@,
            final(self).dist@ == old(self).dist@,
            final(self).s == old(self).s,
            r.0 < n * n,
            r.1 < n * n,
            r.2 is None <==> (r.0 == r.1 || !sit_after(*old(self), r.0 as int, r.1 as int)),
            match r.2 {
                None => final(self).place@ == old(self).place@ && final(self).c@ == old(self).c@,
                Some((dd, nc)) => {
                    &&& final(self).place@ == swapped(old(self).place@, r.0 as int, r.1 as int)
                    &&& final(self).c@ == swapped(old(self).c@, r.0 as int, r.1 as int)
                    &&& dd == dist_gain(old(self).dist@, old(self).place@, r.0 as int, r.1 as int)
                    &&& nc == group_count(grouped((n * n) as int, joined_upto(final(self).c@, final(self).delta@, (n * n) as int)))
                },
            },
    {
        let len = self.place.len();
        assert(n * n >= 4) by (nonlinear_arith)
            requires
                n >= 2,
        ;
        let i = gen_index(mt, 0, len);
        let j = gen_index(mt, 0, len);
        let r = self.swap_if_sits(n, i, j);
        (i, j, r)
    }

    /// Where `i` and `j` differ, exchanges their tiles and keeps the
    /// exchange where both tiles then sit well, giving the change of the
    /// distance to the goals and the number of groups after. Otherwise the
    /// board stays and the result is `None`.
    pub fn swap_if_sits(&mut self, n: usize, i: usize, j: usize) -> (r: Option<(i64, usize)>)
        requires
            old(self).ready(n as int),
            i < n * n,
            j < n * n,
        ensures
            final(self).ready(n as int),
            final(self).delta@ == old(self).delta@,
            final(self).check@ == old(self).check@,
            final(self).outer@ == old(self).outer@,
            final(self).dist@ == old(self).dist@,
            final(self).s == old(self).s,
            r is None <==> (i == j || !sit_after(*old(self), i as int, j as int)),
            match r {
                None => final(self).place@ == old(self).place@ && final(self).c@ == old(self).c@,
                Some((dd, nc)) => {
                    &&& final(self).place@ == swapped(old(self).place@, i as int, j as int)
                    &&& final(self).c@ == swapped(old(self).c@, i as int, j as int)
                    &&& dd == dist_gain(old(self).dist@, old(self).place@, i as int, j as int)
                    &&& nc == group_count(grouped((n * n) as int, joined_upto(final(self).c@, final(self).delta@, (n * n) as int)))
                },
            },
    {
        if i == j {
            return None;
        }
        let dd = self.dist_delta(n, i, j);
        self.swap_tiles(n, i, j);
        if !self.sits_well(n, i) || !self.sits_well(n, j) {
            self.swap_tiles(n, i, j);
            proof {
                assert(self.place@ =~= old(self).place@);
                assert(self.c@ =~= old(self).c@);
            }
            return None;
        }
        let nc = self.components(n);
        Some((dd, nc))
    }

    /// How much closer to their goals the tiles at `i` and `j` come when
    /// exchanged.
    #[verifier::rlimit(30)]
    fn dist_delta(&self, n: usize, i: usize, j: usize) -> (dd: i64)
        requires
            self.ready(n as int),
            i < n * n,
            j < n * n,
        ensures
            dd == dist_gain(self.dist@, self.place@, i as int, j as int),
    {
        proof {
            let pi = self.place@[i as int] as int;
            let pj = self.place@[j as int] as int;
            lemma_dist_small(self, n as int, pi, j as int);
            lemma_dist_small(self, n as int, pi, i as int);
            lemma_dist_small(self, n as int, pj, i as int);
            lemma_dist_small(self, n as int, pj, j as int);
        }
        0 - self.dist[self.place[i]][j] + self.dist[self.place[i]][i] - self.dist[self.place[j]][i] + self.dist[self.place[j]][j]
    }

    /// Exchanges the tiles at `i` and `j`.
    fn swap_tiles(&mut self, n: usize, i: usize, j: usize)
        requires
            old(self).ready(n as int),
            i < n * n,
            j < n * n,
        ensures
            final(self).ready(n as int),
            final(self).place@ == swapped(old(self).place@, i as int, j as int),
            final(self).c@ == swapped(old(self).c@, i as int, j as int),
            final(self).delta@ == old(self).delta@,
            final(self).check@ == old(self).check@,
            final(self).outer@ == old(self).outer@,
            final(self).dist@ == old(self).dist@,
            final(self).s == old(self).s,
    {
        swap_at(&mut self.place, i, j);
        swap_at(&mut self.c, i, j);
        assert forall|v: int| 0 <= v < n * n implies #[trigger] self.place@[v] < n * n by {}
    }

    /// The tile at `i` sits well: no line end off the board, and joined to
    /// a neighbour.
    fn sits_well(&self, n: usize, i: usize) -> (r: bool)
        requires
            self.ready(n as int),
            i < n * n,
        ensures
            r == (edge_clear(self.c@[i as int], self.outer@[i as int]@) && joins_some(self.c@, i as int, self.check@[i as int]@)),
    {
        proof {
            lemma_around_in_board(n as int, i as int);
            assert(pairs_within(self.check@[i as int]@, n * n));
            assert forall|k: int| 0 <= k < self.outer@[i as int]@.len() implies #[trigger] self.outer@[i as int]@[k] < 8 by {}
        }
        self.check_ok_placement(i)
    }

    /// The number of groups of the board.
    fn components(&self, n: usize) -> (r: usize)
        requires
            self.ready(n as int),
        ensures
            r == group_count(grouped((n * n) as int, joined_upto(self.c@, self.delta@, (n * n) as int))),
    {
        proof {
            assert forall|v: int, k: int|
                0 <= v < self.delta@.len() && 0 <= k < self.delta@[v]@.len() implies (#[trigger] self.delta@[v]@[k]).0 < self.c@.len()
                    && self.delta@[v]@[k].1 < 4 by {
                lemma_forward_in_board(n as int, v);
                assert(pairs_within(self.delta@[v]@, n * n));
            }
        }
        self.count_components()
    }

    /// Puts back the tiles at `i` and `j`.
    pub fn undo_swap(&mut self, i: usize, j: usize)
        requires
            i < old(self).place@.len(),
            j < old(self).place@.len(),
            old(self).c@.len() == old(self).place@.len(),
        ensures
            final(self).place@ == swapped(old(self).place@, i as int, j as int),
            final(self).c@ == swapped(old(self).c@, i as int, j as int),
            final(self).delta@ == old(self).delta@,
            final(self).check@ == old(self).check@,
            final(self).outer@ == old(self).outer@,
            final(self).dist@ == old(self).dist@,
            final(self).s == old(self).s,
    {
        swap_at(&mut self.place, i, j);
        swap_at(&mut self.c, i, j);
    }
}

/// `place` orders the cells `0..m` (each once), and `c` holds at each cell
/// the label `tiles` gives the cell `place` puts there.
pub open spec fn tiles_aligned(place: Seq<usize>, c: Seq<u8>, tiles: Seq<u8>, m: int) -> bool {
    &&& place.len() == m
    &&& c.len() == m
    &&& tiles.len() == m
    &&& forall|k: int| 0 <= k < m ==> #[trigger] place[k] < m
    &&& forall|k: int, l: int| 0 <= k < m && 0 <= l < m && k != l ==> #[trigger] place[k] != #[trigger] place[l]
    &&& forall|k: int| 0 <= k < m ==> #[trigger] c[k] == tiles[place[k] as int]
}

/// Exchanging the tiles at two cells, in the order and in the labels alike
/// (as every exchange of the annealing does, and as its undoing does),
/// keeps the order a permutation and the labels with their tiles.
pub proof fn lemma_exchange_keeps_tiles(place: Seq<usize>, c: Seq<u8>, tiles: Seq<u8>, m: int, i: int, j: int)
    requires
        tiles_aligned(place, c, tiles, m),
        0 <= i < m,
        0 <= j < m,
    ensures
        tiles_aligned(swapped(place, i, j), swapped(c, i, j), tiles, m),
{
    let p2 = swapped(place, i, j);
    let c2 = swapped(c, i, j);
    assert forall|k: int| 0 <= k < m implies #[trigger] p2[k] == place[if k == j { i } else if k == i { j } else { k }] by {}
    assert forall|k: int| 0 <= k < m implies #[trigger] c2[k] == tiles[p2[k] as int] by {
        assert(p2[k] == place[if k == j { i } else if k == i { j } else { k }]);
    }
    assert forall|k: int, l: int| 0 <= k < m && 0 <= l < m && k != l implies #[trigger] p2[k] != #[trigger] p2[l] by {
        assert(p2[k] == place[if k == j { i } else if k == i { j } else { k }]);
        assert(p2[l] == place[if l == j { i } else if l == i { j } else { l }]);
    }
    assert forall|k: int| 0 <= k < m implies #[trigger] p2[k] < m by {
        assert(p2[k] == place[if k == j { i } else if k == i { j } else { k }]);
    }
}

/// Where `v` lies on an `n` by `n` board.
pub proof fn lemma_cell(n: int, v: int)
    requires
        n > 0,
        0 <= v < n * n,
    ensures
        0 <= v / n < n,
        0 <= v % n < n,
        v == (v / n) * n + v % n,
        v % n > 0 ==> v >= 1,
        v / n > 0 ==> v >= n,
        v / n + 1 < n ==> v + n < n * n,
        v % n + 1 < n ==> v + 1 < n * n,
{
    let i = v / n;
    let j = v % n;
    assert(v == i * n + j && 0 <= i < n && 0 <= j < n) by (nonlinear_arith)
        requires
            i == v / n,
            j == v % n,
            0 <= v < n * n,
            n > 0,
    ;
    assert(i + 1 < n ==> i * n + j + n < n * n) by (nonlinear_arith)
        requires
            0 <= j < n,
    ;
    assert(i > 0 ==> i * n + j >= n) by (nonlinear_arith)
        requires
            0 <= j,
            n > 0,
    ;
    assert(j + 1 < n ==> i * n + j + 1 < n * n) by (nonlinear_arith)
        requires
            0 <= i < n,
            0 <= j,
    ;
}

/// Distances between cells of the board are small.
pub proof fn lemma_dist_small(st: &State, n: int, a: int, b: int)
    requires
        st.board_ok(n),
        0 <= a < n * n,
        0 <= b < n * n,
    ensures
        st.dist@[a]@.len() == n * n,
        0 <= st.dist@[a]@[b] <= 100,
{
    lemma_cell(n, a);
    lemma_cell(n, b);
    assert(st.dist@[a]@[b] == abs_int(a / n - b / n) + abs_int(a % n - b % n));
}

/// Every neighbour pair in `s` is a cell below `lim` with a direction.
pub open spec fn pairs_within(s: Seq<(usize, usize)>, lim: int) -> bool {
    forall|k: int| 0 <= k < s.len() ==> (#[trigger] s[k]).0 < lim && s[k].1 < 4
}

pub proof fn lemma_pairs_concat(a: Seq<(usize, usize)>, b: Seq<(usize, usize)>, lim: int)
    requires
        pairs_within(a, lim),
        pairs_within(b, lim),
    ensures
        pairs_within(a + b, lim),
{
    assert forall|k: int| 0 <= k < (a + b).len() implies (#[trigger] (a + b)[k]).0 < lim && (a + b)[k].1 < 4 by {
        if k < a.len() {
            assert((a + b)[k] == a[k]);
        } else {
            assert((a + b)[k] == b[k - a.len()]);
        }
    }
}

pub proof fn lemma_around_in_board(n: int, v: int)
    requires
        2 <= n <= MAX_N,
        0 <= v < n * n,
    ensures
        pairs_within(around_of(n, v), n * n),
{
    lemma_cell(n, v);
    let i = v / n;
    let j = v % n;
    let a: Seq<(usize, usize)> = if j > 0 { seq![((v - 1) as usize, 0usize)] } else { Seq::empty() };
    let b: Seq<(usize, usize)> = if j + 1 < n { seq![((v + 1) as usize, 2usize)] } else { Seq::empty() };
    let c: Seq<(usize, usize)> = if i > 0 { seq![((v - n) as usize, 1usize)] } else { Seq::empty() };
    let d: Seq<(usize, usize)> = if i + 1 < n { seq![((v + n) as usize, 3usize)] } else { Seq::empty() };
    assert(pairs_within(a, n * n));
    assert(pairs_within(b, n * n));
    assert(pairs_within(c, n * n));
    assert(pairs_within(d, n * n));
    lemma_pairs_concat(a, b, n * n);
    lemma_pairs_concat(a + b, c, n * n);
    lemma_pairs_concat(a + b + c, d, n * n);
}

pub proof fn lemma_forward_in_board(n: int, v: int)
    requires
        2 <= n <= MAX_N,
        0 <= v < n * n,
    ensures
        pairs_within(forward_of(n, v), n * n),
{
    lemma_cell(n, v);
    let i = v / n;
    let j = v % n;
    let b: Seq<(usize, usize)> = if j + 1 < n { seq![((v + 1) as usize, 2usize)] } else { Seq::empty() };
    let d: Seq<(usize, usize)> = if i + 1 < n { seq![((v + n) as usize, 3usize)] } else { Seq::empty() };
    assert(pairs_within(b, n * n));
    assert(pairs_within(d, n * n));
    lemma_pairs_concat(b, d, n * n);
}

impl Progress {
    /// No exchange yet, with `comps` groups and no best board.
    pub fn new(comps: usize) -> (p: Progress)
        ensures
            p.now_comps == comps,
            p.now_dist == 0,
            p.swap_cnt == 0,
            p.best_dist == i64::MAX,
            p.best_place@.len() == 0,
    {
        Progress { now_comps: comps, now_dist: 0, swap_cnt: 0, best_dist: i64::MAX, best_place: Vec::new() }
    }

    /// Takes the exchange of `i` and `j` made by `try_swap`: the empty cell
    /// follows the empty tile, the counts move on, and the board is kept as
    /// the best where it has two groups, the parity of the exchanges matches
    /// the empty cell's distance from where it started, and it is nearer.
    pub fn accept(&mut self, st: &mut State, start: usize, i: usize, j: usize, dd: i64, nc: usize)
        requires
            i < old(st).c@.len(),
            j < old(st).c@.len(),
            old(st).s < old(st).c@.len(),
            start < old(st).dist@.len(),
            forall|v: int| 0 <= v < old(st).dist@.len() ==> (#[trigger] old(st).dist@[v])@.len() == old(st).c@.len(),
            forall|v: int, u: int| 0 <= v < old(st).dist@.len() && 0 <= u < old(st).c@.len() ==> 0 <= #[trigger] old(st).dist@[v]@[u],
            i64::MIN <= old(self).now_dist - dd <= i64::MAX,
            old(self).swap_cnt < usize::MAX,
        ensures
            ({
                let s1 = if old(st).c@[i as int] == 0 { i } else { old(st).s };
                let s2 = if old(st).c@[j as int] == 0 { j } else { s1 };
                &&& final(st).s == s2
                &&& final(st).place@ == old(st).place@
                &&& final(st).c@ == old(st).c@
                &&& final(st).delta@ == old(st).delta@
                &&& final(st).check@ == old(st).check@
                &&& final(st).outer@ == old(st).outer@
                &&& final(st).dist@ == old(st).dist@
                &&& final(self).now_comps == nc
                &&& final(self).now_dist == old(self).now_dist - dd
                &&& final(self).swap_cnt == old(self).swap_cnt + 1
                &&& if nc == 2 && (old(self).swap_cnt + 1) % 2 == old(st).dist@[start as int]@[s2 as int] % 2
                    && old(self).best_dist > old(self).now_dist - dd {
                    final(self).best_dist == old(self).now_dist - dd && final(self).best_place@ == old(st).place@
                } else {
                    final(self).best_dist == old(self).best_dist && final(self).best_place@ == old(self).best_place@
                }
            }),
    {
        if st.c[i] == 0 {
            st.s = i;
        }
        if st.c[j] == 0 {
            st.s = j;
        }
        self.now_comps = nc;
        self.now_dist = self.now_dist - dd;
        self.swap_cnt = self.swap_cnt + 1;
        assert(st.s < st.c@.len());
        if self.now_comps == 2 && self.swap_cnt % 2 == (st.dist[start][st.s] % 2) as usize && self.best_dist > self.now_dist {
            self.best_dist = self.now_dist;
            self.best_place = copy_usizes(&st.place);
        }
    }
}

/// Exchanges the entries at `i` and `j`.
fn swap_at<T: Copy>(v: &mut Vec<T>, i: usize, j: usize)
    requires
        i < old(v)@.len(),
        j < old(v)@.len(),
    ensures
        final(v)@ == swapped(old(v)@, i as int, j as int),
{
    let a = v[i];
    let b = v[j];
    v.set(i, b);
    v.set(j, a);
}

fn copy_usizes(v: &Vec<usize>) -> (r: Vec<usize>)
    ensures
        r@ == v@,
{
    let mut r: Vec<usize> = Vec::new();
    let mut i: usize = 0;
    while i < v.len()
        invariant
            i <= v@.len(),
            r@ == v@.subrange(0, i as int),
        decreases v@.len() - i,
    {
        r.push(v[i]);
        i = i + 1;
        assert(r@ =~= v@.subrange(0, i as int));
    }
    assert(r@ =~= v@);
    r
}

impl Input {
    /// The board from its rows of hexadecimal tiles: the empty cell is the
    /// last `'0'` (`usize::MAX` where there is none).
    pub fn from_rows(n: usize, t: usize, rows: &Vec<Vec<char>>) -> (r: Input)
        requires
            2 <= n <= MAX_N,
            rows@.len() == n,
            forall|i: int| 0 <= i < n ==> (#[trigger] rows@[i])@.len() == n,
            forall|i: int, j: int| 0 <= i < n && 0 <= j < n ==> is_hex(#[trigger] rows@[i]@[j]),
        ensures
            r.n == n,
            r.t == t,
            r.c@.len() == n * n,
            forall|i: int, j: int| 0 <= i < n && 0 <= j < n ==> r.c@[i * n + j] == hex_value(#[trigger] rows@[i]@[j]),
            r.s == usize::MAX ==> forall|v: int| 0 <= v < n * n ==> r.c@[v] != 0,
            r.s != usize::MAX ==> r.s < n * n && r.c@[r.s as int] == 0 && forall|v: int| 0 <= v < n * n && r.c@[v] == 0 ==> v <= r.s,
    {
        let mut c: Vec<u8> = Vec::new();
        let mut s: usize = usize::MAX;
        let mut i: usize = 0;
        while i < n
            invariant
                2 <= n <= MAX_N,
                rows@.len() == n,
                forall|a: int| 0 <= a < n ==> (#[trigger] rows@[a])@.len() == n,
                forall|a: int, b: int| 0 <= a < n && 0 <= b < n ==> is_hex(#[trigger] rows@[a]@[b]),
                i <= n,
                c@.len() == i * n,
                forall|a: int, b: int| 0 <= a < i && 0 <= b < n ==> c@[a * n + b] == hex_value(#[trigger] rows@[a]@[b]),
                s == usize::MAX ==> forall|v: int| 0 <= v < c@.len() ==> c@[v] != 0,
                s != usize::MAX ==> s < c@.len() && c@[s as int] == 0 && forall|v: int| 0 <= v < c@.len() && c@[v] == 0 ==> v <= s,
            decreases n - i,
        {
            let mut j: usize = 0;
            while j < n
                invariant
                    2 <= n <= MAX_N,
                    rows@.len() == n,
                    forall|a: int| 0 <= a < n ==> (#[trigger] rows@[a])@.len() == n,
                    forall|a: int, b: int| 0 <= a < n && 0 <= b < n ==> is_hex(#[trigger] rows@[a]@[b]),
                    i < n,
                    j <= n,
                    c@.len() == i * n + j,
                    forall|a: int, b: int| ((0 <= a < i && 0 <= b < n) || (a == i && 0 <= b < j)) ==> c@[a * n + b] == hex_value(#[trigger] rows@[a]@[b]),
                    s == usize::MAX ==> forall|v: int| 0 <= v < c@.len() ==> c@[v] != 0,
                    s != usize::MAX ==> s < c@.len() && c@[s as int] == 0 && forall|v: int| 0 <= v < c@.len() && c@[v] == 0 ==> v <= s,
                decreases n - j,
            {
                assert(i * n + j < 100) by (nonlinear_arith)
                    requires
                        i < n,
                        j < n,
                        n <= 10,
                ;
                let ch = rows[i][j];
                let x = hex_of(ch);
                if ch == '0' {
                    s = i * n + j;
                }
                let ghost c0 = c@;
                c.push(x);
                proof {
                    assert forall|a: int, b: int| ((0 <= a < i && 0 <= b < n) || (a == i && 0 <= b < j + 1)) implies c@[a * n + b] == hex_value(#[trigger] rows@[a]@[b]) by {
                        if a < i || b < j {
                            assert(a * n + b < i * n + j) by (nonlinear_arith)
                                requires
                                    (0 <= a < i && 0 <= b < n) || (a == i && 0 <= b < j),
                            ;
                            assert(c@[a * n + b] == c0[a * n + b]);
                        }
                    }
                }
                j = j + 1;
            }
            assert(c@.len() == (i + 1) * n) by (nonlinear_arith)
                requires
                    c@.len() == i * n + n,
            ;
            i = i + 1;
        }
        Input { n, t, s, c }
    }
}

/// A hexadecimal digit, either case.
pub open spec fn is_hex(ch: char) -> bool {
    ('0' <= ch && ch <= '9') || ('a' <= ch && ch <= 'f') || ('A' <= ch && ch <= 'F')
}

/// The value of a hexadecimal digit.
pub open spec fn hex_value(ch: char) -> u8 {
    if '0' <= ch && ch <= '9' {
        (ch as u32 - '0' as u32) as u8
    } else if 'a' <= ch && ch <= 'f' {
        (ch as u32 - 'a' as u32 + 10) as u8
    } else {
        (ch as u32 - 'A' as u32 + 10) as u8
    }
}

fn hex_of(ch: char) -> (r: u8)
    requires
        is_hex(ch),
    ensures
        r == hex_value(ch),
        (r == 0) == (ch == '0'),
{
    if '0' <= ch && ch <= '9' {
        (ch as u32 - '0' as u32) as u8
    } else if 'a' <= ch && ch <= 'f' {
        (ch as u32 - 'a' as u32 + 10) as u8
    } else {
        (ch as u32 - 'A' as u32 + 10) as u8
    }
}

} // verus!
