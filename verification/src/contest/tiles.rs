use vstd::prelude::*;
use crate::random::pcg::gen_index;

verus! {

/// The side of the board.
pub const N: usize = 50;

/// A cell of the board, or a step between cells.
#[derive(Clone, Copy, Debug, PartialEq, Eq, Structural)]
pub struct Pos {
    pub x: isize,
    pub y: isize,
}

/// The largest coordinate a position may hold, so that sums and scalings
/// by the board's side stay in range.
pub const COORD: isize = 10_000;

pub open spec fn small(p: Pos) -> bool {
    -COORD <= p.x <= COORD && -COORD <= p.y <= COORD
}

/// The position `(x, y)`.
pub fn pos(x: isize, y: isize) -> (p: Pos)
    ensures
        p == (Pos { x, y }),
{
    Pos { x, y }
}

impl Pos {
    /// The distance from the origin along the grid.
    pub fn norm1(&self) -> (r: isize)
        requires
            small(*self),
        ensures
            r == (if self.x < 0 { -self.x } else { self.x as int }) + (if self.y < 0 { -self.y } else { self.y as int }),
    {
        (if self.x < 0 { -self.x } else { self.x }) + (if self.y < 0 { -self.y } else { self.y })
    }

    /// The position lies on the board.
    pub fn is_valid(&self) -> (r: bool)
        ensures
            r == (0 <= self.x < N && 0 <= self.y < N),
    {
        0 <= self.x && self.x < N as isize && 0 <= self.y && self.y < N as isize
    }

    /// The position moved by `d`.
    pub fn sum(self, d: Pos) -> (r: Pos)
        requires
            small(self),
            small(d),
        ensures
            r == (Pos { x: (self.x + d.x) as isize, y: (self.y + d.y) as isize }),
    {
        pos(self.x + d.x, self.y + d.y)
    }

    /// The step from `d` to this position.
    pub fn diff(self, d: Pos) -> (r: Pos)
        requires
            small(self),
            small(d),
        ensures
            r == (Pos { x: (self.x - d.x) as isize, y: (self.y - d.y) as isize }),
    {
        pos(self.x - d.x, self.y - d.y)
    }

    /// The step taken `k` times.
    pub fn scale(self, k: isize) -> (r: Pos)
        requires
            small(self),
            -COORD <= k <= COORD,
        ensures
            r == (Pos { x: (self.x * k) as isize, y: (self.y * k) as isize }),
    {
        proof {
            assert(-100_000_000 <= self.x * k <= 100_000_000) by (nonlinear_arith)
                requires
                    -10_000 <= self.x <= 10_000,
                    -10_000 <= k <= 10_000,
            ;
            assert(-100_000_000 <= self.y * k <= 100_000_000) by (nonlinear_arith)
                requires
                    -10_000 <= self.y <= 10_000,
                    -10_000 <= k <= 10_000,
            ;
        }
        pos(self.x * k, self.y * k)
    }
}

/// The four steps, clockwise from right, and their letters.
pub open spec fn dir_step(d: int) -> Pos {
    if d == 0 {
        Pos { x: 0, y: 1 }
    } else if d == 1 {
        Pos { x: 1, y: 0 }
    } else if d == 2 {
        Pos { x: 0, y: -1isize }
    } else {
        Pos { x: -1isize, y: 0 }
    }
}

pub open spec fn dir_letter(d: int) -> char {
    if d == 0 { 'R' } else if d == 1 { 'D' } else if d == 2 { 'L' } else { 'U' }
}

/// The step in direction `d`.
pub fn dir_of(d: usize) -> (r: (Pos, char))
    requires
        d < 4,
    ensures
        r == (dir_step(d as int), dir_letter(d as int)),
{
    if d == 0 {
        (pos(0, 1), 'R')
    } else if d == 1 {
        (pos(1, 0), 'D')
    } else if d == 2 {
        (pos(0, -1), 'L')
    } else {
        (pos(-1, 0), 'U')
    }
}

/// The letters of the steps from `a` to `b`: one for each direction whose
/// step leads there.
pub open spec fn step_letters(a: Pos, b: Pos, k: int) -> Seq<char>
    decreases k,
{
    if k <= 0 {
        Seq::empty()
    } else {
        let s = dir_step(k - 1);
        step_letters(a, b, k - 1) + if (Pos { x: (a.x + s.x) as isize, y: (a.y + s.y) as isize }) == b {
            seq![dir_letter(k - 1)]
        } else {
            Seq::empty()
        }
    }
}

/// The letters of the walk through the first `i` positions.
pub open spec fn walk_letters(perm: Seq<Pos>, i: int) -> Seq<char>
    decreases i,
{
    if i <= 1 {
        Seq::empty()
    } else {
        walk_letters(perm, i - 1) + step_letters(perm[i - 2], perm[i - 1], 4)
    }
}

/// The letters that write the walk `perm` out.
pub fn route_letters(perm: &Vec<Pos>) -> (r: Vec<char>)
    requires
        forall|k: int| 0 <= k < perm@.len() ==> small(#[trigger] perm@[k]),
    ensures
        r@ == walk_letters(perm@, perm@.len() as int),
{
    let mut r: Vec<char> = Vec::new();
    let mut i: usize = 1;
    if perm.len() == 0 {
        return r;
    }
    while i < perm.len()
        invariant
            forall|k: int| 0 <= k < perm@.len() ==> small(#[trigger] perm@[k]),
            1 <= i <= perm@.len(),
            r@ == walk_letters(perm@, i as int),
        decreases perm@.len() - i,
    {
        let ghost r0 = r@;
        let mut d: usize = 0;
        while d < 4
            invariant
                forall|k: int| 0 <= k < perm@.len() ==> small(#[trigger] perm@[k]),
                1 <= i < perm@.len(),
                d <= 4,
                r@ == r0 + step_letters(perm@[i - 1], perm@[i as int], d as int),
            decreases 4 - d,
        {
            let (st, c) = dir_of(d);
            assert(small(perm@[i - 1]));
            if perm[i - 1].sum(st) == perm[i] {
                r.push(c);
            }
            d = d + 1;
            assert(r@ =~= r0 + step_letters(perm@[i - 1], perm@[i as int], d as int));
        }
        i = i + 1;
    }
    r
}

/// The tile and the value of every cell, the start, and how many tiles.
pub struct Input {
    pub start: Pos,
    pub m: usize,
    pub tile: Vec<Vec<usize>>,
    pub value: Vec<Vec<usize>>,
}

/// The largest value a cell may hold.
pub const MAX_VALUE: usize = 1_000_000;

impl Input {
    /// An `N` by `N` board of tiles below `m` and values up to `MAX_VALUE`.
    pub open spec fn wf(&self) -> bool {
        &&& self.tile@.len() == N
        &&& self.value@.len() == N
        &&& forall|i: int| 0 <= i < N ==> (#[trigger] self.tile@[i])@.len() == N
        &&& forall|i: int| 0 <= i < N ==> (#[trigger] self.value@[i])@.len() == N
        &&& forall|i: int, j: int| 0 <= i < N && 0 <= j < N ==> #[trigger] self.tile@[i]@[j] < self.m
        &&& forall|i: int, j: int| 0 <= i < N && 0 <= j < N ==> #[trigger] self.value@[i]@[j] <= MAX_VALUE
    }

    /// The board from the start and the rows of tiles and values; the
    /// number of tiles is one more than the largest tile.
    pub fn new(sx: isize, sy: isize, ts: Vec<Vec<usize>>, vs: Vec<Vec<usize>>) -> (r: Input)
        requires
            ts@.len() == N,
            vs@.len() == N,
            forall|i: int| 0 <= i < N ==> (#[trigger] ts@[i])@.len() == N,
            forall|i: int| 0 <= i < N ==> (#[trigger] vs@[i])@.len() == N,
            forall|i: int, j: int| 0 <= i < N && 0 <= j < N ==> #[trigger] ts@[i]@[j] < usize::MAX,
            forall|i: int, j: int| 0 <= i < N && 0 <= j < N ==> #[trigger] vs@[i]@[j] <= MAX_VALUE,
        ensures
            r.wf(),
            r.start == (Pos { x: sx, y: sy }),
            forall|i: int, j: int| 0 <= i < N && 0 <= j < N ==> #[trigger] r.tile@[i]@[j] == ts@[i]@[j] && r.value@[i]@[j] == vs@[i]@[j],
            forall|i: int, j: int| 0 <= i < N && 0 <= j < N ==> #[trigger] ts@[i]@[j] < r.m,
            r.m == 0 || exists|i: int, j: int| 0 <= i < N && 0 <= j < N && r.m == #[trigger] ts@[i]@[j] + 1,
    {
        let mut m: usize = 0;
        let mut i: usize = 0;
        while i < N
            invariant
                ts@.len() == N,
                forall|a: int| 0 <= a < N ==> (#[trigger] ts@[a])@.len() == N,
                forall|a: int, b: int| 0 <= a < N && 0 <= b < N ==> #[trigger] ts@[a]@[b] < usize::MAX,
                i <= N,
                forall|a: int, b: int| 0 <= a < i && 0 <= b < N ==> #[trigger] ts@[a]@[b] < m,
                m == 0 || exists|a: int, b: int| 0 <= a < N && 0 <= b < N && m == #[trigger] ts@[a]@[b] + 1,
            decreases N - i,
        {
            let mut j: usize = 0;
            while j < N
                invariant
                    ts@.len() == N,
                    forall|a: int| 0 <= a < N ==> (#[trigger] ts@[a])@.len() == N,
                    forall|a: int, b: int| 0 <= a < N && 0 <= b < N ==> #[trigger] ts@[a]@[b] < usize::MAX,
                    i < N,
                    j <= N,
                    forall|a: int, b: int| ((0 <= a < i && 0 <= b < N) || (a == i && 0 <= b < j)) ==> #[trigger] ts@[a]@[b] < m,
                    m == 0 || exists|a: int, b: int| 0 <= a < N && 0 <= b < N && m == #[trigger] ts@[a]@[b] + 1,
                decreases N - j,
            {
                let t = ts[i][j];
                if t + 1 > m {
                    m = t + 1;
                }
                j = j + 1;
            }
            i = i + 1;
        }
        Input { start: pos(sx, sy), m, tile: ts, value: vs }
    }

    /// The tile of the cell `p`.
    pub fn get_tile(&self, p: Pos) -> (r: usize)
        requires
            self.wf(),
            0 <= p.x < N,
            0 <= p.y < N,
        ensures
            r == self.tile@[p.x as int]@[p.y as int],
    {
        self.tile[p.x as usize][p.y as usize]
    }

    /// The value of the cell `p`.
    pub fn get_value(&self, p: Pos) -> (r: isize)
        requires
            self.wf(),
            0 <= p.x < N,
            0 <= p.y < N,
        ensures
            r == self.value@[p.x as int]@[p.y as int],
    {
        self.value[p.x as usize][p.y as usize] as isize
    }
}

/// A walk over the board from the start, the tiles it has entered, and
/// the values it has collected.
pub struct State {
    pub perm: Vec<Pos>,
    pub used_tile: Vec<bool>,
    pub score: isize,
}

/// A stretch of the walk taken out to be walked again: from position `i`
/// up to position `j` (the end of the walk where `j` lies beyond it), with
/// the values of the removed cells counted against it.
pub struct Segment {
    pub i: usize,
    pub j: usize,
    pub score: isize,
    pub end: Option<Pos>,
}

/// The cells of the walk at positions `lo..hi` lie on the board.
pub open spec fn on_board(perm: Seq<Pos>) -> bool {
    forall|k: int| 0 <= k < perm.len() ==> 0 <= (#[trigger] perm[k]).x < N && 0 <= perm[k].y < N
}

/// The tiles of the walk at positions `lo..hi` marked `flag`.
pub open spec fn marked(input: &Input, used: Seq<bool>, perm: Seq<Pos>, lo: int, hi: int, flag: bool) -> Seq<bool>
    decreases hi - lo,
{
    if hi <= lo {
        used
    } else {
        let p = perm[hi - 1];
        marked(input, used, perm, lo, hi - 1, flag).update(input.tile@[p.x as int]@[p.y as int] as int, flag)
    }
}

/// The values of the walk at positions `lo..hi`.
pub open spec fn value_sum(input: &Input, perm: Seq<Pos>, lo: int, hi: int) -> int
    decreases hi - lo,
{
    if hi <= lo {
        0
    } else {
        let p = perm[hi - 1];
        value_sum(input, perm, lo, hi - 1) + input.value@[p.x as int]@[p.y as int]
    }
}

pub proof fn lemma_value_sum_bound(input: &Input, perm: Seq<Pos>, lo: int, hi: int)
    requires
        input.wf(),
        on_board(perm),
        0 <= lo,
        hi <= perm.len(),
    ensures
        0 <= value_sum(input, perm, lo, hi) <= (if hi > lo { hi - lo } else { 0 }) * MAX_VALUE,
    decreases hi - lo,
{
    if hi > lo {
        lemma_value_sum_bound(input, perm, lo, hi - 1);
        let p = perm[hi - 1];
        assert(input.value@[p.x as int]@[p.y as int] <= MAX_VALUE);
    }
}

impl State {
    /// No walk yet, no tile entered.
    pub fn new(input: &Input) -> (st: State)
        ensures
            st.perm@.len() == 0,
            st.used_tile@ == Seq::new(input.m as nat, |t: int| false),
            st.score == 0,
    {
        let mut used: Vec<bool> = Vec::new();
        let mut t: usize = 0;
        while t < input.m
            invariant
                t <= input.m,
                used@ == Seq::new(t as nat, |x: int| false),
            decreases input.m - t,
        {
            used.push(false);
            t = t + 1;
            assert(used@ =~= Seq::new(t as nat, |x: int| false));
        }
        State { perm: Vec::new(), used_tile: used, score: 0 }
    }

    /// The walk is on the board, its tiles have flags, and it is short.
    pub open spec fn wf(&self, input: &Input) -> bool {
        &&& input.wf()
        &&& 1 <= self.perm@.len() <= 2500
        &&& on_board(self.perm@)
        &&& self.used_tile@.len() == input.m
    }

    /// Draws a stretch of two to nineteen steps from a drawn position, frees
    /// the tiles of the cells inside it, and counts their values, and the
    /// value of its far end, against it.
    pub fn open_segment(&mut self, input: &Input, mt: &mut rand_pcg::Mcg128Xsl64) -> (seg: Segment)
        requires
            old(self).wf(input),
        ensures
            final(self).wf(input),
            final(self).perm@ == old(self).perm@,
            final(self).score == old(self).score,
            2 <= seg.j - seg.i < 20,
            seg.i < old(self).perm@.len(),
            ({
                let len = old(self).perm@.len() as int;
                let hi = if (seg.j as int) < len { seg.j as int } else { len };
                &&& final(self).used_tile@ == marked(input, old(self).used_tile@, old(self).perm@, seg.i + 1, hi, false)
                &&& seg.end == if (seg.j as int) < len { Some(old(self).perm@[seg.j as int]) } else { None::<Pos> }
                &&& seg.score == -(if (seg.j as int) < len {
                    value_sum(input, old(self).perm@, seg.j as int, seg.j + 1)
                } else {
                    0
                }) - value_sum(input, old(self).perm@, seg.i + 1, hi)
            }),
    {
        let len = gen_index(mt, 2, 20);
        let i = gen_index(mt, 0, self.perm.len());
        let j = i + len;
        let n = self.perm.len();
        let mut score: isize = if j < n {
            proof {
                lemma_value_sum_bound(input, self.perm@, j as int, j + 1);
            }
            0 - input.get_value(self.perm[j])
        } else {
            0
        };
        proof {
            if j < n {
                assert(value_sum(input, self.perm@, j as int, j as int) == 0);
                assert(value_sum(input, self.perm@, j as int, j + 1) == input.value@[self.perm@[j as int].x as int]@[self.perm@[j as int].y as int]);
            }
        }
        let hi = if j < n { j } else { n };
        let ghost used0 = self.used_tile@;
        let ghost s0 = score;
        let mut x = i + 1;
        while x < hi
            invariant
                self.wf(input),
                self.perm@ == old(self).perm@,
                self.score == old(self).score,
                used0 == old(self).used_tile@,
                i + 1 <= x,
                x <= hi || (hi <= i + 1 && x == i + 1),
                hi <= n,
                n == self.perm@.len(),
                self.used_tile@ == marked(input, used0, self.perm@, i + 1, x as int, false),
                score == s0 - value_sum(input, self.perm@, i + 1, x as int),
                -20_000_000 <= s0 <= 0,
                x - (i + 1) < 20,
                hi <= i + 20,
            decreases hi - x,
        {
            proof {
                lemma_value_sum_bound(input, self.perm@, i + 1, x as int);
                assert((x - (i + 1)) * 1_000_000 <= 19_000_000) by (nonlinear_arith)
                    requires
                        x - (i + 1) < 19,
                ;
            }
            let p = self.perm[x];
            score = score - input.get_value(p);
            let t = input.get_tile(p);
            self.used_tile.set(t, false);
            x = x + 1;
        }
        let end = if j < n { Some(self.perm[j]) } else { None };
        Segment { i, j, score, end }
    }

    /// Marks the tiles of the stretch `i + 1..j` entered again, where no
    /// better walk was found for it.
    pub fn close_segment(&mut self, input: &Input, i: usize, j: usize)
        requires
            old(self).wf(input),
            i < j,
        ensures
            final(self).wf(input),
            final(self).perm@ == old(self).perm@,
            final(self).score == old(self).score,
            ({
                let len = old(self).perm@.len() as int;
                let hi = if (j as int) < len { j as int } else { len };
                final(self).used_tile@ == marked(input, old(self).used_tile@, old(self).perm@, i + 1, hi, true)
            }),
    {
        let n = self.perm.len();
        let hi = if j < n { j } else { n };
        let ghost used0 = self.used_tile@;
        let mut x = i + 1;
        while x < hi
            invariant
                self.wf(input),
                self.perm@ == old(self).perm@,
                self.score == old(self).score,
                used0 == old(self).used_tile@,
                i + 1 <= x,
                x <= hi || (hi <= i + 1 && x == i + 1),
                hi <= n,
                n == self.perm@.len(),
                self.used_tile@ == marked(input, used0, self.perm@, i + 1, x as int, true),
            decreases hi - x,
        {
            let p = self.perm[x];
            let t = input.get_tile(p);
            self.used_tile.set(t, true);
            x = x + 1;
        }
    }

    /// Puts the walk `best` in place of positions `i..=j` (to the end where
    /// `j` lies beyond it), with its tiles.
    pub fn splice_segment(&mut self, i: usize, j: usize, best: Vec<Pos>, best_used: Vec<bool>)
        requires
            i < j < usize::MAX,
            i < old(self).perm@.len(),
        ensures
            ({
                let len = old(self).perm@.len() as int;
                let hi = if j + 1 < len { j + 1 } else { len };
                final(self).perm@ == old(self).perm@.subrange(0, i as int) + best@ + old(self).perm@.subrange(hi, len)
            }),
            final(self).used_tile@ == best_used@,
            final(self).score == old(self).score,
    {
        let n = self.perm.len();
        let hi = if j + 1 < n { j + 1 } else { n };
        let mut next: Vec<Pos> = Vec::new();
        let mut k: usize = 0;
        while k < i
            invariant
                i < n,
                n == self.perm@.len(),
                k <= i,
                next@ == self.perm@.subrange(0, k as int),
            decreases i - k,
        {
            next.push(self.perm[k]);
            k = k + 1;
            assert(next@ =~= self.perm@.subrange(0, k as int));
        }
        let mut b: usize = 0;
        let ghost head = next@;
        while b < best.len()
            invariant
                b <= best@.len(),
                next@ == head + best@.subrange(0, b as int),
            decreases best@.len() - b,
        {
            next.push(best[b]);
            b = b + 1;
            assert(next@ =~= head + best@.subrange(0, b as int));
        }
        assert(best@.subrange(0, best@.len() as int) =~= best@);
        let ghost mid = next@;
        let mut k: usize = hi;
        while k < n
            invariant
                hi <= k <= n,
                n == self.perm@.len(),
                next@ == mid + self.perm@.subrange(hi as int, k as int),
            decreases n - k,
        {
            next.push(self.perm[k]);
            k = k + 1;
            assert(next@ =~= mid + self.perm@.subrange(hi as int, k as int));
        }
        self.perm = next;
        self.used_tile = best_used;
    }
}

} // verus!
