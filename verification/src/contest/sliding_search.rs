use vstd::prelude::*;
use crate::beam::ett::BeamState;
use crate::beam::selector::BeamCandidate;
use crate::contest::sliding::{abs_int, around_of, lemma_around_in_board, lemma_cell, pairs_within, swapped, Input, MAX_N};
use crate::random::pcg::{gen_word, new_mt};

verus! {

/// A slide of the empty cell: 0 left, 1 up, 2 right, 3 down.
#[derive(Clone, Copy)]
pub struct AnsAction {
    pub dir: u8,
}

/// A slide with the distance sum and hash of the board it leads to.
#[derive(Clone, Copy)]
pub struct AnsCandidate {
    pub action: AnsAction,
    pub score: i64,
    pub hash: u64,
}

impl BeamCandidate for AnsCandidate {
    type Action = AnsAction;

    open spec fn spec_score(&self) -> i64 {
        self.score
    }

    open spec fn spec_hash(&self) -> u64 {
        self.hash
    }

    open spec fn spec_action(&self) -> AnsAction {
        self.action
    }

    fn into_action(self) -> (a: AnsAction) {
        self.action
    }

    fn score(&self) -> (r: i64) {
        self.score
    }

    fn hash(&self) -> (r: u64) {
        self.hash
    }
}

/// The cell that the empty cell `s` of an `n` by `n` board slides to in
/// direction `dir`.
pub open spec fn slide_to(n: int, s: int, dir: int) -> int {
    if dir == 0 {
        s - 1
    } else if dir == 1 {
        s - n
    } else if dir == 2 {
        s + 1
    } else {
        s + n
    }
}

/// The direction back: left and right, up and down swap.
pub open spec fn opposite(dir: int) -> int {
    if dir < 2 { dir + 2 } else { dir - 2 }
}

/// The number of cells between cells `p` and `v` of an `n` by `n` board,
/// going along rows and columns.
pub open spec fn cell_dist(n: int, p: int, v: int) -> int {
    abs_int(p / n - v / n) + abs_int(p % n - v % n)
}

/// The last position below `k` whose goal tile is `t`, or -1.
pub open spec fn goal_cell(goal: Seq<usize>, t: int, k: int) -> int
    decreases k,
{
    if k <= 0 {
        -1
    } else if goal[k - 1] == t {
        k - 1
    } else {
        goal_cell(goal, t, k - 1)
    }
}

/// How far tile `t` lies from cell `v` when it stands at its goal cell;
/// 0 for a tile that the goal does not place.
pub open spec fn goal_dist(n: int, goal: Seq<usize>, t: int, v: int) -> int {
    let p = goal_cell(goal, t, n * n);
    if p < 0 {
        0
    } else {
        cell_dist(n, p, v)
    }
}

/// The distances to their goal cells of the tiles at cells `0..k`, the
/// empty cell `s` left out.
pub open spec fn placed_sum(dist: Seq<Vec<i64>>, place: Seq<usize>, s: int, k: int) -> int
    decreases k,
{
    if k <= 0 {
        0
    } else {
        placed_sum(dist, place, s, k - 1) + if k - 1 == s {
            0
        } else {
            dist[place[k - 1] as int]@[k - 1] as int
        }
    }
}

/// What a slide changes: the tiles' places, the empty cell, the distance
/// sum and the hash.
pub struct SlideView {
    pub place: Seq<usize>,
    pub s: int,
    pub dist_sum: int,
    pub zob: u64,
}

/// The search state of the sliding puzzle: the tiles on the board, the
/// empty cell, every tile's distance from each cell to its goal cell, and
/// a hash of the board.
#[derive(Clone)]
pub struct AnsState {
    pub n: usize,
    pub place: Vec<usize>,
    pub s: usize,
    pub delta: Vec<Vec<(usize, usize)>>,
    pub dist: Vec<Vec<i64>>,
    pub dist_sum: i64,
    pub place_zob: Vec<Vec<u64>>,
    pub zob: u64,
}

/// The board after sliding the empty cell in direction `dir`: the tile
/// there moves into the empty cell.
pub open spec fn slid(
    v: SlideView,
    n: int,
    dir: int,
    dist: Seq<Vec<i64>>,
    pz: Seq<Vec<u64>>,
) -> SlideView {
    let nx = slide_to(n, v.s, dir);
    let t = v.place[nx] as int;
    SlideView {
        place: swapped(v.place, v.s, nx),
        s: nx,
        dist_sum: v.dist_sum - dist[t]@[nx] + dist[t]@[v.s],
        zob: v.zob ^ pz[t]@[nx] ^ pz[t]@[v.s],
    }
}

impl AnsState {
    pub open spec fn view(&self) -> SlideView {
        SlideView {
            place: self.place@,
            s: self.s as int,
            dist_sum: self.dist_sum as int,
            zob: self.zob,
        }
    }

    /// The board holds `n * n` cells, each tile once; the tables are
    /// `n * n` square with distances of at most `2 * (n - 1)`; the empty
    /// cell is on the board; and the distance sum is that of the tiles on
    /// the board.
    pub open spec fn wf(&self) -> bool {
        let nn = self.n * self.n;
        &&& 2 <= self.n <= MAX_N
        &&& self.place@.len() == nn
        &&& forall|v: int| 0 <= v < nn ==> #[trigger] self.place@[v] < nn
        &&& self.s < nn
        &&& self.dist@.len() == nn
        &&& forall|t: int| 0 <= t < nn ==> (#[trigger] self.dist@[t])@.len() == nn
        &&& forall|t: int, v: int|
            0 <= t < nn && 0 <= v < nn ==> 0 <= #[trigger] self.dist@[t]@[v] <= 2 * (self.n - 1)
        &&& self.place_zob@.len() == nn
        &&& forall|t: int| 0 <= t < nn ==> (#[trigger] self.place_zob@[t])@.len() == nn
        &&& self.dist_sum == placed_sum(self.dist@, self.place@, self.s as int, nn)
    }

    /// Each cell's slides are its neighbours on the board with their
    /// directions.
    pub open spec fn moves_ok(&self) -> bool {
        &&& self.delta@.len() == self.n * self.n
        &&& forall|v: int| 0 <= v < self.n * self.n ==> (#[trigger] self.delta@[v])@ == around_of(
            self.n as int,
            v,
        )
    }

    /// A slide in direction `dir` stays on the board.
    pub open spec fn can_slide(&self, dir: int) -> bool {
        0 <= dir < 4 && 0 <= slide_to(self.n as int, self.s as int, dir) < self.n * self.n
    }
}

/// Moving the empty cell from `s` to `nx` changes the distance sum by the
/// moved tile's distances.
pub proof fn lemma_placed_sum_slide(dist: Seq<Vec<i64>>, place: Seq<usize>, s: int, nx: int, k: int)
    requires
        0 <= s < place.len(),
        0 <= nx < place.len(),
        s != nx,
        0 <= k <= place.len(),
    ensures
        placed_sum(dist, swapped(place, s, nx), nx, k) == placed_sum(dist, place, s, k) - (if nx < k {
            dist[place[nx] as int]@[nx] as int
        } else {
            0
        }) + (if s < k {
            dist[place[nx] as int]@[s] as int
        } else {
            0
        }),
    decreases k,
{
    if k > 0 {
        lemma_placed_sum_slide(dist, place, s, nx, k - 1);
    }
}

/// The distance sum of a board stays within its cells' largest distances.
pub proof fn lemma_placed_sum_bound(dist: Seq<Vec<i64>>, place: Seq<usize>, s: int, k: int, hi: int)
    requires
        0 <= k <= place.len(),
        hi >= 0,
        forall|v: int| 0 <= v < place.len() ==> 0 <= #[trigger] dist[place[v] as int]@[v] <= hi,
    ensures
        0 <= placed_sum(dist, place, s, k) <= k * hi,
    decreases k,
{
    if k > 0 {
        lemma_placed_sum_bound(dist, place, s, k - 1, hi);
        assert((k - 1) * hi + hi == k * hi) by (nonlinear_arith);
    }
}

/// Sliding back right after a slide restores the board.
pub proof fn lemma_slide_back_undoes_slide(
    v: SlideView,
    n: int,
    dir: int,
    dist: Seq<Vec<i64>>,
    pz: Seq<Vec<u64>>,
)
    requires
        0 <= dir < 4,
        0 <= v.s < v.place.len(),
        0 <= slide_to(n, v.s, dir) < v.place.len(),
    ensures
        slid(slid(v, n, dir, dist, pz), n, opposite(dir), dist, pz) == v,
{
    let w = slid(v, n, dir, dist, pz);
    let b = slid(w, n, opposite(dir), dist, pz);
    let nx = slide_to(n, v.s, dir);
    assert(slide_to(n, nx, opposite(dir)) == v.s);
    let t = v.place[nx] as int;
    assert(w.place[v.s] == t);
    let z = v.zob;
    let a = pz[t]@[nx];
    let c = pz[t]@[v.s];
    assert((z ^ a ^ c ^ c ^ a) == z) by (bit_vector);
    assert(b.place =~= v.place);
}

/// The number of cells between two cells of the board, at most
/// `2 * (n - 1)`.
fn cell_dist_of(n: usize, p: usize, v: usize) -> (r: i64)
    requires
        2 <= n <= MAX_N,
        p < n * n,
        v < n * n,
    ensures
        r == cell_dist(n as int, p as int, v as int),
        0 <= r <= 2 * (n - 1),
{
    proof {
        lemma_cell(n as int, p as int);
        lemma_cell(n as int, v as int);
    }
    let (i, j, a, b) = (p / n, p % n, v / n, v % n);
    let di = if i < a { a - i } else { i - a };
    let dj = if j < b { b - j } else { j - b };
    (di + dj) as i64
}

/// The cell the empty cell slides to in direction `dir`.
fn slide_cell(n: usize, s: usize, dir: u8) -> (r: usize)
    requires
        dir < 4,
        0 <= slide_to(n as int, s as int, dir as int) < n * n,
        n * n <= usize::MAX,
    ensures
        r == slide_to(n as int, s as int, dir as int),
{
    if dir == 0 {
        s - 1
    } else if dir == 1 {
        s - n
    } else if dir == 2 {
        s + 1
    } else {
        s + n
    }
}

impl AnsState {
    /// The board of `input` with every tile in its own place and the empty
    /// cell at `input.s`, distances to the goal board `goal` (the tile for
    /// each cell), the slides `delta` of each cell, a hash value for every
    /// tile on every cell drawn from a generator seeded with 768, and hash 0.
    pub fn new(input: &Input, goal: Vec<usize>, delta: Vec<Vec<(usize, usize)>>) -> (st: AnsState)
        requires
            2 <= input.n <= MAX_N,
            input.s < input.n * input.n,
            goal@.len() == input.n * input.n,
            forall|p: int| 0 <= p < goal@.len() ==> #[trigger] goal@[p] < input.n * input.n,
        ensures
            st.wf(),
            st.n == input.n,
            st.place@ == Seq::new((input.n * input.n) as nat, |v: int| v as usize),
            st.s == input.s,
            st.delta@ == delta@,
            forall|t: int, v: int|
                0 <= t < input.n * input.n && 0 <= v < input.n * input.n ==> #[trigger] st.dist@[t]@[v]
                    == goal_dist(input.n as int, goal@, t, v),
            st.zob == 0,
    {
        let n = input.n;
        assert(n * n <= 100) by (nonlinear_arith)
            requires
                n <= 10,
        ;
        let nn = n * n;
        let mut dist: Vec<Vec<i64>> = Vec::new();
        let mut t: usize = 0;
        while t < nn
            invariant
                nn == n * n,
                nn <= 100,
                t <= nn,
                dist@.len() == t,
                forall|x: int| 0 <= x < t ==> (#[trigger] dist@[x])@ == Seq::new(nn as nat, |v: int| 0i64),
            decreases nn - t,
        {
            let mut row: Vec<i64> = Vec::new();
            let mut v: usize = 0;
            while v < nn
                invariant
                    v <= nn,
                    row@ == Seq::new(v as nat, |x: int| 0i64),
                decreases nn - v,
            {
                row.push(0);
                v = v + 1;
                assert(row@ =~= Seq::new(v as nat, |x: int| 0i64));
            }
            dist.push(row);
            t = t + 1;
        }
        let mut p: usize = 0;
        while p < nn
            invariant
                2 <= n <= MAX_N,
                nn == n * n,
                nn <= 100,
                p <= nn,
                goal@.len() == nn,
                forall|q: int| 0 <= q < goal@.len() ==> #[trigger] goal@[q] < nn,
                dist@.len() == nn,
                forall|x: int| 0 <= x < nn ==> (#[trigger] dist@[x])@.len() == nn,
                forall|x: int, v: int|
                    0 <= x < nn && 0 <= v < nn ==> #[trigger] dist@[x]@[v] == if goal_cell(goal@, x, p as int) < 0 {
                        0
                    } else {
                        cell_dist(n as int, goal_cell(goal@, x, p as int), v)
                    },
            decreases nn - p,
        {
            let mut row: Vec<i64> = Vec::new();
            let mut v: usize = 0;
            while v < nn
                invariant
                    2 <= n <= MAX_N,
                    nn == n * n,
                    p < nn,
                    v <= nn,
                    row@.len() == v,
                    forall|x: int| 0 <= x < v ==> #[trigger] row@[x] == cell_dist(n as int, p as int, x),
                decreases nn - v,
            {
                let d = cell_dist_of(n, p, v);
                row.push(d);
                v = v + 1;
            }
            let g = goal[p];
            dist.set(g, row);
            p = p + 1;
        }
        let mut dist_sum: i64 = 0;
        let ghost id = Seq::new(nn as nat, |v: int| v as usize);
        proof {
            assert forall|x: int, v: int| 0 <= x < nn && 0 <= v < nn implies 0 <= #[trigger] dist@[x]@[v]
                <= 2 * (n - 1) by {
                let q = goal_cell(goal@, x, nn as int);
                if q >= 0 {
                    lemma_goal_cell_range(goal@, x, nn as int);
                    lemma_cell(n as int, q);
                    lemma_cell(n as int, v);
                }
            }
        }
        let mut i: usize = 0;
        while i < nn
            invariant
                2 <= n <= MAX_N,
                nn == n * n,
                nn <= 100,
                i <= nn,
                id == Seq::new(nn as nat, |v: int| v as usize),
                dist@.len() == nn,
                forall|x: int| 0 <= x < nn ==> (#[trigger] dist@[x])@.len() == nn,
                forall|x: int, v: int| 0 <= x < nn && 0 <= v < nn ==> 0 <= #[trigger] dist@[x]@[v] <= 2 * (n - 1),
                dist_sum == placed_sum(dist@, id, input.s as int, i as int),
                0 <= dist_sum <= 18 * i,
            decreases nn - i,
        {
            if input.s != i {
                dist_sum = dist_sum + dist[i][i];
            }
            i = i + 1;
        }
        let mut mt = new_mt(768);
        let mut place_zob: Vec<Vec<u64>> = Vec::new();
        let mut t: usize = 0;
        while t < nn
            invariant
                nn == n * n,
                t <= nn,
                place_zob@.len() == t,
                forall|x: int| 0 <= x < t ==> (#[trigger] place_zob@[x])@.len() == nn,
            decreases nn - t,
        {
            let mut row: Vec<u64> = Vec::new();
            let mut v: usize = 0;
            while v < nn
                invariant
                    v <= nn,
                    row@.len() == v,
                decreases nn - v,
            {
                row.push(gen_word(&mut mt));
                v = v + 1;
            }
            place_zob.push(row);
            t = t + 1;
        }
        let mut place: Vec<usize> = Vec::new();
        let mut v: usize = 0;
        while v < nn
            invariant
                nn == n * n,
                v <= nn,
                place@ == Seq::new(v as nat, |x: int| x as usize),
            decreases nn - v,
        {
            place.push(v);
            v = v + 1;
            assert(place@ =~= Seq::new(v as nat, |x: int| x as usize));
        }
        assert(place@ =~= id);
        AnsState { n, place, s: input.s, delta, dist, dist_sum, place_zob, zob: 0 }
    }

    /// Slides the empty cell in direction `act.dir`.
    pub fn forward(&mut self, act: &AnsAction)
        requires
            old(self).wf(),
            old(self).can_slide(act.dir as int),
        ensures
            final(self).wf(),
            final(self)@ == slid(old(self)@, old(self).n as int, act.dir as int, old(self).dist@, old(self).place_zob@),
            final(self).n == old(self).n,
            final(self).delta == old(self).delta,
            final(self).dist == old(self).dist,
            final(self).place_zob == old(self).place_zob,
    {
        self.slide(act.dir);
    }

    /// Takes back the slide `act`: slides the empty cell the opposite way.
    pub fn backward(&mut self, act: &AnsAction)
        requires
            old(self).wf(),
            act.dir < 4,
            old(self).can_slide(opposite(act.dir as int)),
        ensures
            final(self).wf(),
            final(self)@ == slid(old(self)@, old(self).n as int, opposite(act.dir as int), old(self).dist@, old(self).place_zob@),
            final(self).n == old(self).n,
            final(self).delta == old(self).delta,
            final(self).dist == old(self).dist,
            final(self).place_zob == old(self).place_zob,
    {
        let back = if act.dir < 2 { act.dir + 2 } else { act.dir - 2 };
        self.slide(back);
    }

    fn slide(&mut self, dir: u8)
        requires
            old(self).wf(),
            old(self).can_slide(dir as int),
        ensures
            final(self).wf(),
            final(self)@ == slid(old(self)@, old(self).n as int, dir as int, old(self).dist@, old(self).place_zob@),
            final(self).n == old(self).n,
            final(self).delta == old(self).delta,
            final(self).dist == old(self).dist,
            final(self).place_zob == old(self).place_zob,
    {
        let ghost v0 = self@;
        let n = self.n;
        assert(n * n <= 100) by (nonlinear_arith)
            requires
                n <= 10,
        ;
        let nn = n * n;
        let s = self.s;
        let nx = slide_cell(n, s, dir);
        let t = self.place[nx];
        proof {
            lemma_placed_sum_slide(self.dist@, self.place@, s as int, nx as int, nn as int);
            lemma_placed_sum_bound(self.dist@, self.place@, s as int, nn as int, 2 * (n - 1));
            assert(nn * (2 * (n - 1)) <= 1800) by (nonlinear_arith)
                requires
                    nn <= 100,
                    n <= 10,
            ;
        }
        self.zob = self.zob ^ self.place_zob[t][nx] ^ self.place_zob[t][s];
        self.dist_sum = self.dist_sum - self.dist[t][nx] + self.dist[t][s];
        let ts = self.place[s];
        self.place.set(s, t);
        self.place.set(nx, ts);
        self.s = nx;
        assert(self.place@ =~= swapped(v0.place, s as int, nx as int));
        proof {
            lemma_placed_sum_bound(self.dist@, self.place@, nx as int, nn as int, 2 * (n - 1));
        }
    }

    /// The slides from the empty cell, one candidate for each pair of its
    /// entry in `delta`, with the distance sum and hash of the board that
    /// the slide leads to.
    pub fn next_candidates(&self) -> (r: Vec<AnsCandidate>)
        requires
            self.wf(),
            self.moves_ok(),
        ensures
            r@.len() == self.delta@[self.s as int]@.len(),
            forall|k: int| 0 <= k < r@.len() ==> {
                let (nx, d) = #[trigger] self.delta@[self.s as int]@[k];
                let w = slid(self@, self.n as int, d as int, self.dist@, self.place_zob@);
                &&& r@[k].action.dir == d as u8
                &&& self.can_slide(d as int)
                &&& nx == w.s
                &&& r@[k].score == w.dist_sum
                &&& r@[k].hash == w.zob
            },
    {
        let n = self.n;
        assert(n * n <= 100) by (nonlinear_arith)
            requires
                n <= 10,
        ;
        let nn = n * n;
        let s = self.s;
        proof {
            lemma_around_in_board(n as int, s as int);
            lemma_cell(n as int, s as int);
            lemma_placed_sum_bound(self.dist@, self.place@, s as int, nn as int, 2 * (n - 1));
            assert(nn * (2 * (n - 1)) <= 1800) by (nonlinear_arith)
                requires
                    nn <= 100,
                    n <= 10,
            ;
        }
        let ghost ds = self.delta@[s as int]@;
        let mut r: Vec<AnsCandidate> = Vec::new();
        let mut k: usize = 0;
        while k < self.delta[s].len()
            invariant
                self.wf(),
                self.moves_ok(),
                n == self.n,
                nn == n * n,
                nn <= 100,
                s == self.s,
                ds == self.delta@[s as int]@,
                ds == around_of(n as int, s as int),
                pairs_within(ds, nn as int),
                0 <= self.dist_sum <= 1800,
                k <= ds.len(),
                r@.len() == k,
                forall|x: int| 0 <= x < k ==> {
                    let (nx, d) = #[trigger] ds[x];
                    let w = slid(self@, n as int, d as int, self.dist@, self.place_zob@);
                    &&& r@[x].action.dir == d as u8
                    &&& self.can_slide(d as int)
                    &&& nx == w.s
                    &&& r@[x].score == w.dist_sum
                    &&& r@[x].hash == w.zob
                },
            decreases ds.len() - k,
        {
            let (nx, d) = self.delta[s][k];
            proof {
                lemma_around_slides(n as int, s as int, k as int);
            }
            let t = self.place[nx];
            let cand = AnsCandidate {
                action: AnsAction { dir: d as u8 },
                score: self.dist_sum - self.dist[t][nx] + self.dist[t][s],
                hash: self.zob ^ self.place_zob[t][nx] ^ self.place_zob[t][s],
            };
            r.push(cand);
            k = k + 1;
        }
        r
    }
}

/// The last position below `k` that holds tile `t` lies below `k`.
pub proof fn lemma_goal_cell_range(goal: Seq<usize>, t: int, k: int)
    ensures
        -1 <= goal_cell(goal, t, k) < if k > 0 { k } else { 0 },
    decreases k,
{
    if k > 0 {
        lemma_goal_cell_range(goal, t, k - 1);
    }
}

/// Each neighbour that `around_of` lists lies in its direction.
pub proof fn lemma_around_slides(n: int, s: int, k: int)
    requires
        2 <= n <= MAX_N,
        0 <= s < n * n,
        0 <= k < around_of(n, s).len(),
    ensures
        around_of(n, s)[k].1 < 4,
        slide_to(n, s, around_of(n, s)[k].1 as int) == around_of(n, s)[k].0,
        0 <= around_of(n, s)[k].0 < n * n,
{
    lemma_around_in_board(n, s);
    lemma_cell(n, s);
    let i = s / n;
    let j = s % n;
    let a: Seq<(usize, usize)> = if j > 0 { seq![((s - 1) as usize, 0usize)] } else { Seq::empty() };
    let b: Seq<(usize, usize)> = if j + 1 < n { seq![((s + 1) as usize, 2usize)] } else { Seq::empty() };
    let c: Seq<(usize, usize)> = if i > 0 { seq![((s - n) as usize, 1usize)] } else { Seq::empty() };
    let d: Seq<(usize, usize)> = if i + 1 < n { seq![((s + n) as usize, 3usize)] } else { Seq::empty() };
    let ab = a + b;
    let abc = ab + c;
    let all = abc + d;
    assert(around_of(n, s) == all);
    assert(j > 0 ==> s >= 1);
    assert(0 <= s < 100) by (nonlinear_arith)
        requires
            0 <= s < n * n,
            2 <= n <= 10,
    ;
    assert(j > 0 ==> (s - 1) as usize == s - 1);
    if k < abc.len() {
        assert(all[k] == abc[k]);
        if k < ab.len() {
            assert(abc[k] == ab[k]);
            if k < a.len() {
                assert(ab[k] == a[k]);
            } else {
                assert(ab[k] == b[k - a.len()]);
            }
        } else {
            assert(abc[k] == c[k - ab.len()]);
        }
    } else {
        assert(all[k] == d[k - abc.len()]);
    }
}

/// What the search reads of a sliding board: its side, the board, the
/// distance and hash tables, the slides of each cell, and for each slide
/// made through the search whether it stayed on the board.
pub type SlideModel = (int, SlideView, Seq<Vec<i64>>, Seq<Vec<u64>>, Seq<Seq<(usize, usize)>>, Seq<bool>);

/// The empty cell of the board in `m` can slide in direction `dir`.
pub open spec fn can_go(m: SlideModel, dir: int) -> bool {
    &&& 0 <= dir < 4
    &&& m.1.place.len() == m.0 * m.0
    &&& 0 <= m.1.s < m.0 * m.0
    &&& 0 <= slide_to(m.0, m.1.s, dir) < m.0 * m.0
}

/// The sliding board as a search state.
pub struct SlideSearch {
    pub st: AnsState,
    pub slid_ok: Vec<bool>,
}

impl SlideSearch {
    /// A search from `st`, with no slide made through it yet.
    pub fn new(st: AnsState) -> (r: Self)
        ensures
            r.st == st,
            r.slid_ok@ == Seq::<bool>::empty(),
    {
        SlideSearch { st, slid_ok: Vec::new() }
    }
}

impl AnsState {
    /// Whether the empty cell can slide in direction `dir`.
    pub fn can_slide_now(&self, dir: u8) -> (r: bool)
        requires
            self.wf(),
        ensures
            r == (dir < 4 && self.can_slide(dir as int)),
    {
        let n = self.n;
        assert(n * n <= 100) by (nonlinear_arith)
            requires
                n <= 10,
        ;
        let nn = n * n;
        let s = self.s;
        if dir == 0 {
            s >= 1
        } else if dir == 1 {
            s >= n
        } else if dir == 2 {
            s + 1 < nn
        } else if dir == 3 {
            s + n < nn
        } else {
            false
        }
    }
}

impl BeamState for SlideSearch {
    type Action = AnsAction;
    type Candidate = AnsCandidate;
    type Model = SlideModel;

    open spec fn model(&self) -> SlideModel {
        (
            self.st.n as int,
            self.st@,
            self.st.dist@,
            self.st.place_zob@,
            self.st.delta@.map_values(|v: Vec<(usize, usize)>| v@),
            self.slid_ok@,
        )
    }

    open spec fn ready(&self) -> bool {
        self.st.wf() && self.st.moves_ok()
    }

    /// A slide that stays on the board is made and recorded as made; any
    /// other is recorded as skipped.
    open spec fn model_forward(m: SlideModel, act: AnsAction) -> SlideModel {
        if can_go(m, act.dir as int) {
            (m.0, slid(m.1, m.0, act.dir as int, m.2, m.3), m.2, m.3, m.4, m.5.push(true))
        } else {
            (m.0, m.1, m.2, m.3, m.4, m.5.push(false))
        }
    }

    /// The last slide recorded is taken back where it was made and the
    /// way back stays on the board; the record shrinks.
    open spec fn model_backward(m: SlideModel, act: AnsAction) -> SlideModel {
        if m.5.len() == 0 {
            m
        } else if m.5.last() && act.dir < 4 && can_go(m, opposite(act.dir as int)) {
            (m.0, slid(m.1, m.0, opposite(act.dir as int), m.2, m.3), m.2, m.3, m.4, m.5.drop_last())
        } else {
            (m.0, m.1, m.2, m.3, m.4, m.5.drop_last())
        }
    }

    /// One candidate per slide listed for the empty cell, in order, with
    /// the distance sum and hash of the board it leads to.
    open spec fn cands_of(m: SlideModel, cands: Vec<AnsCandidate>) -> bool {
        let ds = m.4[m.1.s];
        &&& cands@.len() == ds.len()
        &&& forall|k: int|
            0 <= k < ds.len() ==> {
                let (nx, d) = #[trigger] ds[k];
                let w = slid(m.1, m.0, d as int, m.2, m.3);
                &&& cands@[k].action.dir == d as u8
                &&& cands@[k].score == w.dist_sum
                &&& cands@[k].hash == w.zob
            }
    }

    proof fn lemma_backward_undoes(m: SlideModel, act: AnsAction) {
        let dir = act.dir as int;
        if can_go(m, dir) {
            let nx = slide_to(m.0, m.1.s, dir);
            assert(slide_to(m.0, nx, opposite(dir)) == m.1.s);
            lemma_slide_back_undoes_slide(m.1, m.0, dir, m.2, m.3);
            assert(m.5.push(true).drop_last() =~= m.5);
        } else {
            assert(m.5.push(false).drop_last() =~= m.5);
        }
    }

    fn forward(&mut self, act: &AnsAction) {
        if self.st.can_slide_now(act.dir) {
            self.st.forward(act);
            self.slid_ok.push(true);
        } else {
            self.slid_ok.push(false);
        }
    }

    fn backward(&mut self, act: &AnsAction) {
        match self.slid_ok.pop() {
            Some(p) => {
                if p && act.dir < 4 {
                    let back = if act.dir < 2 { act.dir + 2 } else { act.dir - 2 };
                    if self.st.can_slide_now(back) {
                        self.st.backward(act);
                    }
                }
            },
            None => {},
        }
    }

    fn next_candidates(&self) -> (r: Vec<AnsCandidate>) {
        self.st.next_candidates()
    }
}

} // verus!
