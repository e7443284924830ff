use vstd::prelude::*;
use crate::random::pcg::gen_ratio;
use crate::util::clock::elapsed_micros;

verus! {

/// The side of the board, which wraps around in both directions.
pub const N: usize = 20;

/// An empty cell.
pub const EMPTY: usize = usize::MAX;

/// Marks that no pair was found.
pub const NONE_IDX: usize = usize::MAX;

/// The longest string taken, so that every count fits in an `i64`.
pub const MAX_LEN: usize = 1_000_000;

/// The board's cell `k` steps from `(x, y)`, down the column when `vertical`
/// and along the row otherwise.
pub open spec fn cell_at(b: Seq<Seq<usize>>, x: int, y: int, k: int, vertical: bool) -> usize {
    if vertical {
        b[(x + k) % (N as int)][y]
    } else {
        b[x][(y + k) % (N as int)]
    }
}

/// How well the first `k` letters of `s` fit at `(x, y)`: one for each cell
/// that already holds the letter, and back to `i64::MIN` at each cell that
/// holds another letter.
pub open spec fn fit_count(b: Seq<Seq<usize>>, s: Seq<usize>, x: int, y: int, vertical: bool, k: int) -> int
    decreases k,
{
    if k <= 0 {
        0
    } else {
        let c = fit_count(b, s, x, y, vertical, k - 1);
        let v = cell_at(b, x, y, k - 1, vertical);
        if v == s[k - 1] {
            c + 1
        } else if v != EMPTY {
            i64::MIN as int
        } else {
            c
        }
    }
}

/// How well `s` fits at `(x, y)`: non-negative where no cell holds another
/// letter.
pub open spec fn fit(b: Seq<Seq<usize>>, s: Seq<usize>, x: int, y: int, vertical: bool) -> int {
    fit_count(b, s, x, y, vertical, s.len() as int)
}

/// The board with the first `k` letters of `s` written from `(x, y)`.
pub open spec fn written(b: Seq<Seq<usize>>, s: Seq<usize>, x: int, y: int, vertical: bool, k: int) -> Seq<Seq<usize>>
    decreases k,
{
    if k <= 0 {
        b
    } else {
        let p = written(b, s, x, y, vertical, k - 1);
        if vertical {
            let r = (x + k - 1) % (N as int);
            p.update(r, p[r].update(y, s[k - 1]))
        } else {
            let c = (y + k - 1) % (N as int);
            p.update(x, p[x].update(c, s[k - 1]))
        }
    }
}

/// An `N` by `N` board.
pub open spec fn square(b: Seq<Seq<usize>>) -> bool {
    b.len() == N && forall|r: int| 0 <= r < N ==> #[trigger] b[r].len() == N
}

/// `(c, x, y)` is the greatest `(fit, x, y)` in the lexicographic order.
pub open spec fn is_best(b: Seq<Seq<usize>>, s: Seq<usize>, vertical: bool, c: int, x: int, y: int) -> bool {
    &&& 0 <= x < N
    &&& 0 <= y < N
    &&& c == fit(b, s, x, y, vertical)
    &&& forall|x2: int, y2: int|
        0 <= x2 < N && 0 <= y2 < N ==> #[trigger] fit(b, s, x2, y2, vertical) < c || (fit(
            b,
            s,
            x2,
            y2,
            vertical,
        ) == c && (x2 < x || (x2 == x && y2 <= y)))
}

/// `s` fits somewhere in the given direction.
pub open spec fn fits_somewhere(b: Seq<Seq<usize>>, s: Seq<usize>, vertical: bool) -> bool {
    exists|x: int, y: int| 0 <= x < N && 0 <= y < N && #[trigger] fit(b, s, x, y, vertical) >= 0
}

/// The step of `greedy_step` with `(x1, y1)` and `(x2, y2)` the best places
/// along the rows and down the columns.
pub open spec fn step_with(
    b: Seq<Seq<usize>>,
    s: Seq<usize>,
    b2: Seq<Seq<usize>>,
    x1: int,
    y1: int,
    x2: int,
    y2: int,
) -> bool {
    let h = fits_somewhere(b, s, false);
    let v = fits_somewhere(b, s, true);
    &&& (h ==> is_best(b, s, false, fit(b, s, x1, y1, false), x1, y1))
    &&& (v ==> is_best(b, s, true, fit(b, s, x2, y2, true), x2, y2))
    &&& {
        ||| (h && (!v || fit(b, s, x1, y1, false) >= fit(b, s, x2, y2, true)) && b2 == written(
            b,
            s,
            x1,
            y1,
            false,
            s.len() as int,
        ))
        ||| (v && (!h || fit(b, s, x2, y2, true) >= fit(b, s, x1, y1, false)) && b2 == written(
            b,
            s,
            x2,
            y2,
            true,
            s.len() as int,
        ))
    }
}

/// One step of the greedy placement: where `s` fits nowhere the board stays;
/// else `s` is written at the best place of the direction that fits better,
/// where both fit equally well at either one.
pub open spec fn greedy_step(b: Seq<Seq<usize>>, s: Seq<usize>, b2: Seq<Seq<usize>>) -> bool {
    if !fits_somewhere(b, s, false) && !fits_somewhere(b, s, true) {
        b2 == b
    } else {
        exists|x1: int, y1: int, x2: int, y2: int| #[trigger] step_with(b, s, b2, x1, y1, x2, y2)
    }
}

/// The empty board.
pub open spec fn empty_board() -> Seq<Seq<usize>> {
    Seq::new(N as nat, |r: int| Seq::new(N as nat, |c: int| EMPTY))
}

pub proof fn lemma_fit_range(b: Seq<Seq<usize>>, s: Seq<usize>, x: int, y: int, vertical: bool, k: int)
    requires
        0 <= k <= MAX_LEN,
    ensures
        fit_count(b, s, x, y, vertical, k) >= 0 ==> fit_count(b, s, x, y, vertical, k) <= k,
        fit_count(b, s, x, y, vertical, k) < 0 ==> fit_count(b, s, x, y, vertical, k) <= i64::MIN + k,
        fit_count(b, s, x, y, vertical, k) >= i64::MIN,
    decreases k,
{
    if k > 0 {
        lemma_fit_range(b, s, x, y, vertical, k - 1);
    }
}

/// How well `s` fits at `(x, y)`, computed cell by cell.
fn fit_of(b: &Vec<Vec<usize>>, s: &Vec<usize>, x: usize, y: usize, vertical: bool) -> (r: i64)
    requires
        square(b@.map_values(|r: Vec<usize>| r@)),
        x < N,
        y < N,
        s@.len() <= MAX_LEN,
    ensures
        r == fit(b@.map_values(|r: Vec<usize>| r@), s@, x as int, y as int, vertical),
{
    let ghost bb = b@.map_values(|r: Vec<usize>| r@);
    let mut c: i64 = 0;
    let mut k: usize = 0;
    while k < s.len()
        invariant
            bb == b@.map_values(|r: Vec<usize>| r@),
            square(bb),
            x < N,
            y < N,
            s@.len() <= MAX_LEN,
            k <= s@.len(),
            c == fit_count(bb, s@, x as int, y as int, vertical, k as int),
        decreases s@.len() - k,
    {
        proof {
            lemma_fit_range(bb, s@, x as int, y as int, vertical, k as int);
        }
        let r = if vertical { (x + k) % N } else { x };
        let col = if vertical { y } else { (y + k) % N };
        assert(bb[r as int] == b@[r as int]@);
        let v = b[r][col];
        assert(v == cell_at(bb, x as int, y as int, k as int, vertical));
        if v == s[k] {
            c = c + 1;
        } else if v != EMPTY {
            c = i64::MIN;
        }
        k = k + 1;
    }
    c
}

fn lex_less(a: (i64, usize, usize), b: (i64, usize, usize)) -> (r: bool)
    ensures
        r == (a.0 < b.0 || (a.0 == b.0 && (a.1 < b.1 || (a.1 == b.1 && a.2 < b.2)))),
{
    a.0 < b.0 || (a.0 == b.0 && (a.1 < b.1 || (a.1 == b.1 && a.2 < b.2)))
}

/// The greatest `(fit, x, y)` in the given direction, or
/// `(i64::MIN / 2, EMPTY, EMPTY)` where nothing beats that.
fn best_place(b: &Vec<Vec<usize>>, s: &Vec<usize>, vertical: bool) -> (r: (i64, usize, usize))
    requires
        square(b@.map_values(|r: Vec<usize>| r@)),
        s@.len() <= MAX_LEN,
    ensures
        ({
            let bb = b@.map_values(|r: Vec<usize>| r@);
            &&& r.0 >= 0 <==> fits_somewhere(bb, s@, vertical)
            &&& r.0 >= 0 ==> is_best(bb, s@, vertical, r.0 as int, r.1 as int, r.2 as int)
        }),
{
    let ghost bb = b@.map_values(|r: Vec<usize>| r@);
    let mut best: (i64, usize, usize) = (i64::MIN / 2, EMPTY, EMPTY);
    let mut x: usize = 0;
    while x < N
        invariant
            bb == b@.map_values(|r: Vec<usize>| r@),
            square(bb),
            s@.len() <= MAX_LEN,
            x <= N,
            best.0 >= 0 ==> 0 <= best.1 < x && best.2 < N && best.0 == fit(bb, s@, best.1 as int, best.2 as int, vertical),
            best.0 < 0 ==> best.0 == i64::MIN / 2,
            forall|x2: int, y2: int|
                0 <= x2 < x && 0 <= y2 < N ==> #[trigger] fit(bb, s@, x2, y2, vertical) < best.0 || (
                fit(bb, s@, x2, y2, vertical) == best.0 && (x2 < best.1 || (x2 == best.1 && y2
                    <= best.2))),
        decreases N - x,
    {
        let mut y: usize = 0;
        while y < N
            invariant
                bb == b@.map_values(|r: Vec<usize>| r@),
                square(bb),
                s@.len() <= MAX_LEN,
                x < N,
                y <= N,
                best.0 >= 0 ==> 0 <= best.1 <= x && best.2 < N && (best.1 == x ==> best.2 < y)
                    && best.0 == fit(bb, s@, best.1 as int, best.2 as int, vertical),
                best.0 < 0 ==> best.0 == i64::MIN / 2,
                forall|x2: int, y2: int|
                    ((0 <= x2 < x && 0 <= y2 < N) || (x2 == x && 0 <= y2 < y)) ==> #[trigger] fit(
                        bb,
                        s@,
                        x2,
                        y2,
                        vertical,
                    ) < best.0 || (fit(bb, s@, x2, y2, vertical) == best.0 && (x2 < best.1 || (x2
                        == best.1 && y2 <= best.2))),
            decreases N - y,
        {
            let c = fit_of(b, s, x, y, vertical);
            proof {
                lemma_fit_range(bb, s@, x as int, y as int, vertical, s@.len() as int);
            }
            if lex_less(best, (c, x, y)) {
                best = (c, x, y);
            }
            y = y + 1;
        }
        x = x + 1;
    }
    proof {
        let bb = b@.map_values(|r: Vec<usize>| r@);
        if best.0 < 0 {
            assert forall|x2: int, y2: int| 0 <= x2 < N && 0 <= y2 < N implies #[trigger] fit(
                bb,
                s@,
                x2,
                y2,
                vertical,
            ) < 0 by {
            }
        } else {
            assert(fit(bb, s@, best.1 as int, best.2 as int, vertical) >= 0);
        }
    }
    best
}

/// Writes `s` from `(x, y)` in the given direction.
fn write_at(b: &mut Vec<Vec<usize>>, s: &Vec<usize>, x: usize, y: usize, vertical: bool)
    requires
        square(old(b)@.map_values(|r: Vec<usize>| r@)),
        x < N,
        y < N,
        s@.len() <= MAX_LEN,
    ensures
        final(b)@.map_values(|r: Vec<usize>| r@) == written(
            old(b)@.map_values(|r: Vec<usize>| r@),
            s@,
            x as int,
            y as int,
            vertical,
            s@.len() as int,
        ),
{
    let ghost b0 = b@.map_values(|r: Vec<usize>| r@);
    let mut k: usize = 0;
    while k < s.len()
        invariant
            square(b0),
            x < N,
            y < N,
            s@.len() <= MAX_LEN,
            k <= s@.len(),
            b@.map_values(|r: Vec<usize>| r@) == written(b0, s@, x as int, y as int, vertical, k as int),
        decreases s@.len() - k,
    {
        let ghost before = b@.map_values(|r: Vec<usize>| r@);
        proof {
            lemma_written_square(b0, s@, x as int, y as int, vertical, k as int);
        }
        let r = if vertical { (x + k) % N } else { x };
        let c = if vertical { y } else { (y + k) % N };
        assert(before[r as int] == b@[r as int]@);
        b[r].set(c, s[k]);
        k = k + 1;
        assert(b@.map_values(|r: Vec<usize>| r@) =~= written(b0, s@, x as int, y as int, vertical, k as int));
    }
}

pub proof fn lemma_written_square(b: Seq<Seq<usize>>, s: Seq<usize>, x: int, y: int, vertical: bool, k: int)
    requires
        square(b),
        0 <= x < N,
        0 <= y < N,
        k <= s.len(),
    ensures
        square(written(b, s, x, y, vertical, k)),
    decreases k,
{
    if k > 0 {
        lemma_written_square(b, s, x, y, vertical, k - 1);
    }
}

/// The boards of a greedy placement of the strings `ss` in order, from the
/// empty board on.
pub open spec fn greedy_trace(ss: Seq<Seq<usize>>, boards: Seq<Seq<Seq<usize>>>) -> bool {
    &&& boards.len() == ss.len() + 1
    &&& boards[0] == empty_board()
    &&& forall|i: int| 0 <= i < ss.len() ==> #[trigger] greedy_step(boards[i], ss[i], boards[i + 1])
}

/// Places the strings `ss` one after the other on an empty board, each at
/// the place where it fits best (`greedy_step`), choosing by a fair coin
/// where both directions fit equally well. The weights and the number of
/// strings are not read.
pub fn greedy(ss: &Vec<Vec<usize>>, w: &Vec<usize>, m: usize, mt: &mut rand_pcg::Mcg128Xsl64) -> (board: Vec<Vec<usize>>)
    requires
        forall|i: int| 0 <= i < ss@.len() ==> (#[trigger] ss@[i])@.len() <= MAX_LEN,
    ensures
        square(board@.map_values(|r: Vec<usize>| r@)),
        exists|boards: Seq<Seq<Seq<usize>>>|
            greedy_trace(ss@.map_values(|s: Vec<usize>| s@), boards) && boards.last() == board@.map_values(
                |r: Vec<usize>| r@,
            ),
{
    let ghost sv = ss@.map_values(|s: Vec<usize>| s@);
    let mut board: Vec<Vec<usize>> = Vec::new();
    let mut r: usize = 0;
    while r < N
        invariant
            r <= N,
            board@.len() == r,
            forall|a: int| 0 <= a < r ==> (#[trigger] board@[a])@ == Seq::new(N as nat, |c: int| EMPTY),
        decreases N - r,
    {
        let mut row: Vec<usize> = Vec::new();
        let mut c: usize = 0;
        while c < N
            invariant
                c <= N,
                row@ == Seq::new(c as nat, |k: int| EMPTY),
            decreases N - c,
        {
            row.push(EMPTY);
            c = c + 1;
            assert(row@ =~= Seq::new(c as nat, |k: int| EMPTY));
        }
        board.push(row);
        r = r + 1;
    }
    assert(board@.map_values(|r: Vec<usize>| r@) =~= empty_board());
    let ghost mut boards: Seq<Seq<Seq<usize>>> = seq![empty_board()];
    let mut i: usize = 0;
    while i < ss.len()
        invariant
            sv == ss@.map_values(|s: Vec<usize>| s@),
            forall|k: int| 0 <= k < ss@.len() ==> (#[trigger] ss@[k])@.len() <= MAX_LEN,
            i <= ss@.len(),
            square(board@.map_values(|r: Vec<usize>| r@)),
            boards.len() == i + 1,
            boards[0] == empty_board(),
            forall|k: int| 0 <= k < i ==> #[trigger] greedy_step(boards[k], sv[k], boards[k + 1]),
            boards.last() == board@.map_values(|r: Vec<usize>| r@),
        decreases ss@.len() - i,
    {
        let ghost b = board@.map_values(|r: Vec<usize>| r@);
        let s = &ss[i];
        assert(s@.len() <= MAX_LEN);
        let hs = best_place(&board, s, false);
        let vs = best_place(&board, s, true);
        proof {
            assert(sv[i as int] == s@);
        }
        let ghost x1 = if hs.0 >= 0 { hs.1 as int } else { 0 };
        let ghost y1 = if hs.0 >= 0 { hs.2 as int } else { 0 };
        let ghost x2 = if vs.0 >= 0 { vs.1 as int } else { 0 };
        let ghost y2 = if vs.0 >= 0 { vs.2 as int } else { 0 };
        if !(hs.0 < 0 && vs.0 < 0) {
            if vs.0 < 0 || hs.0 > vs.0 || (hs.0 == vs.0 && gen_ratio(mt, 1, 2)) {
                write_at(&mut board, s, hs.1, hs.2, false);
                proof {
                    lemma_written_square(b, s@, hs.1 as int, hs.2 as int, false, s@.len() as int);
                    let b2 = board@.map_values(|r: Vec<usize>| r@);
                    assert(b2 == written(b, s@, x1, y1, false, s@.len() as int));
                    assert(step_with(b, s@, b2, x1, y1, x2, y2));
                }
            } else {
                write_at(&mut board, s, vs.1, vs.2, true);
                proof {
                    lemma_written_square(b, s@, vs.1 as int, vs.2 as int, true, s@.len() as int);
                    let b2 = board@.map_values(|r: Vec<usize>| r@);
                    assert(b2 == written(b, s@, x2, y2, true, s@.len() as int));
                    assert(step_with(b, s@, b2, x1, y1, x2, y2));
                }
            }
        }
        proof {
            let b2 = board@.map_values(|r: Vec<usize>| r@);
            boards = boards.push(b2);
        }
        i = i + 1;
    }
    board
}

/// The strings to place, longest first, and how many of them there are.
pub struct Input {
    pub m: usize,
    pub s: Vec<Vec<usize>>,
}

/// `s` reads off the board from `(x, y)` in the given direction.
pub open spec fn reads_at(b: Seq<Seq<usize>>, s: Seq<usize>, x: int, y: int, vertical: bool) -> bool {
    forall|k: int| 0 <= k < s.len() ==> #[trigger] cell_at(b, x, y, k, vertical) == s[k]
}

/// `s` reads off the board somewhere, in either direction.
pub open spec fn on_board(b: Seq<Seq<usize>>, s: Seq<usize>) -> bool {
    exists|x: int, y: int|
        0 <= x < N && 0 <= y < N && (#[trigger] reads_at(b, s, x, y, false) || reads_at(
            b,
            s,
            x,
            y,
            true,
        ))
}

/// How many of the first `i` strings read off the board.
pub open spec fn on_board_count(b: Seq<Seq<usize>>, ss: Seq<Seq<usize>>, i: int) -> int
    decreases i,
{
    if i <= 0 {
        0
    } else {
        on_board_count(b, ss, i - 1) + if on_board(b, ss[i - 1]) { 1int } else { 0int }
    }
}

/// How many empty cells the first `r` rows hold, and then the first `c`
/// cells of row `r`.
pub open spec fn empty_count(b: Seq<Seq<usize>>, r: int, c: int) -> int
    decreases r, c,
{
    if c > 0 {
        empty_count(b, r, c - 1) + if b[r][c - 1] == EMPTY { 1int } else { 0int }
    } else if r > 0 {
        empty_count(b, r - 1, N as int)
    } else {
        0
    }
}

pub proof fn lemma_empty_count_bound(b: Seq<Seq<usize>>, r: int, c: int)
    requires
        0 <= r <= N,
        0 <= c <= N,
    ensures
        0 <= empty_count(b, r, c) <= r * N + c,
    decreases r, c,
{
    if c > 0 {
        lemma_empty_count_bound(b, r, c - 1);
    } else if r > 0 {
        lemma_empty_count_bound(b, r - 1, N as int);
    }
}

/// Whether `s` reads off the board from `(x, y)` in the given direction.
fn reads_at_exec(b: &Vec<Vec<usize>>, s: &Vec<usize>, x: usize, y: usize, vertical: bool) -> (r: bool)
    requires
        square(b@.map_values(|r: Vec<usize>| r@)),
        x < N,
        y < N,
        s@.len() <= MAX_LEN,
    ensures
        r == reads_at(b@.map_values(|r: Vec<usize>| r@), s@, x as int, y as int, vertical),
{
    let ghost bb = b@.map_values(|r: Vec<usize>| r@);
    let mut ok = true;
    let mut k: usize = 0;
    while k < s.len()
        invariant
            bb == b@.map_values(|r: Vec<usize>| r@),
            square(bb),
            x < N,
            y < N,
            s@.len() <= MAX_LEN,
            k <= s@.len(),
            ok == forall|k2: int| 0 <= k2 < k ==> #[trigger] cell_at(bb, x as int, y as int, k2, vertical) == s@[k2],
        decreases s@.len() - k,
    {
        let r = if vertical { (x + k) % N } else { x };
        let col = if vertical { y } else { (y + k) % N };
        assert(bb[r as int] == b@[r as int]@);
        let v = b[r][col];
        assert(v == cell_at(bb, x as int, y as int, k as int, vertical));
        if v != s[k] {
            ok = false;
        }
        k = k + 1;
    }
    ok
}

impl Input {
    /// The number of empty cells of `board`, and how many of the first `m`
    /// strings read off it somewhere.
    pub fn counts(&self, board: &Vec<Vec<usize>>) -> (r: (usize, usize))
        requires
            square(board@.map_values(|r: Vec<usize>| r@)),
            self.m <= self.s@.len(),
            forall|i: int| 0 <= i < self.s@.len() ==> (#[trigger] self.s@[i])@.len() <= MAX_LEN,
        ensures
            r.0 == empty_count(board@.map_values(|r: Vec<usize>| r@), N as int, 0),
            r.1 == on_board_count(
                board@.map_values(|r: Vec<usize>| r@),
                self.s@.map_values(|s: Vec<usize>| s@),
                self.m as int,
            ),
    {
        let ghost bb = board@.map_values(|r: Vec<usize>| r@);
        let ghost sv = self.s@.map_values(|s: Vec<usize>| s@);
        let mut dot_cnt: usize = 0;
        let mut x: usize = 0;
        while x < N
            invariant
                bb == board@.map_values(|r: Vec<usize>| r@),
                square(bb),
                x <= N,
                dot_cnt == empty_count(bb, x as int, 0),
            decreases N - x,
        {
            let mut y: usize = 0;
            while y < N
                invariant
                    bb == board@.map_values(|r: Vec<usize>| r@),
                    square(bb),
                    x < N,
                    y <= N,
                    dot_cnt == empty_count(bb, x as int, y as int),
                decreases N - y,
            {
                proof {
                    lemma_empty_count_bound(bb, x as int, y as int);
                    assert(bb[x as int] == board@[x as int]@);
                }
                if board[x][y] == EMPTY {
                    dot_cnt = dot_cnt + 1;
                }
                y = y + 1;
            }
            assert(empty_count(bb, x + 1, 0) == empty_count(bb, x as int, N as int));
            x = x + 1;
        }
        let mut place_cnt: usize = 0;
        let mut i: usize = 0;
        while i < self.m
            invariant
                bb == board@.map_values(|r: Vec<usize>| r@),
                sv == self.s@.map_values(|s: Vec<usize>| s@),
                square(bb),
                self.m <= self.s@.len(),
                forall|k: int| 0 <= k < self.s@.len() ==> (#[trigger] self.s@[k])@.len() <= MAX_LEN,
                i <= self.m,
                place_cnt <= i,
                place_cnt == on_board_count(bb, sv, i as int),
            decreases self.m - i,
        {
            let s = &self.s[i];
            assert(sv[i as int] == s@);
            let mut found = false;
            let mut x: usize = 0;
            while x < N && !found
                invariant
                    bb == board@.map_values(|r: Vec<usize>| r@),
                    square(bb),
                    s@.len() <= MAX_LEN,
                    x <= N,
                    found ==> on_board(bb, s@),
                    !found ==> forall|x2: int, y2: int|
                        0 <= x2 < x && 0 <= y2 < N ==> !#[trigger] reads_at(bb, s@, x2, y2, false)
                            && !reads_at(bb, s@, x2, y2, true),
                decreases N - x,
            {
                let mut y: usize = 0;
                while y < N && !found
                    invariant
                        bb == board@.map_values(|r: Vec<usize>| r@),
                        square(bb),
                        s@.len() <= MAX_LEN,
                        x < N,
                        y <= N,
                        found ==> on_board(bb, s@),
                        !found ==> forall|x2: int, y2: int|
                            ((0 <= x2 < x && 0 <= y2 < N) || (x2 == x && 0 <= y2 < y)) ==> !#[trigger] reads_at(
                                bb,
                                s@,
                                x2,
                                y2,
                                false,
                            ) && !reads_at(bb, s@, x2, y2, true),
                    decreases N - y,
                {
                    let xok = reads_at_exec(board, s, x, y, false);
                    let yok = reads_at_exec(board, s, x, y, true);
                    if xok || yok {
                        found = true;
                        assert(reads_at(bb, s@, x as int, y as int, false) || reads_at(bb, s@, x as int, y as int, true));
                    }
                    y = y + 1;
                }
                x = x + 1;
            }
            if found {
                place_cnt = place_cnt + 1;
            }
            i = i + 1;
        }
        (dot_cnt, place_cnt)
    }
}

/// Index `a` comes before index `b`: a larger first key, then a larger
/// second key, then the smaller index.
pub open spec fn ranks_before(keys: Seq<(usize, usize)>, a: int, b: int) -> bool {
    keys[a].0 > keys[b].0 || (keys[a].0 == keys[b].0 && (keys[a].1 > keys[b].1 || (keys[a].1
        == keys[b].1 && a < b)))
}

/// `idx` lists each index below `n` once.
pub open spec fn is_permutation(idx: Seq<usize>, n: int) -> bool {
    &&& idx.len() == n
    &&& forall|p: int| 0 <= p < idx.len() ==> #[trigger] idx[p] < n
    &&& forall|p: int, q: int| 0 <= p < q < idx.len() ==> idx[p] != idx[q]
}

/// The indices of `keys` in the order of `ranks_before`: a stable sort by
/// the keys, larger first.
pub fn ranked(keys: &Vec<(usize, usize)>) -> (idx: Vec<usize>)
    ensures
        is_permutation(idx@, keys@.len() as int),
        forall|p: int, q: int|
            0 <= p < q < idx@.len() ==> ranks_before(keys@, #[trigger] idx@[p] as int, #[trigger] idx@[q] as int),
{
    let mut idx: Vec<usize> = Vec::new();
    let mut i: usize = 0;
    while i < keys.len()
        invariant
            i <= keys@.len(),
            is_permutation(idx@, i as int),
            forall|p: int, q: int|
                0 <= p < q < idx@.len() ==> ranks_before(keys@, #[trigger] idx@[p] as int, #[trigger] idx@[q] as int),
        decreases keys@.len() - i,
    {
        let ki = keys[i];
        let mut p: usize = 0;
        while p < idx.len() && !(ki.0 > keys[idx[p]].0 || (ki.0 == keys[idx[p]].0 && ki.1 > keys[idx[p]].1))
            invariant
                i < keys@.len(),
                ki == keys@[i as int],
                is_permutation(idx@, i as int),
                p <= idx@.len(),
                forall|q: int| 0 <= q < p ==> ranks_before(keys@, #[trigger] idx@[q] as int, i as int),
            decreases idx@.len() - p,
        {
            p = p + 1;
        }
        let ghost before = idx@;
        idx.insert(p, i);
        proof {
            assert forall|a: int, b: int| 0 <= a < b < idx@.len() implies ranks_before(
                keys@,
                #[trigger] idx@[a] as int,
                #[trigger] idx@[b] as int,
            ) by {
                if b == p as int {
                    assert(idx@[a] == before[a]);
                } else if a == p as int {
                    assert(idx@[b] == before[b - 1]);
                    if b - 1 > p {
                        assert(ranks_before(keys@, before[p as int] as int, before[b - 1] as int));
                    }
                } else if a < p && b > p {
                    assert(idx@[a] == before[a] && idx@[b] == before[b - 1]);
                } else if b < p {
                    assert(idx@[a] == before[a] && idx@[b] == before[b]);
                } else {
                    assert(idx@[a] == before[a - 1] && idx@[b] == before[b - 1]);
                }
            }
            assert forall|a: int, b: int| 0 <= a < b < idx@.len() implies idx@[a] != idx@[b] by {
                if a != p && b != p {
                    let a0 = if a < p { a } else { a - 1 };
                    let b0 = if b < p { b } else { b - 1 };
                    assert(idx@[a] == before[a0] && idx@[b] == before[b0]);
                } else if a == p {
                    assert(idx@[b] == before[b - 1]);
                } else {
                    assert(idx@[a] == before[a]);
                }
            }
            assert forall|a: int| 0 <= a < idx@.len() implies #[trigger] idx@[a] < i + 1 by {
                if a < p {
                    assert(idx@[a] == before[a]);
                } else if a > p {
                    assert(idx@[a] == before[a - 1]);
                }
            }
        }
        i = i + 1;
    }
    idx
}

fn copy_of(v: &Vec<usize>) -> (r: Vec<usize>)
    ensures
        r@ == v@,
{
    let mut r: Vec<usize> = Vec::new();
    let mut k: usize = 0;
    while k < v.len()
        invariant
            k <= v@.len(),
            r@ == v@.subrange(0, k as int),
        decreases v@.len() - k,
    {
        r.push(v[k]);
        k = k + 1;
        assert(r@ =~= v@.subrange(0, k as int));
    }
    assert(r@ =~= v@);
    r
}

/// The strings, letters counted from `'A'`, longest first and otherwise in
/// their given order.
pub fn from_letters(m: usize, rows: &Vec<Vec<char>>) -> (r: Input)
    requires
        forall|i: int| 0 <= i < rows@.len() ==> forall|k: int| 0 <= k < (#[trigger] rows@[i])@.len() ==> 'A' as u8 <= #[trigger] rows@[i]@[k] as u8,
    ensures
        r.m == m,
        r.s@.len() == rows@.len(),
        exists|idx: Seq<usize>|
            {
                &&& is_permutation(idx, rows@.len() as int)
                &&& forall|p: int, q: int|
                    0 <= p < q < idx.len() ==> ranks_before(
                        rows@.map_values(|s: Vec<char>| (s@.len() as usize, 0usize)),
                        #[trigger] idx[p] as int,
                        #[trigger] idx[q] as int,
                    )
                &&& forall|p: int|
                    0 <= p < idx.len() ==> (#[trigger] r.s@[p])@ == rows@[idx[p] as int]@.map_values(
                        |c: char| (c as u8 - 'A' as u8) as usize,
                    )
            },
{
    let mut keys: Vec<(usize, usize)> = Vec::new();
    let mut conv: Vec<Vec<usize>> = Vec::new();
    let mut i: usize = 0;
    while i < rows.len()
        invariant
            i <= rows@.len(),
            forall|a: int| 0 <= a < rows@.len() ==> forall|k: int| 0 <= k < (#[trigger] rows@[a])@.len() ==> 'A' as u8 <= #[trigger] rows@[a]@[k] as u8,
            keys@.len() == i,
            conv@.len() == i,
            forall|a: int| 0 <= a < i ==> #[trigger] keys@[a] == (rows@[a]@.len() as usize, 0usize),
            forall|a: int|
                0 <= a < i ==> (#[trigger] conv@[a])@ == rows@[a]@.map_values(
                    |c: char| (c as u8 - 'A' as u8) as usize,
                ),
        decreases rows@.len() - i,
    {
        let row = &rows[i];
        let mut cs: Vec<usize> = Vec::new();
        let mut k: usize = 0;
        while k < row.len()
            invariant
                k <= row@.len(),
                forall|k2: int| 0 <= k2 < row@.len() ==> 'A' as u8 <= #[trigger] row@[k2] as u8,
                cs@ == row@.subrange(0, k as int).map_values(|c: char| (c as u8 - 'A' as u8) as usize),
            decreases row@.len() - k,
        {
            let c = row[k];
            cs.push((c as u8 - 'A' as u8) as usize);
            k = k + 1;
            assert(cs@ =~= row@.subrange(0, k as int).map_values(|c: char| (c as u8 - 'A' as u8) as usize));
        }
        assert(row@.subrange(0, row@.len() as int) =~= row@);
        keys.push((row.len(), 0));
        conv.push(cs);
        i = i + 1;
    }
    assert(keys@ =~= rows@.map_values(|s: Vec<char>| (s@.len() as usize, 0usize)));
    let idx = ranked(&keys);
    let mut s: Vec<Vec<usize>> = Vec::new();
    let mut p: usize = 0;
    while p < idx.len()
        invariant
            is_permutation(idx@, rows@.len() as int),
            conv@.len() == rows@.len(),
            forall|a: int|
                0 <= a < rows@.len() ==> (#[trigger] conv@[a])@ == rows@[a]@.map_values(
                    |c: char| (c as u8 - 'A' as u8) as usize,
                ),
            p <= idx@.len(),
            s@.len() == p,
            forall|a: int| 0 <= a < p ==> (#[trigger] s@[a])@ == conv@[idx@[a] as int]@,
        decreases idx@.len() - p,
    {
        s.push(copy_of(&conv[idx[p]]));
        p = p + 1;
    }
    Input { m, s }
}

/// `small` stands in `big` from position `k` on.
pub open spec fn stands_at(big: Seq<usize>, small: Seq<usize>, k: int) -> bool {
    big.subrange(k, k + small.len()) == small
}

/// `small` stands somewhere in `big`.
pub open spec fn contained(small: Seq<usize>, big: Seq<usize>) -> bool {
    exists|k: int| 0 <= k <= big.len() - small.len() && #[trigger] stands_at(big, small, k)
}

/// The first string before `i`, from `j` on, that contains string `i`.
pub open spec fn first_container(ss: Seq<Seq<usize>>, i: int, j: int) -> Option<int>
    decreases i - j,
{
    if j >= i || j < 0 {
        None
    } else if contained(ss[i], ss[j]) {
        Some(j)
    } else {
        first_container(ss, i, j + 1)
    }
}

/// `s` with its last element moved to position `i` in place of that one.
pub open spec fn swap_removed<T>(s: Seq<T>, i: int) -> Seq<T> {
    s.update(i, s.last()).drop_last()
}

/// The strings and weights after dropping, from position `i - 1` down to
/// the first, each string contained in an earlier one, whose weight goes to
/// the first string that contains it.
pub open spec fn dedup_from(ss: Seq<Seq<usize>>, ws: Seq<usize>, i: int) -> (Seq<Seq<usize>>, Seq<usize>)
    decreases i,
{
    if i <= 0 {
        (ss, ws)
    } else {
        match first_container(ss, i - 1, 0) {
            Some(j) => dedup_from(
                swap_removed(ss, i - 1),
                swap_removed(ws.update(j, (ws[j] + ws[i - 1]) as usize), i - 1),
                i - 1,
            ),
            None => dedup_from(ss, ws, i - 1),
        }
    }
}

/// The sum of the weights.
pub open spec fn total(ws: Seq<usize>) -> int
    decreases ws.len(),
{
    if ws.len() == 0 {
        0
    } else {
        total(ws.drop_last()) + ws.last()
    }
}

pub proof fn lemma_total_update(ws: Seq<usize>, j: int, v: usize)
    requires
        0 <= j < ws.len(),
    ensures
        total(ws.update(j, v)) == total(ws) - ws[j] + v,
    decreases ws.len(),
{
    if j < ws.len() - 1 {
        assert(ws.update(j, v).drop_last() =~= ws.drop_last().update(j, v));
        lemma_total_update(ws.drop_last(), j, v);
    } else {
        assert(ws.update(j, v).drop_last() =~= ws.drop_last());
    }
}

pub proof fn lemma_total_swap_removed(ws: Seq<usize>, i: int)
    requires
        0 <= i < ws.len(),
    ensures
        total(swap_removed(ws, i)) == total(ws) - ws[i],
{
    lemma_total_update(ws, i, ws.last());
    assert(ws.update(i, ws.last()).last() == ws.last());
}

pub proof fn lemma_total_two(ws: Seq<usize>, i: int, j: int)
    requires
        0 <= i < ws.len(),
        0 <= j < ws.len(),
        i != j,
    ensures
        ws[i] + ws[j] <= total(ws),
    decreases ws.len(),
{
    if i < ws.len() - 1 && j < ws.len() - 1 {
        lemma_total_two(ws.drop_last(), i, j);
    } else {
        let k = if i < j { i } else { j };
        lemma_total_ge(ws.drop_last(), k);
    }
}

pub proof fn lemma_total_ge(ws: Seq<usize>, k: int)
    requires
        0 <= k < ws.len(),
    ensures
        ws[k] <= total(ws),
        0 <= total(ws),
    decreases ws.len(),
{
    if k < ws.len() - 1 {
        lemma_total_ge(ws.drop_last(), k);
    } else {
        lemma_total_nonneg(ws.drop_last());
    }
}

pub proof fn lemma_total_nonneg(ws: Seq<usize>)
    ensures
        0 <= total(ws),
    decreases ws.len(),
{
    if ws.len() > 0 {
        lemma_total_nonneg(ws.drop_last());
    }
}

/// Whether `small` stands in `big` from position `k` on.
fn stands_at_exec(big: &Vec<usize>, small: &Vec<usize>, k: usize) -> (r: bool)
    requires
        k + small@.len() <= big@.len(),
    ensures
        r == stands_at(big@, small@, k as int),
{
    let bl = big.len();
    let mut a: usize = 0;
    while a < small.len()
        invariant
            bl == big@.len(),
            k + small@.len() <= big@.len(),
            a <= small@.len(),
            forall|b: int| 0 <= b < a ==> #[trigger] big@[k + b] == small@[b],
        decreases small@.len() - a,
    {
        assert(k + a < bl);
        if big[k + a] != small[a] {
            assert(big@.subrange(k as int, k + small@.len())[a as int] != small@[a as int]);
            return false;
        }
        a = a + 1;
    }
    assert forall|b: int| 0 <= b < small@.len() implies big@.subrange(k as int, k + small@.len())[b]
        == small@[b] by {
        assert(big@[k + b] == small@[b]);
    }
    assert(big@.subrange(k as int, k + small@.len()) =~= small@);
    true
}

/// Whether `small` stands somewhere in `big`, looked for from the front.
fn contained_exec(small: &Vec<usize>, big: &Vec<usize>) -> (r: bool)
    requires
        small@.len() <= big@.len() < usize::MAX,
    ensures
        r == contained(small@, big@),
{
    let mut k: usize = 0;
    while k < big.len() - small.len() + 1
        invariant
            small@.len() <= big@.len() < usize::MAX,
            k <= big@.len() + 1 - small@.len(),
            forall|k2: int| 0 <= k2 < k ==> !#[trigger] stands_at(big@, small@, k2),
        decreases big@.len() + 1 - small@.len() - k,
    {
        if stands_at_exec(big, small, k) {
            return true;
        }
        k = k + 1;
    }
    false
}

impl Input {
    /// Every string with weight one, and then, from the last string to the
    /// first, each string contained in an earlier one dropped (the last
    /// string moved into its place) and its weight given to the first
    /// string that contains it.
    pub fn dedup(&self) -> (r: (Vec<Vec<usize>>, Vec<usize>))
        requires
            forall|a: int| 0 <= a < self.s@.len() ==> (#[trigger] self.s@[a])@.len() < usize::MAX,
            forall|a: int, b: int|
                0 <= a < b < self.s@.len() ==> (#[trigger] self.s@[b])@.len() <= (#[trigger] self.s@[a])@.len(),
        ensures
            ({
                let ones = Seq::new(self.s@.len(), |k: int| 1usize);
                let (ss, ws) = dedup_from(self.s@.map_values(|s: Vec<usize>| s@), ones, self.s@.len() as int);
                &&& r.0@.map_values(|s: Vec<usize>| s@) == ss
                &&& r.1@ == ws
            }),
    {
        let n = self.s.len();
        let mut ss: Vec<Vec<usize>> = Vec::new();
        let mut ws: Vec<usize> = Vec::new();
        let mut k: usize = 0;
        while k < n
            invariant
                n == self.s@.len(),
                k <= n,
                ss@.len() == k,
                ws@.len() == k,
                forall|a: int| 0 <= a < k ==> (#[trigger] ss@[a])@ == self.s@[a]@,
                forall|a: int| 0 <= a < k ==> #[trigger] ws@[a] == 1,
                forall|a: int| 0 <= a < self.s@.len() ==> (#[trigger] self.s@[a])@.len() < usize::MAX,
            decreases n - k,
        {
            ss.push(copy_of(&self.s[k]));
            ws.push(1);
            k = k + 1;
        }
        let ghost ones = Seq::new(n as nat, |k: int| 1usize);
        let ghost target = dedup_from(self.s@.map_values(|s: Vec<usize>| s@), ones, n as int);
        assert(ss@.map_values(|s: Vec<usize>| s@) =~= self.s@.map_values(|s: Vec<usize>| s@));
        assert(ws@ =~= ones);
        proof {
            assert(total(ones) == n) by {
                lemma_total_ones(n as int);
            }
        }
        let mut i: usize = n;
        while i > 0
            invariant
                i <= ss@.len(),
                ss@.len() == ws@.len(),
                forall|a: int| 0 <= a < ss@.len() ==> (#[trigger] ss@[a])@.len() < usize::MAX,
                total(ws@) <= n,
                n <= usize::MAX,
                forall|a: int, b: int|
                    0 <= a < b < i ==> (#[trigger] ss@[b])@.len() <= (#[trigger] ss@[a])@.len(),
                dedup_from(ss@.map_values(|s: Vec<usize>| s@), ws@, i as int) == target,
            decreases i,
        {
            let ghost sv = ss@.map_values(|s: Vec<usize>| s@);
            let c = i - 1;
            let mut j: usize = 0;
            let mut found = false;
            while j < c && !found
                invariant
                    c < ss@.len(),
                    c + 1 == i,
                    i <= ss@.len(),
                    sv == ss@.map_values(|s: Vec<usize>| s@),
                    forall|a: int| 0 <= a < ss@.len() ==> (#[trigger] ss@[a])@.len() < usize::MAX,
                    j <= c,
                    forall|a: int, b: int|
                        0 <= a < b < i ==> (#[trigger] ss@[b])@.len() <= (#[trigger] ss@[a])@.len(),
                    found ==> j < c && contained(sv[c as int], sv[j as int]) && first_container(sv, c as int, 0) == Some(j as int),
                    !found ==> first_container(sv, c as int, 0) == first_container(sv, c as int, j as int),
                decreases c - j + if found { 0int } else { 1int },
            {
                assert(sv[c as int] == ss@[c as int]@ && sv[j as int] == ss@[j as int]@);
                assert(ss@[c as int]@.len() <= ss@[j as int]@.len());
                if contained_exec(&ss[c], &ss[j]) {
                    found = true;
                } else {
                    j = j + 1;
                }
            }
            if found {
                proof {
                    lemma_total_two(ws@, j as int, c as int);
                    lemma_total_update(ws@, j as int, (ws@[j as int] + ws@[c as int]) as usize);
                    lemma_total_swap_removed(ws@.update(j as int, (ws@[j as int] + ws@[c as int]) as usize), c as int);
                }
                ws.set(j, ws[j] + ws[c]);
                ss.swap_remove(c);
                ws.swap_remove(c);
                assert(ss@.map_values(|s: Vec<usize>| s@) =~= swap_removed(sv, c as int));
            } else {
                assert(first_container(sv, c as int, c as int) == None::<int>);
            }
            i = i - 1;
        }
        (ss, ws)
    }
}

pub proof fn lemma_total_ones(n: int)
    requires
        n >= 0,
    ensures
        total(Seq::new(n as nat, |k: int| 1usize)) == n,
    decreases n,
{
    if n > 0 {
        assert(Seq::new(n as nat, |k: int| 1usize).drop_last() =~= Seq::new((n - 1) as nat, |k: int| 1usize));
        lemma_total_ones(n - 1);
    }
}

/// The last `k` letters of `a` are the first `k` of `b`, and joining them
/// so gives at most 20 letters.
pub open spec fn overlap_ok(a: Seq<usize>, b: Seq<usize>, k: int) -> bool {
    a.subrange(a.len() - k, a.len() as int) == b.subrange(0, k) && a.len() + b.len() - k <= 20
}

/// The largest `k` from `1` to `top` with `overlap_ok`, or zero.
pub open spec fn top_from(a: Seq<usize>, b: Seq<usize>, top: int) -> int
    decreases top,
{
    if top <= 0 {
        0
    } else if overlap_ok(a, b, top) {
        top
    } else {
        top_from(a, b, top - 1)
    }
}

pub proof fn lemma_top_from_bound(a: Seq<usize>, b: Seq<usize>, top: int)
    ensures
        0 <= top_from(a, b, top),
        top_from(a, b, top) > 0 ==> overlap_ok(a, b, top_from(a, b, top)),
        top_from(a, b, top) <= if top < 0 { 0 } else { top },
    decreases top,
{
    if top > 0 {
        lemma_top_from_bound(a, b, top - 1);
    }
}

/// The largest overlap of the end of `a` with the start of `b`, shorter
/// than both.
pub open spec fn top_overlap(a: Seq<usize>, b: Seq<usize>) -> int {
    top_from(a, b, (if a.len() < b.len() { a.len() } else { b.len() }) - 1)
}

/// `(k, i, j)` is the greatest `(top_overlap, i, j)` over pairs of distinct
/// strings, with `k` positive.
pub open spec fn best_pair(ss: Seq<Seq<usize>>, i: int, j: int) -> bool {
    &&& 0 <= i < ss.len()
    &&& 0 <= j < ss.len()
    &&& i != j
    &&& top_overlap(ss[i], ss[j]) > 0
    &&& forall|i2: int, j2: int|
        0 <= i2 < ss.len() && 0 <= j2 < ss.len() && i2 != j2 ==> lex3_le_int(
            #[trigger] top_overlap(ss[i2], ss[j2]),
            i2,
            j2,
            top_overlap(ss[i], ss[j]),
            i,
            j,
        )
}

/// `(a, x, y)` comes first in the lexicographic order, or equals `(b, x2, y2)`.
pub open spec fn lex3_le_int(a: int, x: int, y: int, b: int, x2: int, y2: int) -> bool {
    a < b || (a == b && (x < x2 || (x == x2 && y <= y2)))
}

fn overlap_at_exec(a: &Vec<usize>, b: &Vec<usize>, k: usize) -> (r: bool)
    requires
        1 <= k < a@.len(),
        k < b@.len(),
        a@.len() <= MAX_LEN,
        b@.len() <= MAX_LEN,
    ensures
        r == overlap_ok(a@, b@, k as int),
{
    let al = a.len();
    let mut t: usize = 0;
    while t < k
        invariant
            al == a@.len(),
            1 <= k < a@.len(),
            k < b@.len(),
            t <= k,
            forall|u: int| 0 <= u < t ==> #[trigger] a@[al - k + u] == b@[u],
        decreases k - t,
    {
        if a[al - k + t] != b[t] {
            assert(a@.subrange(al - k, al as int)[t as int] != b@.subrange(0, k as int)[t as int]);
            return false;
        }
        t = t + 1;
    }
    assert forall|u: int| 0 <= u < k implies a@.subrange(al - k, al as int)[u] == b@.subrange(0, k as int)[u] by {
        assert(a@[al - k + u] == b@[u]);
    }
    assert(a@.subrange(al - k, al as int) =~= b@.subrange(0, k as int));
    a.len() + b.len() - k <= 20
}

/// The largest overlap of the end of `a` with the start of `b`.
fn overlap_exec(a: &Vec<usize>, b: &Vec<usize>) -> (r: usize)
    requires
        a@.len() <= MAX_LEN,
        b@.len() <= MAX_LEN,
    ensures
        r == top_overlap(a@, b@),
{
    let m = if a.len() < b.len() { a.len() } else { b.len() };
    if m == 0 {
        return 0;
    }
    let mut k = m - 1;
    while k >= 1
        invariant
            a@.len() <= MAX_LEN,
            b@.len() <= MAX_LEN,
            m == (if a@.len() < b@.len() { a@.len() } else { b@.len() }),
            k < m,
            top_from(a@, b@, m - 1) == top_from(a@, b@, k as int),
        decreases k,
    {
        if overlap_at_exec(a, b, k) {
            return k;
        }
        k = k - 1;
    }
    0
}

/// The strings and weights after joining strings `i` and `j` over an
/// overlap of `k`: string `i` becomes the join, with both weights, and
/// string `j` gives way to the last one.
pub open spec fn merged(ss: Seq<Seq<usize>>, ws: Seq<usize>, i: int, j: int, k: int) -> (Seq<Seq<usize>>, Seq<usize>) {
    (
        swap_removed(ss.update(i, ss[i] + ss[j].subrange(k, ss[j].len() as int)), j),
        swap_removed(ws.update(i, (ws[i] + ws[j]) as usize), j),
    )
}

/// Joins the two strings that overlap most (the greatest `(overlap, i, j)`)
/// where two overlap at all; returns whether it did.
pub fn merge_step(ss: &mut Vec<Vec<usize>>, ws: &mut Vec<usize>) -> (r: bool)
    requires
        old(ss)@.len() == old(ws)@.len(),
        total(old(ws)@) <= usize::MAX,
        forall|a: int| 0 <= a < old(ss)@.len() ==> (#[trigger] old(ss)@[a])@.len() <= 20,
    ensures
        ({
            let sv = old(ss)@.map_values(|s: Vec<usize>| s@);
            &&& r == exists|i: int, j: int|
                0 <= i < sv.len() && 0 <= j < sv.len() && i != j && #[trigger] top_overlap(sv[i], sv[j]) > 0
            &&& r ==> exists|i: int, j: int| #[trigger] best_pair(sv, i, j) && (
                final(ss)@.map_values(|s: Vec<usize>| s@),
                final(ws)@,
            ) == merged(sv, old(ws)@, i, j, top_overlap(sv[i], sv[j]))
            &&& !r ==> final(ss)@ == old(ss)@ && final(ws)@ == old(ws)@
            &&& !r ==> forall|a: int, b: int|
                0 <= a < final(ss)@.len() && 0 <= b < final(ss)@.len() && a != b ==> #[trigger] top_overlap(
                    final(ss)@[a]@,
                    final(ss)@[b]@,
                ) == 0
            &&& final(ss)@.len() == final(ws)@.len()
            &&& total(final(ws)@) == total(old(ws)@)
            &&& forall|a: int| 0 <= a < final(ss)@.len() ==> (#[trigger] final(ss)@[a])@.len() <= 20
        }),
{
    let ghost sv = ss@.map_values(|s: Vec<usize>| s@);
    let n = ss.len();
    let mut best: (usize, usize, usize) = (0, NONE_IDX, NONE_IDX);
    let mut i: usize = 0;
    while i < n
        invariant
            n == ss@.len(),
            sv == ss@.map_values(|s: Vec<usize>| s@),
            forall|a: int| 0 <= a < ss@.len() ==> (#[trigger] ss@[a])@.len() <= 20,
            i <= n,
            best.0 > 0 ==> best.1 < i && best.2 < n && best.1 != best.2 && best.0 == top_overlap(sv[best.1 as int], sv[best.2 as int]),
            best.0 == 0 ==> forall|i2: int, j2: int|
                0 <= i2 < i && 0 <= j2 < n && i2 != j2 ==> #[trigger] top_overlap(sv[i2], sv[j2]) == 0,
            best.0 > 0 ==> forall|i2: int, j2: int|
                0 <= i2 < i && 0 <= j2 < n && i2 != j2 ==> lex3_le_int(
                    #[trigger] top_overlap(sv[i2], sv[j2]),
                    i2,
                    j2,
                    best.0 as int,
                    best.1 as int,
                    best.2 as int,
                ),
        decreases n - i,
    {
        let mut j: usize = 0;
        while j < n
            invariant
                n == ss@.len(),
                sv == ss@.map_values(|s: Vec<usize>| s@),
                forall|a: int| 0 <= a < ss@.len() ==> (#[trigger] ss@[a])@.len() <= 20,
                i < n,
                j <= n,
                best.0 > 0 ==> best.1 <= i && best.2 < n && best.1 != best.2 && (best.1 == i ==> best.2 < j) && best.0 == top_overlap(sv[best.1 as int], sv[best.2 as int]),
                best.0 == 0 ==> forall|i2: int, j2: int|
                    ((0 <= i2 < i && 0 <= j2 < n) || (i2 == i && 0 <= j2 < j)) && i2 != j2 ==> #[trigger] top_overlap(sv[i2], sv[j2]) == 0,
                best.0 > 0 ==> forall|i2: int, j2: int|
                    ((0 <= i2 < i && 0 <= j2 < n) || (i2 == i && 0 <= j2 < j)) && i2 != j2 ==> lex3_le_int(
                        #[trigger] top_overlap(sv[i2], sv[j2]),
                        i2,
                        j2,
                        best.0 as int,
                        best.1 as int,
                        best.2 as int,
                    ),
            decreases n - j,
        {
            if i != j {
                assert(sv[i as int] == ss@[i as int]@ && sv[j as int] == ss@[j as int]@);
                let k = overlap_exec(&ss[i], &ss[j]);
                if k > 0 {
                    let cand = (k, i, j);
                    if !(cand.0 < best.0 || (cand.0 == best.0 && (cand.1 < best.1 || (cand.1 == best.1 && cand.2 < best.2)))) {
                        best = cand;
                    }
                }
            }
            j = j + 1;
        }
        i = i + 1;
    }
    if best.0 == 0 {
        proof {
            assert forall|a: int, b: int|
                0 <= a < ss@.len() && 0 <= b < ss@.len() && a != b implies #[trigger] top_overlap(ss@[a]@, ss@[b]@) == 0 by {
                assert(sv[a] == ss@[a]@ && sv[b] == ss@[b]@);
                assert(top_overlap(sv[a], sv[b]) == 0);
            }
        }
        return false;
    }
    let (k, i, j) = best;
    let ghost w0 = ws@;
    assert(sv[i as int] == ss@[i as int]@ && sv[j as int] == ss@[j as int]@);
    proof {
        lemma_top_from_bound(sv[i as int], sv[j as int], (if sv[i as int].len() < sv[j as int].len() { sv[i as int].len() } else { sv[j as int].len() }) - 1);
    }
    let mut joined = copy_of(&ss[i]);
    assert(joined@ =~= ss@[i as int]@ + ss@[j as int]@.subrange(k as int, k as int));
    let mut t = k;
    while t < ss[j].len()
        invariant
            i < ss@.len(),
            j < ss@.len(),
            k <= t <= ss@[j as int]@.len(),
            joined@ == ss@[i as int]@ + ss@[j as int]@.subrange(k as int, t as int),
        decreases ss@[j as int]@.len() - t,
    {
        joined.push(ss[j][t]);
        t = t + 1;
        assert(joined@ =~= ss@[i as int]@ + ss@[j as int]@.subrange(k as int, t as int));
    }
    proof {
        lemma_total_two(ws@, i as int, j as int);
        lemma_total_update(ws@, i as int, (ws@[i as int] + ws@[j as int]) as usize);
        lemma_total_swap_removed(ws@.update(i as int, (ws@[i as int] + ws@[j as int]) as usize), j as int);
        assert(k < 20);
    }
    ss.set(i, joined);
    ws.set(i, ws[i] + ws[j]);
    ss.swap_remove(j);
    ws.swap_remove(j);
    proof {
        assert(best_pair(sv, i as int, j as int));
        assert(ss@.map_values(|s: Vec<usize>| s@) =~= merged(sv, w0, i as int, j as int, k as int).0);
        let ms = sv.update(i as int, sv[i as int] + sv[j as int].subrange(k as int, sv[j as int].len() as int));
        assert(ms[i as int].len() <= 20);
        assert forall|a: int| 0 <= a < ss@.len() implies (#[trigger] ss@[a])@.len() <= 20 by {
            assert(ss@[a]@ == swap_removed(ms, j as int)[a]);
            if a == j {
                assert(swap_removed(ms, j as int)[a] == ms[ms.len() - 1]);
            } else {
                assert(swap_removed(ms, j as int)[a] == ms[a]);
            }
        }
    }
    true
}

/// The letters of each string.
pub open spec fn strings_of(v: Seq<Vec<usize>>) -> Seq<Seq<usize>> {
    v.map_values(|s: Vec<usize>| s@)
}

/// `rs` and `rw` are `ss` and `ws` taken in the order `idx`, which lists
/// every index once, heavier first, then longer, then as given.
pub open spec fn reordered(
    ss: Seq<Seq<usize>>,
    ws: Seq<usize>,
    idx: Seq<usize>,
    rs: Seq<Seq<usize>>,
    rw: Seq<usize>,
) -> bool {
    &&& is_permutation(idx, ss.len() as int)
    &&& forall|p: int, q: int|
        0 <= p < q < idx.len() ==> ranks_before(
            Seq::new(ss.len(), |a: int| (ws[a], ss[a].len() as usize)),
            #[trigger] idx[p] as int,
            #[trigger] idx[q] as int,
        )
    &&& rs.len() == idx.len()
    &&& rw.len() == idx.len()
    &&& forall|p: int| 0 <= p < idx.len() ==> #[trigger] rs[p] == ss[idx[p] as int] && rw[p] == ws[idx[p] as int]
}

/// The strings and weights in the order of `ranks_before` on (weight,
/// length): heavier first, then longer, then as given.
pub fn order_by_weight(ss: &Vec<Vec<usize>>, ws: &Vec<usize>) -> (r: (Vec<Vec<usize>>, Vec<usize>))
    requires
        ss@.len() == ws@.len(),
    ensures
        exists|idx: Seq<usize>|
            #[trigger] reordered(strings_of(ss@), ws@, idx, strings_of(r.0@), r.1@),
{
    let mut keys: Vec<(usize, usize)> = Vec::new();
    let mut a: usize = 0;
    while a < ss.len()
        invariant
            ss@.len() == ws@.len(),
            a <= ss@.len(),
            keys@ == Seq::new(a as nat, |b: int| (ws@[b], ss@[b]@.len() as usize)),
        decreases ss@.len() - a,
    {
        keys.push((ws[a], ss[a].len()));
        a = a + 1;
        assert(keys@ =~= Seq::new(a as nat, |b: int| (ws@[b], ss@[b]@.len() as usize)));
    }
    let idx = ranked(&keys);
    let mut rs: Vec<Vec<usize>> = Vec::new();
    let mut rw: Vec<usize> = Vec::new();
    let mut p: usize = 0;
    while p < idx.len()
        invariant
            ss@.len() == ws@.len(),
            is_permutation(idx@, ss@.len() as int),
            p <= idx@.len(),
            rs@.len() == p,
            rw@.len() == p,
            forall|q: int| 0 <= q < p ==> (#[trigger] rs@[q])@ == ss@[idx@[q] as int]@ && rw@[q] == ws@[idx@[q] as int],
        decreases idx@.len() - p,
    {
        rs.push(copy_of(&ss[idx[p]]));
        rw.push(ws[idx[p]]);
        p = p + 1;
    }
    assert(keys@ =~= Seq::new(ss@.len(), |b: int| (ws@[b], ss@[b]@.len() as usize)));
    let ghost sv = ss@.map_values(|s: Vec<usize>| s@);
    assert(Seq::new(sv.len(), |b: int| (ws@[b], sv[b].len() as usize)) =~= keys@);
    let ghost s0 = strings_of(ss@);
    let ghost s1 = strings_of(rs@);
    assert(is_permutation(idx@, s0.len() as int));
    assert(Seq::new(s0.len(), |b: int| (ws@[b], s0[b].len() as usize)) =~= keys@);
    assert forall|p: int| 0 <= p < idx@.len() implies #[trigger] s1[p] == s0[idx@[p] as int] && rw@[p]
        == ws@[idx@[p] as int] by {
        assert(rs@[p]@ == ss@[idx@[p] as int]@);
    }
    assert(reordered(s0, ws@, idx@, s1, rw@));
    let r = (rs, rw);
    assert(reordered(strings_of(ss@), ws@, idx@, strings_of(r.0@), r.1@));
    r
}

/// The first container of string `i` found from `j` on comes before `i`.
pub proof fn lemma_first_container_range(ss: Seq<Seq<usize>>, i: int, j: int)
    ensures
        first_container(ss, i, j) matches Some(c) ==> j <= c < i,
    decreases i - j,
{
    if j < i && j >= 0 && !contained(ss[i], ss[j]) {
        lemma_first_container_range(ss, i, j + 1);
    }
}

/// Dropping contained strings keeps the weights' sum, pairs each string
/// with a weight, and keeps every string at most 20 letters long.
pub proof fn lemma_dedup_from(ss: Seq<Seq<usize>>, ws: Seq<usize>, i: int)
    requires
        ss.len() == ws.len(),
        0 <= i <= ss.len(),
        total(ws) <= usize::MAX,
        forall|a: int| 0 <= a < ss.len() ==> (#[trigger] ss[a]).len() <= 20,
    ensures
        dedup_from(ss, ws, i).0.len() == dedup_from(ss, ws, i).1.len(),
        total(dedup_from(ss, ws, i).1) == total(ws),
        forall|a: int| 0 <= a < dedup_from(ss, ws, i).0.len() ==> (#[trigger] dedup_from(ss, ws, i).0[a]).len() <= 20,
    decreases i,
{
    if i > 0 {
        lemma_first_container_range(ss, i - 1, 0);
        match first_container(ss, i - 1, 0) {
            Some(j) => {
                lemma_total_two(ws, j, i - 1);
                let v = (ws[j] + ws[i - 1]) as usize;
                let w1 = ws.update(j, v);
                lemma_total_update(ws, j, v);
                lemma_total_swap_removed(w1, i - 1);
                let s1 = swap_removed(ss, i - 1);
                assert forall|a: int| 0 <= a < s1.len() implies (#[trigger] s1[a]).len() <= 20 by {
                    if a == i - 1 {
                        assert(s1[a] == ss.last());
                    } else {
                        assert(s1[a] == ss[a]);
                    }
                }
                lemma_dedup_from(s1, swap_removed(w1, i - 1), i - 1);
            },
            None => {
                lemma_dedup_from(ss, ws, i - 1);
            },
        }
    }
}

/// `(s, w)` comes from `(s0, w0)` by `k` joins, each of the two strings
/// that overlap most.
pub open spec fn merges(s0: Seq<Seq<usize>>, w0: Seq<usize>, s: Seq<Seq<usize>>, w: Seq<usize>, k: nat) -> bool
    decreases k,
{
    if k == 0 {
        s == s0 && w == w0
    } else {
        exists|sp: Seq<Seq<usize>>, wp: Seq<usize>, i: int, j: int|
            #![trigger best_pair(sp, i, j), merged(sp, wp, i, j, top_overlap(sp[i], sp[j]))]
            merges(s0, w0, sp, wp, (k - 1) as nat) && best_pair(sp, i, j) && (s, w) == merged(
                sp,
                wp,
                i,
                j,
                top_overlap(sp[i], sp[j]),
            )
    }
}

/// One more join of the two strings that overlap most.
pub proof fn lemma_merges_step(
    s0: Seq<Seq<usize>>,
    w0: Seq<usize>,
    sp: Seq<Seq<usize>>,
    wp: Seq<usize>,
    i: int,
    j: int,
    k: nat,
)
    requires
        merges(s0, w0, sp, wp, k),
        best_pair(sp, i, j),
    ensures
        merges(s0, w0, merged(sp, wp, i, j, top_overlap(sp[i], sp[j])).0, merged(sp, wp, i, j, top_overlap(sp[i], sp[j])).1, k + 1),
{
    let m = merged(sp, wp, i, j, top_overlap(sp[i], sp[j]));
    assert((m.0, m.1) == m);
}

impl Input {
    /// The strings without those contained in others, joined over their
    /// overlaps (the two that overlap most each time) until none overlap or
    /// the clock passes `tl` microseconds since `start`; heaviest first. The
    /// weights count the strings each one stands for.
    pub fn merge(&self, start: &std::time::Instant, tl: u128) -> (r: (Vec<Vec<usize>>, Vec<usize>))
        requires
            forall|a: int| 0 <= a < self.s@.len() ==> (#[trigger] self.s@[a])@.len() <= 20,
            forall|a: int, b: int|
                0 <= a < b < self.s@.len() ==> (#[trigger] self.s@[b])@.len() <= (#[trigger] self.s@[a])@.len(),
        ensures
            ({
                let ones = Seq::new(self.s@.len(), |k: int| 1usize);
                let (s0, w0) = dedup_from(self.s@.map_values(|s: Vec<usize>| s@), ones, self.s@.len() as int);
                exists|s: Seq<Seq<usize>>, w: Seq<usize>, k: nat, idx: Seq<usize>|
                    #![trigger merges(s0, w0, s, w, k), reordered(s, w, idx, strings_of(r.0@), r.1@)]
                    merges(s0, w0, s, w, k) && reordered(s, w, idx, strings_of(r.0@), r.1@)
            }),
            forall|a: int| 0 <= a < r.0@.len() ==> (#[trigger] r.0@[a])@.len() <= 20,
            tl == u128::MAX ==> forall|a: int, b: int|
                0 <= a < r.0@.len() && 0 <= b < r.0@.len() && a != b ==> #[trigger] top_overlap(r.0@[a]@, r.0@[b]@)
                    == 0,
    {
        let n = self.s.len();
        let ghost sv0 = self.s@.map_values(|s: Vec<usize>| s@);
        let ghost ones = Seq::new(self.s@.len(), |k: int| 1usize);
        proof {
            lemma_total_ones(self.s@.len() as int);
            assert forall|a: int| 0 <= a < sv0.len() implies (#[trigger] sv0[a]).len() <= 20 by {
                assert(sv0[a] == self.s@[a]@);
            }
            lemma_dedup_from(sv0, ones, self.s@.len() as int);
        }
        let (mut ss, mut ws) = self.dedup();
        let ghost s0 = ss@.map_values(|s: Vec<usize>| s@);
        let ghost w0 = ws@;
        let ghost mut k: nat = 0;
        proof {
            assert(s0 == dedup_from(sv0, ones, self.s@.len() as int).0);
            assert forall|a: int| 0 <= a < ss@.len() implies (#[trigger] ss@[a])@.len() <= 20 by {
                assert(s0[a] == ss@[a]@);
            }
        }
        loop
            invariant
                ss@.len() == ws@.len(),
                n == self.s@.len(),
                total(ws@) == self.s@.len(),
                forall|a: int| 0 <= a < ss@.len() ==> (#[trigger] ss@[a])@.len() <= 20,
                merges(s0, w0, ss@.map_values(|s: Vec<usize>| s@), ws@, k),
            ensures
                ss@.len() == ws@.len(),
                total(ws@) == self.s@.len(),
                forall|a: int| 0 <= a < ss@.len() ==> (#[trigger] ss@[a])@.len() <= 20,
                tl == u128::MAX ==> forall|a: int, b: int|
                    0 <= a < ss@.len() && 0 <= b < ss@.len() && a != b ==> #[trigger] top_overlap(ss@[a]@, ss@[b]@) == 0,
                merges(s0, w0, ss@.map_values(|s: Vec<usize>| s@), ws@, k),
            decreases ss@.len(),
        {
            if elapsed_micros(start) >= tl {
                break;
            }
            let ghost sp = ss@.map_values(|s: Vec<usize>| s@);
            let ghost wp = ws@;
            if !merge_step(&mut ss, &mut ws) {
                break;
            }
            proof {
                let (i, j) = choose|i: int, j: int|
                    #[trigger] best_pair(sp, i, j) && (ss@.map_values(|s: Vec<usize>| s@), ws@) == merged(
                        sp,
                        wp,
                        i,
                        j,
                        top_overlap(sp[i], sp[j]),
                    );
                lemma_merges_step(s0, w0, sp, wp, i, j, k);
                k = k + 1;
                assert(ss@.map_values(|s: Vec<usize>| s@).len() == sp.len() - 1);
            }
        }
        let r = order_by_weight(&ss, &ws);
        proof {
            let idx = choose|idx: Seq<usize>| #[trigger] reordered(strings_of(ss@), ws@, idx, strings_of(r.0@), r.1@);
            assert(strings_of(ss@) == ss@.map_values(|s: Vec<usize>| s@));
            assert(merges(s0, w0, strings_of(ss@), ws@, k));
            assert forall|a: int| 0 <= a < r.0@.len() implies (#[trigger] r.0@[a])@.len() <= 20 by {
                assert(strings_of(r.0@)[a] == strings_of(ss@)[idx[a] as int]);
                assert(strings_of(ss@)[idx[a] as int] == ss@[idx[a] as int]@);
                assert(strings_of(r.0@)[a] == r.0@[a]@);
            }
            if tl == u128::MAX {
                assert forall|a: int, b: int|
                    0 <= a < r.0@.len() && 0 <= b < r.0@.len() && a != b implies #[trigger] top_overlap(r.0@[a]@, r.0@[b]@)
                        == 0 by {
                    assert(strings_of(r.0@)[a] == strings_of(ss@)[idx[a] as int]);
                    assert(strings_of(r.0@)[b] == strings_of(ss@)[idx[b] as int]);
                    assert(strings_of(ss@)[idx[a] as int] == ss@[idx[a] as int]@);
                    assert(strings_of(ss@)[idx[b] as int] == ss@[idx[b] as int]@);
                    assert(strings_of(r.0@)[a] == r.0@[a]@);
                    assert(strings_of(r.0@)[b] == r.0@[b]@);
                    if a < b {
                        assert(idx[a] != idx[b]);
                    } else {
                        assert(idx[b] != idx[a]);
                    }
                    assert(top_overlap(ss@[idx[a] as int]@, ss@[idx[b] as int]@) == 0);
                }
            }
        }
        r
    }
}

} // verus!
