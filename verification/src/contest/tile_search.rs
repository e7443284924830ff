use vstd::prelude::*;
use crate::contest::tiles::{dir_of, dir_step, marked, on_board, value_sum, Input, Pos, State, MAX_VALUE, N};
use crate::random::pcg::gen_index;
use crate::util::clock::elapsed_micros;

verus! {

/// The most a stretch may have lost before its search starts.
pub const MAX_LOSS: isize = 100_000_000;

/// A walk of value `score` and `len` cells can take every other cell of the
/// board without its value leaving `isize`.
pub open spec fn score_room(score: int, len: int) -> bool {
    &&& -MAX_LOSS <= score
    &&& score + (N * N + 1 - len) * MAX_VALUE <= isize::MAX
}

/// All orders of the four directions, through `Itertools::permutations(4)`
/// over `0..4`: every arrangement once, so twenty-four lists of the four
/// directions, each direction once in each.
#[verifier::external_body]
fn permutations_of_dirs() -> (r: Vec<Vec<usize>>)
    ensures
        r@.len() == 24,
        forall|i: int| 0 <= i < 24 ==> (#[trigger] r@[i])@.len() == 4,
        forall|i: int, k: int| 0 <= i < 24 && 0 <= k < 4 ==> #[trigger] r@[i]@[k] < 4,
        forall|i: int, a: int, b: int| 0 <= i < 24 && 0 <= a < b < 4 ==> #[trigger] r@[i]@[a] != #[trigger] r@[i]@[b],
{
    itertools::Itertools::permutations(0usize..4, 4).collect()
}

/// The orders in which a search may try the four directions.
pub struct DirOrders {
    pub orders: Vec<Vec<usize>>,
}

impl DirOrders {
    /// Twenty-four orders, each of the four directions once.
    pub open spec fn wf(&self) -> bool {
        &&& self.orders@.len() == 24
        &&& forall|i: int| 0 <= i < 24 ==> (#[trigger] self.orders@[i])@.len() == 4
        &&& forall|i: int, k: int| 0 <= i < 24 && 0 <= k < 4 ==> #[trigger] self.orders@[i]@[k] < 4
        &&& forall|i: int, a: int, b: int|
            0 <= i < 24 && 0 <= a < b < 4 ==> #[trigger] self.orders@[i]@[a] != #[trigger] self.orders@[i]@[b]
    }

    /// Every order of the four directions.
    pub fn new() -> (r: DirOrders)
        ensures
            r.wf(),
    {
        DirOrders { orders: permutations_of_dirs() }
    }
}

/// The tile of cell `p`.
pub open spec fn tile_of(input: &Input, p: Pos) -> int {
    input.tile@[p.x as int]@[p.y as int] as int
}

/// `b` is one step from `a`.
pub open spec fn adjacent(a: Pos, b: Pos) -> bool {
    ||| a.x == b.x && (b.y == a.y + 1 || b.y == a.y - 1)
    ||| a.y == b.y && (b.x == a.x + 1 || b.x == a.x - 1)
}

/// From position `lo` on, each cell of the walk is one step from the one before.
pub open spec fn steps_ok(perm: Seq<Pos>, lo: int) -> bool {
    forall|k: int| lo <= k && k + 1 < perm.len() ==> #[trigger] adjacent(perm[k], perm[k + 1])
}

/// No cell occurs twice in the walk.
pub open spec fn distinct_cells(perm: Seq<Pos>) -> bool {
    forall|a: int, b: int| 0 <= a < b < perm.len() ==> #[trigger] perm[a] != #[trigger] perm[b]
}

/// Each cell at positions `lo..hi` enters a tile that neither `used` nor an
/// earlier one of those cells holds.
pub open spec fn fresh(input: &Input, used: Seq<bool>, perm: Seq<Pos>, lo: int, hi: int) -> bool {
    forall|k: int| lo <= k < hi ==> !(#[trigger] marked(input, used, perm, lo, k, true))[tile_of(input, perm[k])]
}

/// `best` carries the walk `perm` (with tiles `used` and value `score`) on:
/// one step at a time over the board, each new cell but the last `cut` ones
/// entering a fresh tile, with those tiles marked in `best_used`, and the
/// values of the new cells added to `best_score`.
pub open spec fn walked_on(
    input: &Input,
    perm: Seq<Pos>,
    used: Seq<bool>,
    score: int,
    best: Seq<Pos>,
    best_used: Seq<bool>,
    best_score: int,
    cut: int,
) -> bool {
    let (l, h) = (perm.len() as int, best.len() as int);
    &&& l <= h
    &&& best.subrange(0, l) == perm
    &&& on_board(best)
    &&& steps_ok(best, l - 1)
    &&& fresh(input, used, best, l, h - cut)
    &&& best_used == marked(input, used, best, l, h - cut, true)
    &&& best_score == score + value_sum(input, best, l, h)
}

/// Marking positions `lo..hi` is marking position `lo`, then the rest.
pub proof fn lemma_marked_first(input: &Input, used: Seq<bool>, perm: Seq<Pos>, lo: int, hi: int, flag: bool)
    requires
        lo < hi,
    ensures
        marked(input, used, perm, lo, hi, flag) == marked(
            input,
            used.update(tile_of(input, perm[lo]), flag),
            perm,
            lo + 1,
            hi,
            flag,
        ),
    decreases hi - lo,
{
    if hi > lo + 1 {
        lemma_marked_first(input, used, perm, lo, hi - 1, flag);
    } else {
        assert(marked(input, used, perm, lo, lo, flag) == used);
    }
}

/// The values of positions `lo..hi` are that of position `lo` and the rest.
pub proof fn lemma_value_first(input: &Input, perm: Seq<Pos>, lo: int, hi: int)
    requires
        lo < hi,
    ensures
        value_sum(input, perm, lo, hi) == input.value@[perm[lo].x as int]@[perm[lo].y as int] + value_sum(
            input,
            perm,
            lo + 1,
            hi,
        ),
    decreases hi - lo,
{
    if hi > lo + 1 {
        lemma_value_first(input, perm, lo, hi - 1);
    } else {
        assert(value_sum(input, perm, lo, lo) == 0);
        assert(value_sum(input, perm, lo + 1, lo + 1) == 0);
    }
}

/// Marking positions up to `hi` with positions `lo..hi` taken from the
/// same walk leaves the marks of the tiles outside untouched, and marks
/// each tile inside.
pub proof fn lemma_marked_inside(input: &Input, used: Seq<bool>, perm: Seq<Pos>, lo: int, hi: int, k: int)
    requires
        input.wf(),
        used.len() == input.m,
        on_board(perm),
        0 <= lo <= k < hi <= perm.len(),
    ensures
        marked(input, used, perm, lo, hi, true)[tile_of(input, perm[k])],
    decreases hi - lo,
{
    if k < hi - 1 {
        lemma_marked_inside(input, used, perm, lo, hi - 1, k);
        lemma_marked_len(input, used, perm, lo, hi - 1);
    } else {
        lemma_marked_len(input, used, perm, lo, hi - 1);
    }
}

pub proof fn lemma_marked_len(input: &Input, used: Seq<bool>, perm: Seq<Pos>, lo: int, hi: int)
    requires
        input.wf(),
        used.len() == input.m,
        on_board(perm),
        0 <= lo,
        hi <= perm.len(),
    ensures
        marked(input, used, perm, lo, hi, true).len() == used.len(),
    decreases hi - lo,
{
    if hi > lo {
        lemma_marked_len(input, used, perm, lo, hi - 1);
        let p = perm[hi - 1];
        assert(0 <= p.x < N && 0 <= p.y < N);
        assert(input.tile@[p.x as int]@[p.y as int] < input.m);
    }
}

/// The mark of tile `t` after marking positions `lo..hi` with `flag`: `flag`
/// where one of those cells lies on `t`, the old mark otherwise.
pub proof fn lemma_marked_at(input: &Input, used: Seq<bool>, perm: Seq<Pos>, lo: int, hi: int, flag: bool, t: int)
    requires
        input.wf(),
        used.len() == input.m,
        on_board(perm),
        0 <= lo,
        hi <= perm.len(),
        0 <= t < used.len(),
    ensures
        marked(input, used, perm, lo, hi, flag).len() == used.len(),
        marked(input, used, perm, lo, hi, flag)[t] == if exists|k: int| lo <= k < hi && #[trigger] tile_of(input, perm[k]) == t {
            flag
        } else {
            used[t]
        },
    decreases hi - lo,
{
    if hi > lo {
        lemma_marked_at(input, used, perm, lo, hi - 1, flag, t);
        let p = perm[hi - 1];
        assert(0 <= p.x < N && 0 <= p.y < N);
        assert(input.tile@[p.x as int]@[p.y as int] < input.m);
        let u = tile_of(input, p);
        if u != t {
            if exists|k: int| lo <= k < hi && #[trigger] tile_of(input, perm[k]) == t {
                let k = choose|k: int| lo <= k < hi && #[trigger] tile_of(input, perm[k]) == t;
                assert(lo <= k < hi - 1);
            }
        }
    }
}

/// The walk is a valid route: on the board, each step to a neighbouring
/// cell, no tile entered twice, and `used` marks exactly its tiles.
pub open spec fn walk_ok(input: &Input, perm: Seq<Pos>, used: Seq<bool>) -> bool {
    &&& on_board(perm)
    &&& steps_ok(perm, 0)
    &&& forall|a: int, b: int|
        0 <= a < b < perm.len() ==> #[trigger] tile_of(input, perm[a]) != #[trigger] tile_of(input, perm[b])
    &&& used.len() == input.m
    &&& forall|t: int|
        0 <= t < input.m ==> (#[trigger] used[t] <==> exists|k: int| 0 <= k < perm.len() && #[trigger] tile_of(input, perm[k]) == t)
}

/// The walk with positions `i..=j` (to the end where `j` lies beyond it)
/// replaced by `best`.
pub open spec fn spliced(perm: Seq<Pos>, i: int, j: int, best: Seq<Pos>) -> Seq<Pos> {
    let len = perm.len() as int;
    let hi = if j + 1 < len { j + 1 } else { len };
    perm.subrange(0, i) + best + perm.subrange(hi, len)
}

/// Freeing the tiles of positions `lo..hi` of a valid walk leaves marked
/// exactly the tiles of the cells outside those positions.
pub proof fn lemma_freed(input: &Input, perm: Seq<Pos>, used: Seq<bool>, lo: int, hi: int, t: int)
    requires
        input.wf(),
        walk_ok(input, perm, used),
        0 <= lo <= hi <= perm.len(),
        0 <= t < input.m,
    ensures
        marked(input, used, perm, lo, hi, false).len() == used.len(),
        marked(input, used, perm, lo, hi, false)[t] <==> exists|k: int|
            0 <= k < perm.len() && !(lo <= k < hi) && #[trigger] tile_of(input, perm[k]) == t,
{
    lemma_marked_at(input, used, perm, lo, hi, false, t);
    if marked(input, used, perm, lo, hi, false)[t] {
        let k = choose|k: int| 0 <= k < perm.len() && #[trigger] tile_of(input, perm[k]) == t;
        if lo <= k < hi {
            assert(exists|k2: int| lo <= k2 < hi && #[trigger] tile_of(input, perm[k2]) == t);
        }
    }
    if exists|k: int| 0 <= k < perm.len() && !(lo <= k < hi) && #[trigger] tile_of(input, perm[k]) == t {
        let k = choose|k: int| 0 <= k < perm.len() && !(lo <= k < hi) && #[trigger] tile_of(input, perm[k]) == t;
        assert(used[t]);
        if exists|k2: int| lo <= k2 < hi && #[trigger] tile_of(input, perm[k2]) == t {
            let k2 = choose|k2: int| lo <= k2 < hi && #[trigger] tile_of(input, perm[k2]) == t;
            if k < k2 {
                assert(tile_of(input, perm[k]) != tile_of(input, perm[k2]));
            } else {
                assert(tile_of(input, perm[k2]) != tile_of(input, perm[k]));
            }
        }
    }
}

/// Where position `k` of the spliced walk comes from: a position of the old
/// walk, or -1 for the cells the search added. `hi2` is where the kept end
/// of the old walk starts, `h` the length of the found stretch, and `cut`
/// is 1 where that stretch ends on the old walk's cell `j`.
pub open spec fn splice_origin(i: int, j: int, hi2: int, h: int, cut: int, k: int) -> int {
    if k <= i {
        k
    } else if k < i + h - cut {
        -1
    } else if k < i + h {
        j
    } else {
        hi2 + (k - i - h)
    }
}

/// Splicing into a valid walk the stretch that a search found from its cell
/// `i`, once the tiles of positions `i + 1..j` were freed (to the walk's
/// cell `j`, or anywhere where `j` lies beyond the walk), gives a valid
/// walk, whose tiles are those the search marked.
pub proof fn lemma_splice_keeps_walk(
    input: &Input,
    perm: Seq<Pos>,
    used: Seq<bool>,
    i: int,
    j: int,
    best: Seq<Pos>,
    best_used: Seq<bool>,
    score: int,
    best_score: int,
)
    requires
        input.wf(),
        walk_ok(input, perm, used),
        0 <= i < perm.len(),
        i < j,
        best.len() > 1,
        ({
            let len = perm.len() as int;
            let hi = if j < len { j } else { len };
            let cut = if j < len { 1int } else { 0int };
            &&& walked_on(
                input,
                seq![perm[i]],
                marked(input, used, perm, i + 1, hi, false),
                score,
                best,
                best_used,
                best_score,
                cut,
            )
            &&& j < len ==> best.last() == perm[j]
        }),
    ensures
        walk_ok(input, spliced(perm, i, j, best), best_used),
{
    let len = perm.len() as int;
    let hi = if j < len { j } else { len };
    let hi2 = if j + 1 < len { j + 1 } else { len };
    let cut = if j < len { 1int } else { 0int };
    let used1 = marked(input, used, perm, i + 1, hi, false);
    let h = best.len() as int;
    let nw = spliced(perm, i, j, best);
    let a = perm.subrange(0, i);
    let c = perm.subrange(hi2, len);
    assert(nw == a + best + c);
    assert(nw.len() == i + h + (len - hi2));
    assert(best[0] == seq![perm[i]][0]) by {
        assert(best.subrange(0, 1)[0] == best[0]);
    }
    assert(0 <= perm[0].x < N && 0 <= perm[0].y < N);
    assert(input.tile@[perm[0].x as int]@[perm[0].y as int] < input.m);
    lemma_marked_at(input, used, perm, i + 1, hi, false, tile_of(input, perm[0]));
    // where each cell of the new walk comes from
    assert forall|k: int| 0 <= k < nw.len() implies {
        let o = #[trigger] splice_origin(i, j, hi2, h, cut, k);
        &&& o >= 0 ==> 0 <= o < len && !(i + 1 <= o < hi) && nw[k] == perm[o]
        &&& o < 0 ==> 1 <= k - i < h - cut && nw[k] == best[k - i]
    } by {
        if k < i {
            assert(nw[k] == a[k]);
        } else if k < i + h {
            assert(nw[k] == best[k - i]);
        } else {
            assert(nw[k] == c[k - i - h]);
        }
    }
    // origins rise along the walk
    assert forall|k1: int, k2: int|
        0 <= k1 < k2 < nw.len() && #[trigger] splice_origin(i, j, hi2, h, cut, k1) >= 0 && #[trigger] splice_origin(
            i,
            j,
            hi2,
            h,
            cut,
            k2,
        ) >= 0 implies splice_origin(i, j, hi2, h, cut, k1) < splice_origin(i, j, hi2, h, cut, k2) by {}
    // the tiles of the fresh cells
    assert forall|k: int| 1 <= k < h - cut implies !used1[#[trigger] tile_of(input, best[k])] && forall|k0: int|
        1 <= k0 < k ==> #[trigger] tile_of(input, best[k0]) != tile_of(input, best[k]) by {
        assert(!marked(input, used1, best, 1, k, true)[tile_of(input, best[k])]);
        assert(0 <= best[k].x < N && 0 <= best[k].y < N);
        assert(input.tile@[best[k].x as int]@[best[k].y as int] < input.m);
        lemma_freed(input, perm, used, i + 1, hi, tile_of(input, best[k]));
        lemma_marked_at(input, used1, best, 1, k, true, tile_of(input, best[k]));
        if exists|k0: int| 1 <= k0 < k && #[trigger] tile_of(input, best[k0]) == tile_of(input, best[k]) {
            assert(exists|k0: int| 1 <= k0 < k && #[trigger] tile_of(input, best[k0]) == tile_of(input, best[k]));
        }
    }
    // on the board
    assert forall|k: int| 0 <= k < nw.len() implies 0 <= (#[trigger] nw[k]).x < N && 0 <= nw[k].y < N by {
        let o = splice_origin(i, j, hi2, h, cut, k);
        if o < 0 {
            assert(nw[k] == best[k - i]);
        } else {
            assert(nw[k] == perm[o]);
        }
    }
    // steps
    assert forall|k: int| 0 <= k && k + 1 < nw.len() implies #[trigger] adjacent(nw[k], nw[k + 1]) by {
        if k + 1 < i {
            assert(nw[k] == perm[k] && nw[k + 1] == perm[k + 1]);
            assert(adjacent(perm[k], perm[k + 1]));
        } else if k + 1 == i {
            assert(nw[k] == perm[k] && nw[k + 1] == best[0]);
            assert(adjacent(perm[k], perm[k + 1]));
        } else if k + 1 < i + h {
            assert(nw[k] == best[k - i] && nw[k + 1] == best[k - i + 1]);
            assert(adjacent(best[k - i], best[k - i + 1]));
        } else if k + 1 == i + h {
            assert(nw[k] == best[h - 1] && nw[k + 1] == c[0]);
            assert(best[h - 1] == perm[j]);
            assert(c[0] == perm[j + 1]);
            assert(adjacent(perm[j], perm[j + 1]));
        } else {
            let m = k - i - h;
            assert(nw[k] == c[m] && nw[k + 1] == c[m + 1]);
            assert(c[m] == perm[hi2 + m] && c[m + 1] == perm[hi2 + m + 1]);
            assert(adjacent(perm[hi2 + m], perm[hi2 + m + 1]));
        }
    }
    // no tile twice
    assert forall|k1: int, k2: int| 0 <= k1 < k2 < nw.len() implies #[trigger] tile_of(input, nw[k1])
        != #[trigger] tile_of(input, nw[k2]) by {
        let o1 = splice_origin(i, j, hi2, h, cut, k1);
        let o2 = splice_origin(i, j, hi2, h, cut, k2);
        if o1 >= 0 && o2 >= 0 {
            assert(tile_of(input, perm[o1]) != tile_of(input, perm[o2]));
        } else if o1 >= 0 {
            let t = tile_of(input, perm[o1]);
            assert(0 <= perm[o1].x < N && 0 <= perm[o1].y < N);
            assert(input.tile@[perm[o1].x as int]@[perm[o1].y as int] < input.m);
            lemma_freed(input, perm, used, i + 1, hi, t);
            assert(used1[t]);
            assert(!used1[tile_of(input, best[k2 - i])]);
        } else if o2 >= 0 {
            let t = tile_of(input, perm[o2]);
            assert(0 <= perm[o2].x < N && 0 <= perm[o2].y < N);
            assert(input.tile@[perm[o2].x as int]@[perm[o2].y as int] < input.m);
            lemma_freed(input, perm, used, i + 1, hi, t);
            assert(used1[t]);
            assert(!used1[tile_of(input, best[k1 - i])]);
        } else {
            assert(tile_of(input, best[k1 - i]) != tile_of(input, best[k2 - i]));
        }
    }
    // the marks are the tiles of the new walk
    assert forall|t: int| 0 <= t < input.m implies (#[trigger] best_used[t] <==> exists|k: int|
        0 <= k < nw.len() && #[trigger] tile_of(input, nw[k]) == t) by {
        lemma_freed(input, perm, used, i + 1, hi, t);
        lemma_marked_at(input, used1, best, 1, h - cut, true, t);
        if best_used[t] {
            if exists|k: int| 1 <= k < h - cut && #[trigger] tile_of(input, best[k]) == t {
                let k = choose|k: int| 1 <= k < h - cut && #[trigger] tile_of(input, best[k]) == t;
                assert(splice_origin(i, j, hi2, h, cut, i + k) < 0);
                assert(tile_of(input, nw[i + k]) == t);
            } else {
                assert(used1[t]);
                let o = choose|o: int| 0 <= o < len && !(i + 1 <= o < hi) && #[trigger] tile_of(input, perm[o]) == t;
                if o <= i {
                    assert(splice_origin(i, j, hi2, h, cut, o) == o);
                    assert(tile_of(input, nw[o]) == t);
                } else if o == j {
                    assert(splice_origin(i, j, hi2, h, cut, i + h - 1) == j);
                    assert(tile_of(input, nw[i + h - 1]) == t);
                } else {
                    let k = i + h + (o - hi2);
                    assert(splice_origin(i, j, hi2, h, cut, k) == o);
                    assert(tile_of(input, nw[k]) == t);
                }
            }
        }
        if exists|k: int| 0 <= k < nw.len() && #[trigger] tile_of(input, nw[k]) == t {
            let k = choose|k: int| 0 <= k < nw.len() && #[trigger] tile_of(input, nw[k]) == t;
            let o = splice_origin(i, j, hi2, h, cut, k);
            if o >= 0 {
                assert(tile_of(input, perm[o]) == t);
                assert(used1[t]);
            } else {
                assert(tile_of(input, best[k - i]) == t);
                assert(exists|k2: int| 1 <= k2 < h - cut && #[trigger] tile_of(input, best[k2]) == t);
            }
        }
    }
    lemma_marked_len(input, used1, best, 1, h - cut);
}

/// Marking again the tiles that were freed of a valid walk gives back its
/// marks: what `close_segment` does after `open_segment`.
pub proof fn lemma_refill_restores(input: &Input, perm: Seq<Pos>, used: Seq<bool>, lo: int, hi: int)
    requires
        input.wf(),
        walk_ok(input, perm, used),
        0 <= lo <= hi <= perm.len(),
    ensures
        marked(input, marked(input, used, perm, lo, hi, false), perm, lo, hi, true) == used,
{
    let u1 = marked(input, used, perm, lo, hi, false);
    let u2 = marked(input, u1, perm, lo, hi, true);
    if perm.len() > 0 {
        assert(0 <= perm[0].x < N && 0 <= perm[0].y < N);
        assert(input.tile@[perm[0].x as int]@[perm[0].y as int] < input.m);
        lemma_marked_at(input, used, perm, lo, hi, false, tile_of(input, perm[0]));
    } else {
        assert(u1 == used);
    }
    lemma_marked_len(input, u1, perm, lo, hi);
    assert forall|t: int| 0 <= t < used.len() implies u2[t] == used[t] by {
        lemma_marked_at(input, used, perm, lo, hi, false, t);
        lemma_marked_at(input, u1, perm, lo, hi, true, t);
        if exists|k: int| lo <= k < hi && #[trigger] tile_of(input, perm[k]) == t {
            let k = choose|k: int| lo <= k < hi && #[trigger] tile_of(input, perm[k]) == t;
            assert(exists|k2: int| 0 <= k2 < perm.len() && #[trigger] tile_of(input, perm[k2]) == t);
        }
    }
    assert(u2 =~= used);
}

/// A walk of distinct cells on the board has at most `N * N` cells.
pub proof fn lemma_distinct_cells_bound(perm: Seq<Pos>)
    requires
        on_board(perm),
        distinct_cells(perm),
    ensures
        perm.len() <= N * N,
{
    let idx: Seq<int> = Seq::new(perm.len(), |k: int| perm[k].x * (N as int) + perm[k].y);
    assert(idx.no_duplicates()) by {
        assert forall|a: int, b: int| 0 <= a < idx.len() && 0 <= b < idx.len() && a != b implies idx[a] != idx[b] by {
            assert(0 <= perm[a].x < N && 0 <= perm[a].y < N);
            assert(0 <= perm[b].x < N && 0 <= perm[b].y < N);
            if a < b {
                assert(perm[a] != perm[b]);
            } else {
                assert(perm[b] != perm[a]);
            }
        }
    }
    idx.unique_seq_to_set();
    let r = vstd::set_lib::set_int_range(0, (N * N) as int);
    assert(idx.to_set().subset_of(r)) by {
        assert forall|i: int| idx.to_set().contains(i) implies r.contains(i) by {
            assert(idx.contains(i));
            let k = choose|k: int| 0 <= k < idx.len() && idx[k] == i;
            assert(0 <= perm[k].x < N && 0 <= perm[k].y < N);
        }
    }
    vstd::set_lib::lemma_int_range(0, (N * N) as int);
    vstd::set_lib::lemma_len_subset(idx.to_set(), r);
}

/// A step in direction `d` from a cell of the board lands next to it.
pub proof fn lemma_step_adjacent(p: Pos, d: int)
    requires
        0 <= p.x < N,
        0 <= p.y < N,
        0 <= d < 4,
    ensures
        adjacent(p, Pos { x: (p.x + dir_step(d).x) as isize, y: (p.y + dir_step(d).y) as isize }),
{
}

/// Carrying the walk on by one fresh cell `q` and then on to `best` is
/// carrying it on to `best`.
pub proof fn lemma_walked_on_step(
    input: &Input,
    perm: Seq<Pos>,
    used: Seq<bool>,
    score: int,
    q: Pos,
    best: Seq<Pos>,
    best_used: Seq<bool>,
    best_score: int,
    cut: int,
)
    requires
        input.wf(),
        perm.len() >= 1,
        0 <= q.x < N,
        0 <= q.y < N,
        adjacent(perm.last(), q),
        !used[tile_of(input, q)],
        0 <= cut <= 1,
        best.len() > perm.len() + cut,
        walked_on(
            input,
            perm.push(q),
            used.update(tile_of(input, q), true),
            score + input.value@[q.x as int]@[q.y as int],
            best,
            best_used,
            best_score,
            cut,
        ),
    ensures
        walked_on(input, perm, used, score, best, best_used, best_score, cut),
{
    let l = perm.len() as int;
    let h = best.len() as int;
    let used1 = used.update(tile_of(input, q), true);
    assert(best.subrange(0, l + 1) == perm.push(q));
    assert(best[l] == q) by {
        assert(best.subrange(0, l + 1)[l] == perm.push(q)[l]);
    }
    assert(best.subrange(0, l) =~= perm) by {
        assert forall|k: int| 0 <= k < l implies best.subrange(0, l)[k] == perm[k] by {
            assert(best.subrange(0, l + 1)[k] == perm.push(q)[k]);
        }
    }
    assert(best[l - 1] == perm.last()) by {
        assert(best.subrange(0, l + 1)[l - 1] == perm.push(q)[l - 1]);
    }
    assert(steps_ok(best, l - 1)) by {
        assert forall|k: int| l - 1 <= k && k + 1 < best.len() implies #[trigger] adjacent(best[k], best[k + 1]) by {
            if k == l - 1 {
            }
        }
    }
    lemma_marked_first(input, used, best, l, h - cut, true);
    assert(fresh(input, used, best, l, h - cut)) by {
        assert forall|k: int| l <= k < h - cut implies !(#[trigger] marked(input, used, best, l, k, true))[tile_of(
            input,
            best[k],
        )] by {
            if k == l {
            } else {
                lemma_marked_first(input, used, best, l, k, true);
                assert(marked(input, used1, best, l + 1, k, true) == marked(input, used, best, l, k, true));
            }
        }
    }
    lemma_value_first(input, best, l, h);
}

/// The search for a new stretch of the walk: the stretch so far from its
/// first cell, the tiles in use, its value, the bar an ending stretch must
/// clear, the cell it must end at (none: it may end anywhere), the best
/// stretch found, the time after which it gives up, and whether it is done.
pub struct TileSearch {
    pub perm: Vec<Pos>,
    pub used_tile: Vec<bool>,
    pub score: isize,
    pub thre: isize,
    pub end: Option<Pos>,
    pub best_perm: Vec<Pos>,
    pub best_used_tile: Vec<bool>,
    pub best_score: isize,
    pub tl: u128,
    pub stop: bool,
}

/// The best stretch of `f` is that of `o`.
pub open spec fn same_best(o: TileSearch, f: TileSearch) -> bool {
    &&& f.best_perm@ == o.best_perm@
    &&& f.best_used_tile@ == o.best_used_tile@
    &&& f.best_score == o.best_score
}

/// Nothing of the search differs between `o` and `f`.
pub open spec fn same_search(o: TileSearch, f: TileSearch) -> bool {
    &&& same_best(o, f)
    &&& f.perm@ == o.perm@
    &&& f.used_tile@ == o.used_tile@
    &&& f.score == o.score
    &&& f.thre == o.thre
    &&& f.end == o.end
    &&& f.tl == o.tl
    &&& f.stop == o.stop
}

/// The direction of the step from `p` to `q`: 0 right, 1 down, 2 left,
/// 3 up.
pub open spec fn step_dir_of(p: Pos, q: Pos) -> int {
    if q.x == p.x && q.y == p.y + 1 {
        0
    } else if q.x == p.x + 1 && q.y == p.y {
        1
    } else if q.x == p.x && q.y == p.y - 1 {
        2
    } else {
        3
    }
}

/// A step between neighbouring cells of the board goes in one of the four
/// directions.
pub proof fn lemma_adjacent_dir(p: Pos, q: Pos)
    requires
        adjacent(p, q),
        0 <= p.x < N,
        0 <= p.y < N,
    ensures
        0 <= step_dir_of(p, q) < 4,
        q == next_cell(p, step_dir_of(p, q)),
{
}

/// No walk that carries `perm` on (with tiles `used` and value `score`)
/// over fresh tiles ends with more value than `b`.
pub open spec fn beats_all(input: &Input, perm: Seq<Pos>, used: Seq<bool>, score: int, b: int) -> bool {
    forall|w: Seq<Pos>, wu: Seq<bool>, ws: int| #[trigger] walked_on(input, perm, used, score, w, wu, ws, 0) ==> ws <= b
}

/// A walk that carries `perm` on by at least one cell takes a first step
/// to a neighbouring cell of a fresh tile, and from there carries on the
/// longer walk.
pub proof fn lemma_walked_on_first(
    input: &Input,
    perm: Seq<Pos>,
    used: Seq<bool>,
    score: int,
    w: Seq<Pos>,
    wu: Seq<bool>,
    ws: int,
)
    requires
        input.wf(),
        perm.len() >= 1,
        w.len() > perm.len(),
        walked_on(input, perm, used, score, w, wu, ws, 0),
    ensures
        ({
            let q = w[perm.len() as int];
            &&& 0 <= q.x < N
            &&& 0 <= q.y < N
            &&& adjacent(perm.last(), q)
            &&& !used[tile_of(input, q)]
            &&& walked_on(
                input,
                perm.push(q),
                used.update(tile_of(input, q), true),
                score + input.value@[q.x as int]@[q.y as int],
                w,
                wu,
                ws,
                0,
            )
        }),
{
    let l = perm.len() as int;
    let h = w.len() as int;
    let q = w[l];
    let used1 = used.update(tile_of(input, q), true);
    assert(w[l - 1] == perm.last()) by {
        assert(w.subrange(0, l)[l - 1] == w[l - 1]);
    }
    let k0 = l - 1;
    assert(adjacent(w[k0], w[k0 + 1]));
    assert(w.subrange(0, l + 1) =~= perm.push(q)) by {
        assert forall|k: int| 0 <= k < l implies w.subrange(0, l + 1)[k] == perm.push(q)[k] by {
            assert(w.subrange(0, l)[k] == w[k]);
        }
    }
    assert(!marked(input, used, w, l, l, true)[tile_of(input, w[l])]);
    assert(marked(input, used, w, l, l, true) == used);
    lemma_marked_first(input, used, w, l, h, true);
    assert(fresh(input, used1, w, l + 1, h)) by {
        assert forall|k: int| l + 1 <= k < h implies !(#[trigger] marked(input, used1, w, l + 1, k, true))[tile_of(
            input,
            w[k],
        )] by {
            lemma_marked_first(input, used, w, l, k, true);
            assert(!marked(input, used, w, l, k, true)[tile_of(input, w[k])]);
        }
    }
    lemma_value_first(input, w, l, h);
    assert(steps_ok(w, l));
}

/// The value of cell `p`.
pub open spec fn cell_value(input: &Input, p: Pos) -> int {
    input.value@[p.x as int]@[p.y as int] as int
}

/// The cell one step in direction `d` from `p`.
pub open spec fn next_cell(p: Pos, d: int) -> Pos {
    Pos { x: (p.x + dir_step(d).x) as isize, y: (p.y + dir_step(d).y) as isize }
}

/// Two rounds of the search from the same stretch: what the first found,
/// the second kept or bettered.
pub proof fn lemma_found_walk_chain(input: &Input, o: TileSearch, s1: TileSearch, s2: TileSearch)
    requires
        s1.perm@ == o.perm@,
        s1.used_tile@ == o.used_tile@,
        s1.score == o.score,
        s1.thre == o.thre,
        s1.end == o.end,
        same_best(o, s1) || found_walk(input, o, s1),
        same_best(s1, s2) || found_walk(input, s1, s2),
        o.end is Some && !same_best(o, s1) ==> s1.stop,
        s1.stop ==> s2.stop,
        o.end is Some && !same_best(s1, s2) ==> s2.stop,
    ensures
        same_best(o, s2) || found_walk(input, o, s2),
        o.end is Some && !same_best(o, s2) ==> s2.stop,
{
}

/// The best stretch of `f` carries the stretch of `o` on by at least one
/// cell: to `o`'s end over the bar, the search then done; or, with no end
/// set, anywhere past `o`'s best value.
pub open spec fn found_walk(input: &Input, o: TileSearch, f: TileSearch) -> bool {
    &&& f.best_perm@.len() > o.perm@.len()
    &&& match o.end {
        None => {
            &&& walked_on(input, o.perm@, o.used_tile@, o.score as int, f.best_perm@, f.best_used_tile@, f.best_score as int, 0)
            &&& f.best_score > o.best_score
        },
        Some(e) => {
            &&& walked_on(input, o.perm@, o.used_tile@, o.score as int, f.best_perm@, f.best_used_tile@, f.best_score as int, 1)
            &&& f.best_perm@.last() == e
            &&& f.best_score > o.thre
            &&& f.stop
        },
    }
}

impl TileSearch {
    /// The stretch so far: on the board, no cell twice, every tile of it
    /// marked, and its value within bounds.
    pub open spec fn search_ok(&self, input: &Input) -> bool {
        &&& input.wf()
        &&& self.perm@.len() >= 1
        &&& on_board(self.perm@)
        &&& distinct_cells(self.perm@)
        &&& self.used_tile@.len() == input.m
        &&& forall|k: int| 0 <= k < self.perm@.len() ==> #[trigger] self.used_tile@[tile_of(input, self.perm@[k])]
        &&& score_room(self.score as int, self.perm@.len() as int)
    }

    /// Walks on from the last cell of the stretch, trying the directions in
    /// a drawn order, into cells of fresh tiles (or the end cell), until the
    /// clock passes `tl` microseconds since `start`. Keeps the best stretch:
    /// the first to reach the end over the bar, which ends the search, or,
    /// with no end, each one of more value than the best so far. Leaves the
    /// stretch, its tiles and its value as they were.
    pub fn dfs(&mut self, input: &Input, mt: &mut rand_pcg::Mcg128Xsl64, orders: &DirOrders, start: &std::time::Instant)
        requires
            old(self).search_ok(input),
            orders.wf(),
        ensures
            final(self).perm@ == old(self).perm@,
            final(self).used_tile@ == old(self).used_tile@,
            final(self).score == old(self).score,
            final(self).thre == old(self).thre,
            final(self).end == old(self).end,
            final(self).tl == old(self).tl,
            old(self).stop ==> final(self).stop,
            same_best(*old(self), *final(self)) || found_walk(input, *old(self), *final(self)),
            old(self).end is None ==> final(self).best_score >= old(self).best_score,
        decreases N * N - old(self).perm@.len(), 1int,
    {
        proof {
            lemma_distinct_cells_bound(self.perm@);
        }
        let k = gen_index(mt, 0, orders.orders.len());
        let ghost o = *self;
        let mut di: usize = 0;
        while di < 4
            invariant
                orders.wf(),
                k < 24,
                o.search_ok(input),
                o.perm@.len() <= N * N,
                o.perm@.len() == old(self).perm@.len(),
                self.perm@ == o.perm@,
                self.used_tile@ == o.used_tile@,
                self.score == o.score,
                self.thre == o.thre,
                self.end == o.end,
                self.tl == o.tl,
                o.stop ==> self.stop,
                same_best(o, *self) || found_walk(input, o, *self),
                o.end is None ==> self.best_score >= o.best_score,
                !same_best(o, *self) && o.end is Some ==> self.stop,
            decreases 4 - di,
        {
            let now = elapsed_micros(start);
            let ghost s0 = *self;
            let go_on = self.step_dir(input, mt, orders, start, orders.orders[k][di], now);
            proof {
                lemma_found_walk_chain(input, o, s0, *self);
            }
            if !go_on {
                break;
            }
            di = di + 1;
        }
    }

    /// One direction `d` of the search from the last cell of the stretch,
    /// with the clock reading `now`: where the search is done or `now` is
    /// past `tl`, nothing changes and the search stops. Else the cell `q`
    /// one step in direction `d` is tried: off the board, or of a tile the
    /// stretch holds (and not the end), it changes nothing; the end cell
    /// becomes the best stretch, ending the search, where the value there
    /// passes the bar; a cell of a fresh tile with no end set becomes the
    /// best stretch where its value beats the best, and the search goes on
    /// from it. The stretch, its tiles and its value are left as they were.
    pub fn step_dir(
        &mut self,
        input: &Input,
        mt: &mut rand_pcg::Mcg128Xsl64,
        orders: &DirOrders,
        start: &std::time::Instant,
        d: usize,
        now: u128,
    ) -> (go_on: bool)
        requires
            old(self).search_ok(input),
            orders.wf(),
            d < 4,
        ensures
            final(self).perm@ == old(self).perm@,
            final(self).used_tile@ == old(self).used_tile@,
            final(self).score == old(self).score,
            final(self).thre == old(self).thre,
            final(self).end == old(self).end,
            final(self).tl == old(self).tl,
            old(self).stop ==> final(self).stop,
            same_best(*old(self), *final(self)) || found_walk(input, *old(self), *final(self)),
            old(self).end is None ==> final(self).best_score >= old(self).best_score,
            !same_best(*old(self), *final(self)) && old(self).end is Some ==> final(self).stop,
            go_on == !(old(self).stop || now > old(self).tl),
            !go_on ==> same_search(*old(self), *final(self)),
            go_on ==> {
                let q = next_cell(old(self).perm@.last(), d as int);
                let v = cell_value(input, q);
                &&& !(0 <= q.x < N && 0 <= q.y < N) ==> same_search(*old(self), *final(self))
                &&& (0 <= q.x < N && 0 <= q.y < N) ==> {
                    &&& old(self).end == Some(q) ==> if old(self).thre < old(self).score + v {
                        &&& final(self).best_perm@ == old(self).perm@.push(q)
                        &&& final(self).best_used_tile@ == old(self).used_tile@
                        &&& final(self).best_score == old(self).score + v
                        &&& final(self).stop
                    } else {
                        same_search(*old(self), *final(self))
                    }
                    &&& (old(self).end != Some(q) && old(self).used_tile@[tile_of(input, q)]) ==> same_search(
                        *old(self),
                        *final(self),
                    )
                    &&& (old(self).end is None && !old(self).used_tile@[tile_of(input, q)] && old(self).best_score
                        < old(self).score + v) ==> final(self).best_score >= old(self).score + v
                }
            },
        decreases N * N - old(self).perm@.len(), 0int,
    {
        proof {
            lemma_distinct_cells_bound(self.perm@);
        }
        if self.stop || now > self.tl {
            return false;
        }
        let ghost o = *self;
        let (step, _) = dir_of(d);
        let last = self.perm[self.perm.len() - 1];
        let q = last.sum(step);
        if q.is_valid() {
            proof {
                lemma_step_adjacent(last, d as int);
            }
            let v = input.get_value(q);
            let ghost l = self.perm@.len() as int;
            self.perm.push(q);
            self.score = self.score + v;
            let hit = match self.end {
                Some(e) => e == q,
                None => false,
            };
            if hit {
                if self.thre < self.score {
                    self.best_perm = self.perm.clone();
                    self.best_used_tile = self.used_tile.clone();
                    self.best_score = self.score;
                    self.stop = true;
                    proof {
                        assert(self.best_perm@ =~= o.perm@.push(q));
                        assert(self.best_used_tile@ =~= o.used_tile@);
                        let b = self.best_perm@;
                        assert(b.subrange(0, l) =~= o.perm@);
                        assert(value_sum(input, b, l, l + 1) == v) by {
                            assert(value_sum(input, b, l, l) == 0);
                        }
                        assert(on_board(b));
                        assert(steps_ok(b, l - 1));
                        assert(fresh(input, o.used_tile@, b, l, l));
                    }
                }
            } else {
                let t = input.get_tile(q);
                if !self.used_tile[t] {
                    self.used_tile.set(t, true);
                    let ghost used1 = self.used_tile@;
                    if self.end.is_none() && self.best_score < self.score {
                        self.best_perm = self.perm.clone();
                        self.best_used_tile = self.used_tile.clone();
                        self.best_score = self.score;
                        proof {
                            assert(self.best_perm@ =~= o.perm@.push(q));
                            let b = self.best_perm@;
                            assert(b.subrange(0, l) =~= o.perm@);
                            assert(value_sum(input, b, l, l + 1) == v) by {
                                assert(value_sum(input, b, l, l) == 0);
                            }
                            assert(b[l] == q);
                            assert(marked(input, o.used_tile@, b, l, l, true) == o.used_tile@);
                            assert(marked(input, o.used_tile@, b, l, l + 1, true) == used1);
                            assert(self.best_used_tile@ =~= used1);
                            assert(fresh(input, o.used_tile@, b, l, l + 1)) by {
                                assert forall|j: int| l <= j < l + 1 implies !(#[trigger] marked(
                                    input,
                                    o.used_tile@,
                                    b,
                                    l,
                                    j,
                                    true,
                                ))[tile_of(input, b[j])] by {
                                    assert(j == l);
                                    assert(b[j] == q);
                                }
                            }
                            assert(on_board(b));
                            assert(steps_ok(b, l - 1));
                        }
                    }
                    let ghost s1 = *self;
                    proof {
                        assert forall|a: int, b: int| 0 <= a < b < self.perm@.len() implies #[trigger] self.perm@[a]
                            != #[trigger] self.perm@[b] by {
                            if b == l {
                                assert(o.used_tile@[tile_of(input, o.perm@[a])]);
                            }
                        }
                        assert forall|j: int| 0 <= j < self.perm@.len() implies #[trigger] self.used_tile@[tile_of(
                            input,
                            self.perm@[j],
                        )] by {
                            if j < l {
                                assert(o.used_tile@[tile_of(input, o.perm@[j])]);
                            }
                        }
                        lemma_distinct_cells_bound(self.perm@);
                    }
                    self.dfs(input, mt, orders, start);
                    proof {
                        if !same_best(s1, *self) {
                            lemma_walked_on_step(
                                input,
                                o.perm@,
                                o.used_tile@,
                                o.score as int,
                                q,
                                self.best_perm@,
                                self.best_used_tile@,
                                self.best_score as int,
                                if o.end is None { 0int } else { 1int },
                            );
                        }
                    }
                    self.used_tile.set(t, false);
                    assert(self.used_tile@ =~= o.used_tile@);
                }
            }
            self.score = self.score - v;
            self.perm.pop();
            assert(self.perm@ =~= o.perm@);
        }
        true
    }
}

impl State {
    /// The walk can be searched on from: on the board, no cell twice, every
    /// tile of it marked, and its value within bounds.
    pub open spec fn search_ready(&self, input: &Input) -> bool {
        &&& input.wf()
        &&& self.perm@.len() >= 1
        &&& on_board(self.perm@)
        &&& distinct_cells(self.perm@)
        &&& self.used_tile@.len() == input.m
        &&& forall|k: int| 0 <= k < self.perm@.len() ==> #[trigger] self.used_tile@[tile_of(input, self.perm@[k])]
        &&& score_room(self.score as int, self.perm@.len() as int)
    }

    /// Walks on from the last cell, trying the directions in order, into
    /// cells of fresh tiles until the clock passes `tl` microseconds since
    /// `start`, and keeps in `best` each walk met of more value than it.
    /// Leaves the walk, its tiles and its value as they were.
    pub fn init_dfs(&mut self, input: &Input, best: &mut State, start: &std::time::Instant, tl: u128)
        requires
            old(self).search_ready(input),
        ensures
            final(self).perm@ == old(self).perm@,
            final(self).used_tile@ == old(self).used_tile@,
            final(self).score == old(self).score,
            final(best).score >= old(best).score,
            final(best).score >= old(self).score,
            (final(best).perm@ == old(best).perm@ && final(best).used_tile@ == old(best).used_tile@
                && final(best).score == old(best).score) || (walked_on(
                input,
                old(self).perm@,
                old(self).used_tile@,
                old(self).score as int,
                final(best).perm@,
                final(best).used_tile@,
                final(best).score as int,
                0,
            ) && final(best).score > old(best).score && distinct_cells(final(best).perm@)),
            tl == u128::MAX ==> beats_all(
                input,
                old(self).perm@,
                old(self).used_tile@,
                old(self).score as int,
                final(best).score as int,
            ),
        decreases N * N - old(self).perm@.len(),
    {
        proof {
            lemma_distinct_cells_bound(self.perm@);
        }
        let ghost o = *self;
        let ghost ob = *best;
        if best.score < self.score {
            *best = State { perm: self.perm.clone(), used_tile: self.used_tile.clone(), score: self.score };
            proof {
                let l = o.perm@.len() as int;
                assert(best.perm@ =~= o.perm@);
                assert(best.used_tile@ =~= o.used_tile@);
                assert(best.perm@.subrange(0, l) =~= o.perm@);
                assert(marked(input, o.used_tile@, best.perm@, l, l, true) == o.used_tile@);
                assert(value_sum(input, best.perm@, l, l) == 0);
                assert(steps_ok(best.perm@, l - 1));
                assert(fresh(input, o.used_tile@, best.perm@, l, l));
            }
        }
        let mut d: usize = 0;
        while d < 4
            invariant
                o.search_ready(input),
                o.perm@.len() <= N * N,
                o.perm@.len() == old(self).perm@.len(),
                self.perm@ == o.perm@,
                self.used_tile@ == o.used_tile@,
                self.score == o.score,
                best.score >= ob.score,
                best.score >= o.score,
                (best.perm@ == ob.perm@ && best.used_tile@ == ob.used_tile@ && best.score == ob.score) || (walked_on(
                    input,
                    o.perm@,
                    o.used_tile@,
                    o.score as int,
                    best.perm@,
                    best.used_tile@,
                    best.score as int,
                    0,
                ) && best.score > ob.score && distinct_cells(best.perm@)),
                ob == *old(best),
                d <= 4,
                tl == u128::MAX ==> forall|w: Seq<Pos>, wu: Seq<bool>, ws: int|
                    #[trigger] walked_on(input, o.perm@, o.used_tile@, o.score as int, w, wu, ws, 0) && w.len()
                        > o.perm@.len() && step_dir_of(o.perm@.last(), w[o.perm@.len() as int]) < d ==> ws
                        <= best.score,
            ensures
                self.perm@ == o.perm@,
                self.used_tile@ == o.used_tile@,
                self.score == o.score,
                best.score >= ob.score,
                best.score >= o.score,
                (best.perm@ == ob.perm@ && best.used_tile@ == ob.used_tile@ && best.score == ob.score) || (walked_on(
                    input,
                    o.perm@,
                    o.used_tile@,
                    o.score as int,
                    best.perm@,
                    best.used_tile@,
                    best.score as int,
                    0,
                ) && best.score > ob.score && distinct_cells(best.perm@)),
                tl == u128::MAX ==> forall|w: Seq<Pos>, wu: Seq<bool>, ws: int|
                    #[trigger] walked_on(input, o.perm@, o.used_tile@, o.score as int, w, wu, ws, 0) && w.len()
                        > o.perm@.len() ==> ws <= best.score,
            decreases 4 - d,
        {
            if elapsed_micros(start) > tl {
                break;
            }
            let (step, _) = dir_of(d);
            let last = self.perm[self.perm.len() - 1];
            let q = last.sum(step);
            let ghost bd = best.score;
            proof {
                assert(q == next_cell(o.perm@.last(), d as int));
            }
            if q.is_valid() {
                let t = input.get_tile(q);
                if !self.used_tile[t] {
                    proof {
                        lemma_step_adjacent(last, d as int);
                    }
                    let ghost l = self.perm@.len() as int;
                    let v = input.get_value(q);
                    self.used_tile.set(t, true);
                    self.perm.push(q);
                    self.score = self.score + v;
                    let ghost s1 = *self;
                    let ghost b1 = *best;
                    proof {
                        assert forall|a: int, b: int| 0 <= a < b < self.perm@.len() implies #[trigger] self.perm@[a]
                            != #[trigger] self.perm@[b] by {
                            if b == l {
                                assert(o.used_tile@[tile_of(input, o.perm@[a])]);
                            }
                        }
                        assert forall|j: int| 0 <= j < self.perm@.len() implies #[trigger] self.used_tile@[tile_of(
                            input,
                            self.perm@[j],
                        )] by {
                            if j < l {
                                assert(o.used_tile@[tile_of(input, o.perm@[j])]);
                            }
                        }
                        lemma_distinct_cells_bound(self.perm@);
                    }
                    self.init_dfs(input, best, start, tl);
                    proof {
                        if tl == u128::MAX {
                            assert forall|w: Seq<Pos>, wu: Seq<bool>, ws: int|
                                #[trigger] walked_on(input, o.perm@, o.used_tile@, o.score as int, w, wu, ws, 0) && w.len()
                                    > o.perm@.len() && step_dir_of(o.perm@.last(), w[o.perm@.len() as int]) == d
                                    implies ws <= best.score by {
                                lemma_walked_on_first(input, o.perm@, o.used_tile@, o.score as int, w, wu, ws);
                                let q2 = w[o.perm@.len() as int];
                                lemma_adjacent_dir(o.perm@.last(), q2);
                                assert(q2 == q);
                                assert(s1.perm@ == o.perm@.push(q));
                                assert(s1.used_tile@ == o.used_tile@.update(tile_of(input, q), true));
                                assert(walked_on(input, s1.perm@, s1.used_tile@, s1.score as int, w, wu, ws, 0));
                            }
                        }
                    }
                    proof {
                        if !(best.perm@ == b1.perm@ && best.used_tile@ == b1.used_tile@ && best.score == b1.score) {
                            lemma_walked_on_step(
                                input,
                                o.perm@,
                                o.used_tile@,
                                o.score as int,
                                q,
                                best.perm@,
                                best.used_tile@,
                                best.score as int,
                                0,
                            );
                        }
                    }
                    self.score = self.score - v;
                    self.perm.pop();
                    self.used_tile.set(t, false);
                    assert(self.perm@ =~= o.perm@);
                    assert(self.used_tile@ =~= o.used_tile@);
                }
            }
            proof {
                if tl == u128::MAX {
                    assert forall|w: Seq<Pos>, wu: Seq<bool>, ws: int|
                        #[trigger] walked_on(input, o.perm@, o.used_tile@, o.score as int, w, wu, ws, 0) && w.len()
                            > o.perm@.len() && step_dir_of(o.perm@.last(), w[o.perm@.len() as int]) < d + 1
                            implies ws <= best.score by {
                        if step_dir_of(o.perm@.last(), w[o.perm@.len() as int]) == d {
                            lemma_walked_on_first(input, o.perm@, o.used_tile@, o.score as int, w, wu, ws);
                            let q2 = w[o.perm@.len() as int];
                            lemma_adjacent_dir(o.perm@.last(), q2);
                            assert(q2 == q);
                        }
                    }
                }
            }
            d = d + 1;
        }
        proof {
            if tl == u128::MAX {
                assert forall|w: Seq<Pos>, wu: Seq<bool>, ws: int|
                    #[trigger] walked_on(input, o.perm@, o.used_tile@, o.score as int, w, wu, ws, 0) implies ws
                        <= best.score by {
                    if w.len() > o.perm@.len() {
                        lemma_walked_on_first(input, o.perm@, o.used_tile@, o.score as int, w, wu, ws);
                        lemma_adjacent_dir(o.perm@.last(), w[o.perm@.len() as int]);
                    } else {
                        assert(w.subrange(0, o.perm@.len() as int) == o.perm@);
                        assert(value_sum(input, w, o.perm@.len() as int, w.len() as int) == 0);
                    }
                }
            }
        }
    }

    /// Starts the walk at the start cell with its tile marked, and takes the
    /// best walk that a search from there meets before the clock passes `tl`
    /// microseconds since `start`.
    pub fn init_perm(&mut self, input: &Input, start: &std::time::Instant, tl: u128)
        requires
            input.wf(),
            0 <= input.start.x < N,
            0 <= input.start.y < N,
            old(self).used_tile@.len() == input.m,
            score_room(old(self).score as int, 1),
        ensures
            final(self).wf(input),
            distinct_cells(final(self).perm@),
            walked_on(
                input,
                seq![input.start],
                old(self).used_tile@.update(tile_of(input, input.start), true),
                old(self).score as int,
                final(self).perm@,
                final(self).used_tile@,
                final(self).score as int,
                0,
            ),
            tl == u128::MAX ==> beats_all(
                input,
                seq![input.start],
                old(self).used_tile@.update(tile_of(input, input.start), true),
                old(self).score as int,
                final(self).score as int,
            ),
    {
        self.perm = vec![input.start];
        let t = input.get_tile(input.start);
        self.used_tile.set(t, true);
        let mut best = State { perm: self.perm.clone(), used_tile: self.used_tile.clone(), score: self.score };
        let ghost o = *self;
        proof {
            assert(self.perm@ =~= seq![input.start]);
            assert(best.perm@ =~= o.perm@);
            assert(best.used_tile@ =~= o.used_tile@);
            assert(distinct_cells(o.perm@));
            assert(o.used_tile@[tile_of(input, o.perm@[0])]);
        }
        self.init_dfs(input, &mut best, start, tl);
        proof {
            if best.perm@ == o.perm@ && best.used_tile@ == o.used_tile@ && best.score == o.score {
                assert(best.perm@.subrange(0, 1) =~= o.perm@);
                assert(marked(input, o.used_tile@, best.perm@, 1, 1, true) == o.used_tile@);
                assert(value_sum(input, best.perm@, 1, 1) == 0);
                assert(steps_ok(best.perm@, 0));
                assert(fresh(input, o.used_tile@, best.perm@, 1, 1));
            }
            lemma_distinct_cells_bound(best.perm@);
            lemma_marked_len(input, o.used_tile@, best.perm@, 1, best.perm@.len() as int);
            assert(o.used_tile@ == old(self).used_tile@.update(tile_of(input, input.start), true));
        }
        *self = best;
    }
}

} // verus!
