use vstd::prelude::*;
use crate::beam::leaf::BeamState;

verus! {

/// The largest side a rectangle may have.
pub const MAX_SIDE: i64 = 100_000;

/// The most rectangles placed.
pub const MAX_RECTS: usize = 100;

/// The widest the strip may be.
pub const MAX_STRIP: i64 = 10_000_000;

/// A rectangle laid in a column: the band `x_left..x_right` across the
/// strip, ending at height `y`.
#[derive(Clone, Copy)]
pub struct ColumnPlaced {
    pub x_left: i64,
    pub x_right: i64,
    pub y: i64,
}

/// A rectangle to place, `h` across the strip and `w` along it unless turned.
#[derive(Clone, Copy)]
pub struct Rect {
    pub w: i64,
    pub h: i64,
}

impl Rect {
    /// The extent across the strip and the extent along it, turned or not.
    pub fn get(&self, rot: bool) -> (r: (i64, i64))
        ensures
            r == if rot { (self.w, self.h) } else { (self.h, self.w) },
    {
        if rot {
            (self.w, self.h)
        } else {
            (self.h, self.w)
        }
    }
}

/// Placing the next rectangle: where, turned or not, and everything needed
/// to take the placement back.
pub struct PackAction {
    pub col: usize,
    pub rot: bool,
    pub before_next_idx: Vec<(usize, usize)>,
    pub dead_space: i64,
    pub free_space: i64,
    pub next_max_y: i64,
    pub before_max_y: i64,
    pub dead_col_delta: usize,
    pub dead_line_delta: i64,
    pub before_next_dead_flag: (u64, u64),
    pub placed: ColumnPlaced,
}

impl Clone for PackAction {
    /// A copy of every field.
    fn clone(&self) -> (r: Self)
        ensures
            r.col == self.col,
            r.rot == self.rot,
            r.before_next_idx@ == self.before_next_idx@,
            r.dead_space == self.dead_space,
            r.free_space == self.free_space,
            r.next_max_y == self.next_max_y,
            r.before_max_y == self.before_max_y,
            r.dead_col_delta == self.dead_col_delta,
            r.dead_line_delta == self.dead_line_delta,
            r.before_next_dead_flag == self.before_next_dead_flag,
            r.placed == self.placed,
    {
        let mut idx: Vec<(usize, usize)> = Vec::new();
        let mut k: usize = 0;
        while k < self.before_next_idx.len()
            invariant
                k <= self.before_next_idx@.len(),
                idx@ == self.before_next_idx@.subrange(0, k as int),
            decreases self.before_next_idx@.len() - k,
        {
            idx.push(self.before_next_idx[k]);
            k = k + 1;
        }
        assert(idx@ =~= self.before_next_idx@);
        PackAction {
            col: self.col,
            rot: self.rot,
            before_next_idx: idx,
            dead_space: self.dead_space,
            free_space: self.free_space,
            next_max_y: self.next_max_y,
            before_max_y: self.before_max_y,
            dead_col_delta: self.dead_col_delta,
            dead_line_delta: self.dead_line_delta,
            before_next_dead_flag: self.before_next_dead_flag,
            placed: self.placed,
        }
    }
}

/// The beam-search state of the packing: rectangles laid in columns, the
/// first one of each column against the wall and the others against the
/// column before.
#[derive(Clone)]
pub struct PackState {
    pub turn: usize,
    pub max_x: i64,
    pub area_acc: Vec<i64>,
    pub max_y: i64,
    pub rects: Vec<Rect>,
    pub col_idx: Vec<usize>,
    pub col_placed: Vec<Vec<ColumnPlaced>>,
    pub dead_spaces: i64,
    pub free_spaces: i64,
    pub dead_col: usize,
    pub dead_line: i64,
    pub dead_flag: u64,
    pub sh: u64,
}

/// What placing and taking back change.
pub struct PackView {
    pub turn: int,
    pub max_y: int,
    pub col_idx: Seq<usize>,
    pub col_placed: Seq<Seq<ColumnPlaced>>,
    pub dead_spaces: int,
    pub free_spaces: int,
    pub dead_col: int,
    pub dead_line: int,
    pub dead_flag: u64,
    pub sh: int,
}

impl PackState {
    /// What placing and taking back change.
    pub open spec fn view(&self) -> PackView {
        PackView {
            turn: self.turn as int,
            max_y: self.max_y as int,
            col_idx: self.col_idx@,
            col_placed: self.col_placed@.map_values(|c: Vec<ColumnPlaced>| c@),
            dead_spaces: self.dead_spaces as int,
            free_spaces: self.free_spaces as int,
            dead_col: self.dead_col as int,
            dead_line: self.dead_line as int,
            dead_flag: self.dead_flag,
            sh: self.sh as int,
        }
    }
}

/// The placement `act` starts from the state `v`: it records what `v` holds
/// where it will overwrite it, and its column exists or comes next.
pub open spec fn fits(v: PackView, act: PackAction) -> bool {
    let k = act.before_next_idx@.len();
    &&& v.col_idx.len() == v.col_placed.len()
    &&& forall|c: int| 0 <= c < v.col_placed.len() ==> (#[trigger] v.col_placed[c]).len() > 0
    &&& act.col <= v.col_placed.len()
    &&& k <= act.col
    &&& forall|i: int|
        0 <= i < k ==> (#[trigger] act.before_next_idx@[i]).0 == v.col_idx[act.col - 1 - i]
    &&& act.before_max_y == v.max_y
    &&& act.before_next_dead_flag.0 == v.dead_flag
}

/// The column indices `ci` with the `pairs.len()` columns before `col`
/// rewritten, the nearest one first, each to the second element of its pair
/// when `take_new` holds and to the first otherwise.
pub open spec fn rewritten(ci: Seq<usize>, col: int, pairs: Seq<(usize, usize)>, take_new: bool) -> Seq<usize> {
    Seq::new(
        ci.len(),
        |c: int|
            if col - pairs.len() <= c < col {
                if take_new { pairs[col - 1 - c].1 } else { pairs[col - 1 - c].0 }
            } else {
                ci[c]
            },
    )
}

/// The state after placing `act`.
pub open spec fn placed_view(v: PackView, act: PackAction) -> PackView {
    let cp0 = if act.col == v.col_placed.len() { v.col_placed.push(Seq::empty()) } else { v.col_placed };
    let ci0 = if act.col == v.col_placed.len() { v.col_idx.push(0) } else { v.col_idx };
    PackView {
        turn: v.turn + 1,
        max_y: act.next_max_y as int,
        col_idx: rewritten(ci0, act.col as int, act.before_next_idx@, true),
        col_placed: cp0.update(act.col as int, cp0[act.col as int].push(act.placed)),
        dead_spaces: v.dead_spaces + act.dead_space,
        free_spaces: v.free_spaces + act.free_space,
        dead_col: v.dead_col + act.dead_col_delta,
        dead_line: v.dead_line + act.dead_line_delta,
        dead_flag: act.before_next_dead_flag.1,
        sh: if v.sh < u64::MAX { v.sh + 1 } else { 0 },
    }
}

/// The state after taking back `act`.
pub open spec fn unplaced_view(v: PackView, act: PackAction) -> PackView {
    let col = act.col as int;
    let shorter = v.col_placed[col].drop_last();
    let ci = rewritten(v.col_idx, col, act.before_next_idx@, false);
    let cp = v.col_placed.update(col, shorter);
    PackView {
        turn: v.turn - 1,
        max_y: act.before_max_y as int,
        col_idx: if shorter.len() == 0 { ci.drop_last() } else { ci },
        col_placed: if shorter.len() == 0 { cp.drop_last() } else { cp },
        dead_spaces: v.dead_spaces - act.dead_space,
        free_spaces: v.free_spaces - act.free_space,
        dead_col: v.dead_col - act.dead_col_delta,
        dead_line: v.dead_line - act.dead_line_delta,
        dead_flag: act.before_next_dead_flag.0,
        sh: v.sh,
    }
}

/// Taking back a placement right after making it restores the state, but for
/// the step counter that serves as hash, which only goes up.
pub proof fn lemma_unplace_undoes_place(v: PackView, act: PackAction)
    requires
        fits(v, act),
    ensures
        ({
            let b = unplaced_view(placed_view(v, act), act);
            b == PackView { sh: placed_view(v, act).sh, ..v }
        }),
{
    let p = placed_view(v, act);
    let b = unplaced_view(p, act);
    let col = act.col as int;
    if act.col == v.col_placed.len() {
        assert(p.col_placed[col] =~= seq![act.placed]);
        assert(b.col_placed =~= v.col_placed);
        assert(b.col_idx =~= v.col_idx);
    } else {
        assert(p.col_placed[col].drop_last() =~= v.col_placed[col]);
        assert(b.col_placed =~= v.col_placed);
        assert(b.col_idx =~= v.col_idx);
    }
}

/// Rewrites the indices of the columns before `col` from `pairs`, the
/// nearest column first.
fn rewrite_indices(col_idx: &mut Vec<usize>, col: usize, pairs: &Vec<(usize, usize)>, take_new: bool)
    requires
        pairs@.len() <= col < old(col_idx)@.len(),
    ensures
        final(col_idx)@ == rewritten(old(col_idx)@, col as int, pairs@, take_new),
{
    let k = pairs.len();
    let mut i: usize = 0;
    let ghost ci0 = col_idx@;
    while i < k
        invariant
            k == pairs@.len(),
            k <= col < ci0.len(),
            i <= k,
            col_idx@.len() == ci0.len(),
            forall|c: int|
                0 <= c < ci0.len() ==> #[trigger] col_idx@[c] == if col - i <= c < col {
                    if take_new { pairs@[col - 1 - c].1 } else { pairs@[col - 1 - c].0 }
                } else {
                    ci0[c]
                },
        decreases k - i,
    {
        let v = if take_new { pairs[i].1 } else { pairs[i].0 };
        col_idx.set(col - 1 - i, v);
        i = i + 1;
    }
    assert(col_idx@ =~= rewritten(ci0, col as int, pairs@, take_new));
}

/// The tallest height a state reaches.
pub const Y_LIMIT: i64 = 10_000_000;

/// How many rectangles the first `k` columns hold.
pub open spec fn placed_before(cols: Seq<Vec<ColumnPlaced>>, k: int) -> int
    decreases k,
{
    if k <= 0 {
        0
    } else {
        placed_before(cols, k - 1) + cols[k - 1]@.len()
    }
}

pub proof fn lemma_placed_before_mono(cols: Seq<Vec<ColumnPlaced>>, a: int, b: int)
    requires
        0 <= a <= b,
    ensures
        placed_before(cols, a) + (if a < b { cols[a]@.len() as int } else { 0 }) <= placed_before(cols, b),
        0 <= placed_before(cols, a),
    decreases b,
{
    if a < b {
        lemma_placed_before_mono(cols, a, b - 1);
    } else if a > 0 {
        lemma_placed_before_mono(cols, a - 1, a - 1);
    }
}

pub proof fn lemma_mul_bound(a: int, b: int, ab: int, bb: int)
    requires
        -ab <= a <= ab,
        0 <= b <= bb,
    ensures
        -(ab * bb) <= a * b <= ab * bb,
{
    assert(-(ab * bb) <= a * b <= ab * bb) by (nonlinear_arith)
        requires
            -ab <= a <= ab,
            0 <= b <= bb,
    ;
}

/// Where column `c` ends across the strip: the far edge of its last
/// rectangle, or the wall for a new column.
pub open spec fn column_end(cols: Seq<Vec<ColumnPlaced>>, c: int) -> i64 {
    if c < cols.len() { cols[c]@.last().x_right } else { 0 }
}

/// Column `c` is closed by the dead flags.
pub open spec fn flagged(flag: u64, c: int) -> bool {
    (1u64 << (c as u64)) & flag != 0
}

impl PackState {
    /// The state is within the limits the search is built for: every
    /// rectangle and every laid band within the strip and the height limit,
    /// at most `MAX_RECTS` rectangles laid in fewer than 64 columns, and a
    /// position in each column.
    pub open spec fn bounded(&self) -> bool {
        let cols = self.col_placed@;
        &&& self.rects@.len() <= MAX_RECTS
        &&& self.turn < self.rects@.len()
        &&& forall|i: int| 0 <= i < self.rects@.len() ==> 1 <= #[trigger] self.rects@[i].w <= MAX_SIDE && 1 <= self.rects@[i].h <= MAX_SIDE
        &&& 0 <= self.max_x <= MAX_STRIP
        &&& 0 <= self.max_y <= Y_LIMIT
        &&& 0 <= self.dead_line <= Y_LIMIT
        &&& cols.len() < 64
        &&& self.col_idx@.len() == cols.len()
        &&& placed_before(cols, cols.len() as int) <= MAX_RECTS
        &&& forall|c: int| 0 <= c < cols.len() ==> (#[trigger] cols[c])@.len() > 0 && self.col_idx@[c] <= cols[c]@.len()
        &&& forall|c: int, k: int|
            0 <= c < cols.len() && 0 <= k < cols[c]@.len() ==> {
                let p = #[trigger] cols[c]@[k];
                &&& 0 <= p.x_left <= self.max_x
                &&& 0 <= p.x_right <= self.max_x
                &&& 0 <= p.y <= Y_LIMIT
            }
    }
}

/// Column `c` with the turn `rot` may take the next rectangle: it is open
/// and the rectangle stays within the strip.
pub open spec fn admissible(st: &PackState, c: int, rot: bool) -> bool {
    let (h, w) = if rot { (st.rects@[st.turn as int].w, st.rects@[st.turn as int].h) } else { (
        st.rects@[st.turn as int].h,
        st.rects@[st.turn as int].w,
    ) };
    &&& st.dead_col <= c <= st.col_placed@.len()
    &&& !flagged(st.dead_flag, c)
    &&& column_end(st.col_placed@, c) + h <= st.max_x
}

/// `(c, r)` comes before `(c2, r2)`: an earlier column, or the unturned
/// rectangle first.
pub open spec fn choice_before(c: int, r: bool, c2: int, r2: bool) -> bool {
    c < c2 || (c == c2 && !r && r2)
}

/// What `next_acts` states of one placement.
pub open spec fn act_ok(st: &PackState, act: PackAction) -> bool {
    let c = act.col as int;
    let (h, w) = if act.rot { (st.rects@[st.turn as int].w, st.rects@[st.turn as int].h) } else { (
        st.rects@[st.turn as int].h,
        st.rects@[st.turn as int].w,
    ) };
    let x = column_end(st.col_placed@, c);
    &&& admissible(st, c, act.rot)
    &&& fits(st@, act)
    &&& act.placed.x_left == x
    &&& act.placed.x_right == x + h
    &&& act.placed.y >= w
    &&& act.next_max_y == if st.max_y < act.placed.y { act.placed.y } else { st.max_y }
    &&& act.free_space == (act.next_max_y - st.max_y) * st.max_x - h * w
    &&& c == 0 ==> {
        &&& act.placed.y == w
        &&& act.before_next_idx@.len() == 0
        &&& act.dead_space == 0
        &&& act.dead_col_delta == 0
        &&& act.dead_line_delta == 0
        &&& act.before_next_dead_flag == (st.dead_flag, st.dead_flag)
    }
    &&& c > 0 ==> swept_act_ok(st, act, x as int, h as int, w as int)
}

/// What `next_acts` states of a placement in a column after the first: it
/// rests on the tallest rectangle that the sweep back over the columns
/// before meets; the space under it that the sweep finds, and the band past
/// the last rectangle met up to its rest, are dead; the positions of the
/// columns swept move on and those swept through close; and where less than
/// 30000 of the strip remains beyond it, the columns up to it close and the
/// space beyond it from the dead line up to its top is dead too.
pub open spec fn swept_act_ok(st: &PackState, act: PackAction, x: int, h: int, w: int) -> bool {
    let c = act.col as int;
    let (cols, idxs, lim) = (st.col_placed@, st.col_idx@, x + h);
    let n = swept_cols(cols, idxs, c, lim);
    let my_y = swept_top(cols, idxs, c, lim, n);
    let last = swept_last(cols, idxs, c, lim, n);
    let under = dead_swept(cols, idxs, c, x, h, n).0 + (if last < lim { (lim - last) * my_y } else { 0 });
    let top = my_y + w;
    &&& act.placed.y == top
    &&& act.before_next_idx@.len() == n
    &&& forall|k: int|
        0 <= k < n ==> #[trigger] act.before_next_idx@[k] == (
            idxs[c - 1 - k],
            stop_idx(cols[c - 1 - k]@, idxs[c - 1 - k] as int, lim) as usize,
        )
    &&& act.before_next_dead_flag == (st.dead_flag, swept_flag(st.dead_flag, cols, idxs, c, lim, n))
    &&& if st.max_x - lim >= 30000 {
        &&& act.dead_space == under
        &&& act.dead_col_delta == 0
        &&& act.dead_line_delta == 0
    } else {
        &&& act.dead_space == under + (top - st.dead_line) * (st.max_x - lim)
        &&& act.dead_col_delta == c - st.dead_col + 1
        &&& act.dead_line_delta == top - st.dead_line
    }
}

/// The first rectangle from position `from` of column `col` that reaches
/// past `lim`, or the column's end.
pub open spec fn stop_idx(col: Seq<ColumnPlaced>, from: int, lim: int) -> int
    decreases col.len() - from,
{
    if from < 0 || from >= col.len() {
        col.len() as int
    } else if lim < col[from].x_right {
        from
    } else {
        stop_idx(col, from + 1, lim)
    }
}

/// Where the sweep stops looking in column `col` from `from`: just after
/// the rectangle that reaches past `lim`, or at the column's end.
pub open spec fn seen_end(col: Seq<ColumnPlaced>, from: int, lim: int) -> int {
    let s = stop_idx(col, from, lim);
    if s < col.len() { s + 1 } else { s }
}

/// How many columns the sweep back from column `c - 1` visits: up to and
/// including the first with a rectangle that reaches past `lim`.
pub open spec fn swept_cols(cols: Seq<Vec<ColumnPlaced>>, idxs: Seq<usize>, c: int, lim: int) -> int
    decreases c,
{
    if c <= 0 {
        0
    } else if stop_idx(cols[c - 1]@, idxs[c - 1] as int, lim) < cols[c - 1]@.len() {
        1
    } else {
        1 + swept_cols(cols, idxs, c - 1, lim)
    }
}

/// The greatest height among positions `from..to` of `col`, and `base`.
pub open spec fn top_y(col: Seq<ColumnPlaced>, from: int, to: int, base: int) -> int
    decreases to - from,
{
    if to <= from {
        base
    } else {
        let m = top_y(col, from, to - 1, base);
        if m < col[to - 1].y { col[to - 1].y as int } else { m }
    }
}

/// The greatest height the sweep back from column `c - 1` meets in its
/// first `k` columns, and 0.
pub open spec fn swept_top(cols: Seq<Vec<ColumnPlaced>>, idxs: Seq<usize>, c: int, lim: int, k: int) -> int
    decreases k,
{
    if k <= 0 {
        0
    } else {
        let r = c - k;
        top_y(cols[r]@, idxs[r] as int, seen_end(cols[r]@, idxs[r] as int, lim), swept_top(cols, idxs, c, lim, k - 1))
    }
}

/// The right edge of the last rectangle the sweep meets in its first `k`
/// columns, or 0.
pub open spec fn swept_last(cols: Seq<Vec<ColumnPlaced>>, idxs: Seq<usize>, c: int, lim: int, k: int) -> int
    decreases k,
{
    if k <= 0 {
        0
    } else {
        let r = c - k;
        let a = idxs[r] as int;
        let e = seen_end(cols[r]@, a, lim);
        if e > a { cols[r]@[e - 1].x_right as int } else { swept_last(cols, idxs, c, lim, k - 1) }
    }
}

/// `flag` with the bit of each of the first `k` swept columns set where
/// no rectangle of it reaches past `lim`.
pub open spec fn swept_flag(flag: u64, cols: Seq<Vec<ColumnPlaced>>, idxs: Seq<usize>, c: int, lim: int, k: int) -> u64
    decreases k,
{
    if k <= 0 {
        flag
    } else {
        let r = c - k;
        let f = swept_flag(flag, cols, idxs, c, lim, k - 1);
        if stop_idx(cols[r]@, idxs[r] as int, lim) == cols[r]@.len() { f | (1u64 << (r as usize)) } else { f }
    }
}

/// One step of the sweep over rectangle `p` beside the band `x..x + h`.
/// The state is the dead space so far, the width already dead, the width
/// under the current top, and that top.
pub open spec fn dead_step(st: (int, int, int, int), p: ColumnPlaced, x: int, h: int) -> (int, int, int, int) {
    let l: int = if x > p.x_left { x } else { p.x_left as int };
    let r: int = if x + h < p.x_right { x + h } else { p.x_right as int };
    if st.3 < p.y {
        (st.0 + (st.1 + st.2) * (p.y - st.3), st.1 + st.2, r - l, p.y as int)
    } else {
        (st.0 + (r - l) * (st.3 - p.y), st.1 + (r - l), st.2, st.3)
    }
}

/// The sweep's state after positions `from..to` of `col`, from `st`.
pub open spec fn dead_col(col: Seq<ColumnPlaced>, from: int, to: int, st: (int, int, int, int), x: int, h: int) -> (int, int, int, int)
    decreases to - from,
{
    if to <= from {
        st
    } else {
        dead_step(dead_col(col, from, to - 1, st, x, h), col[to - 1], x, h)
    }
}

/// The sweep's state after the first `k` columns it visits back from
/// column `c - 1`.
pub open spec fn dead_swept(cols: Seq<Vec<ColumnPlaced>>, idxs: Seq<usize>, c: int, x: int, h: int, k: int) -> (int, int, int, int)
    decreases k,
{
    if k <= 0 {
        (0, 0, 0, 0)
    } else {
        let r = c - k;
        let a = idxs[r] as int;
        dead_col(cols[r]@, a, seen_end(cols[r]@, a, x + h), dead_swept(cols, idxs, c, x, h, k - 1), x, h)
    }
}

/// What the sweep over the columns before a new rectangle finds.
pub struct Sweep {
    pub dead_space: i64,
    pub max_y: i64,
    pub before_next_idx: Vec<(usize, usize)>,
    pub next_dead_flag: u64,
    pub last_x_right: i64,
}

impl PackState {
    /// Walks back over the columns before `c`, from each column's position
    /// on, over the rectangles beside the band `x..x + h`: the height the
    /// new rectangle rests at, the space it leaves dead, the new positions,
    /// and the columns it closes.
    fn sweep(&self, c: usize, x: i64, h: i64) -> (r: Sweep)
        requires
            self.bounded(),
            1 <= c <= self.col_placed@.len(),
            0 <= x,
            1 <= h,
            x + h <= self.max_x,
        ensures
            r.before_next_idx@.len() <= c,
            forall|k: int|
                0 <= k < r.before_next_idx@.len() ==> (#[trigger] r.before_next_idx@[k]).0
                    == self.col_idx@[c - 1 - k],
            0 <= r.max_y <= Y_LIMIT,
            -1_000_000_000_000_000_000 <= r.dead_space <= 1_000_000_000_000_000_000,
            0 <= r.last_x_right <= self.max_x,
            ({
                let (cols, idxs, lim) = (self.col_placed@, self.col_idx@, x + h);
                let n = swept_cols(cols, idxs, c as int, lim);
                &&& r.before_next_idx@.len() == n
                &&& forall|k: int|
                    0 <= k < n ==> #[trigger] r.before_next_idx@[k] == (
                        idxs[c - 1 - k],
                        stop_idx(cols[c - 1 - k]@, idxs[c - 1 - k] as int, lim) as usize,
                    )
                &&& r.max_y == swept_top(cols, idxs, c as int, lim, n)
                &&& r.last_x_right == swept_last(cols, idxs, c as int, lim, n)
                &&& r.next_dead_flag == swept_flag(self.dead_flag, cols, idxs, c as int, lim, n)
                &&& r.dead_space == dead_swept(cols, idxs, c as int, x as int, h as int, n).0
            }),
    {
        let ghost cols = self.col_placed@;
        let ghost total = placed_before(cols, c as int);
        proof {
            lemma_placed_before_mono(cols, c as int, cols.len() as int);
        }
        let mut ref_c = c;
        let mut dead_space: i64 = 0;
        let mut dead_x: i64 = 0;
        let mut undead_x: i64 = 0;
        let mut my_y: i64 = 0;
        let mut before_next_idx: Vec<(usize, usize)> = Vec::new();
        let mut next_dead_flag = self.dead_flag;
        let mut last_x_right: i64 = 0;
        let ghost mut seen: int = 0;
        let mut done = false;
        while ref_c > 0 && !done
            invariant
                self.bounded(),
                cols == self.col_placed@,
                1 <= c <= cols.len(),
                ref_c <= c,
                0 <= x,
                1 <= h,
                x + h <= self.max_x,
                total == placed_before(cols, c as int),
                total <= MAX_RECTS,
                0 <= seen <= total - placed_before(cols, ref_c as int),
                before_next_idx@.len() == c - ref_c,
                forall|k: int|
                    0 <= k < before_next_idx@.len() ==> (#[trigger] before_next_idx@[k]).0
                        == self.col_idx@[c - 1 - k],
                0 <= my_y <= Y_LIMIT,
                -seen * 10_000_000 <= dead_x <= seen * 10_000_000,
                -10_000_000 <= undead_x <= 10_000_000,
                -seen * 10_000_000_000_000_000 <= dead_space <= seen * 10_000_000_000_000_000,
                0 <= last_x_right <= self.max_x,
                forall|k: int|
                    0 <= k < before_next_idx@.len() ==> #[trigger] before_next_idx@[k] == (
                        self.col_idx@[c - 1 - k],
                        stop_idx(cols[c - 1 - k]@, self.col_idx@[c - 1 - k] as int, x + h) as usize,
                    ),
                done ==> ref_c < c && stop_idx(cols[ref_c as int]@, self.col_idx@[ref_c as int] as int, x + h)
                    < cols[ref_c as int]@.len() && swept_cols(cols, self.col_idx@, c as int, x + h) == c - ref_c,
                !done ==> swept_cols(cols, self.col_idx@, c as int, x + h) == (c - ref_c) + swept_cols(
                    cols,
                    self.col_idx@,
                    ref_c as int,
                    x + h,
                ),
                my_y == swept_top(cols, self.col_idx@, c as int, x + h, c - ref_c),
                last_x_right == swept_last(cols, self.col_idx@, c as int, x + h, c - ref_c),
                next_dead_flag == swept_flag(self.dead_flag, cols, self.col_idx@, c as int, x + h, c - ref_c),
                (dead_space as int, dead_x as int, undead_x as int, my_y as int) == dead_swept(
                    cols,
                    self.col_idx@,
                    c as int,
                    x as int,
                    h as int,
                    c - ref_c,
                ),
            decreases ref_c,
        {
            ref_c = ref_c - 1;
            proof {
                lemma_placed_before_mono(cols, ref_c as int, c as int);
                lemma_placed_before_mono(cols, ref_c as int, ref_c + 1);
            }
            let col = &self.col_placed[ref_c];
            let mut idx = self.col_idx[ref_c];
            let ghost seen0 = seen;
            let ghost a0 = idx as int;
            let ghost y0 = my_y as int;
            let ghost l0 = last_x_right as int;
            let ghost st0 = (dead_space as int, dead_x as int, undead_x as int, my_y as int);
            let mut stop = false;
            while idx < col.len() && !stop
                invariant
                    self.bounded(),
                    cols == self.col_placed@,
                    ref_c < c <= cols.len(),
                    col@ == cols[ref_c as int]@,
                    0 <= x,
                    1 <= h,
                    x + h <= self.max_x,
                    total <= MAX_RECTS,
                    self.col_idx@[ref_c as int] <= idx <= col@.len(),
                    seen0 <= total - placed_before(cols, ref_c + 1),
                    placed_before(cols, ref_c + 1) == placed_before(cols, ref_c as int) + col@.len(),
                    0 <= placed_before(cols, ref_c as int),
                    0 <= seen0,
                    seen0 <= seen <= seen0 + idx + (if stop { 1int } else { 0int }),
                    stop ==> idx < col@.len(),
                    seen <= total - placed_before(cols, ref_c as int),
                    0 <= my_y <= Y_LIMIT,
                    -seen * 10_000_000 <= dead_x <= seen * 10_000_000,
                    -10_000_000 <= undead_x <= 10_000_000,
                    -seen * 10_000_000_000_000_000 <= dead_space <= seen * 10_000_000_000_000_000,
                    0 <= last_x_right <= self.max_x,
                    a0 == self.col_idx@[ref_c as int],
                    a0 <= idx,
                    stop_idx(col@, a0, x + h) == if stop { idx as int } else { stop_idx(col@, idx as int, x + h) },
                    stop ==> x + h < col@[idx as int].x_right,
                    my_y == top_y(col@, a0, idx + (if stop { 1int } else { 0int }), y0),
                    last_x_right == if idx + (if stop { 1int } else { 0int }) > a0 {
                        col@[idx + (if stop { 1int } else { 0int }) - 1].x_right as int
                    } else {
                        l0
                    },
                (dead_space as int, dead_x as int, undead_x as int, my_y as int) == dead_col(
                    col@,
                    a0,
                    idx + (if stop { 1int } else { 0int }),
                    st0,
                    x as int,
                    h as int,
                ),
                decreases col@.len() - idx, if stop { 0int } else { 1int },
            {
                proof {
                    seen = seen + 1;
                }
                let p = col[idx];
                assert(p == cols[ref_c as int]@[idx as int]);
                let l = if x > p.x_left { x } else { p.x_left };
                let r = if x + h < p.x_right { x + h } else { p.x_right };
                proof {
                    let pp = cols[ref_c as int]@[idx as int];
                    assert(0 <= pp.x_left <= self.max_x && 0 <= pp.x_right <= self.max_x && 0 <= pp.y
                        <= Y_LIMIT);
                    assert(seen <= 100);
                    assert(seen * 10_000_000 <= 1_000_000_000) by (nonlinear_arith)
                        requires
                            seen <= 100,
                    ;
                    if my_y < p.y {
                        lemma_mul_bound(dead_x + undead_x, p.y - my_y, seen * 10_000_000, 10_000_000);
                        assert((seen * 10_000_000) * 10_000_000 == seen * 100_000_000_000_000) by (nonlinear_arith);
                    } else {
                        assert(0 <= l <= self.max_x);
                        assert(0 <= r <= self.max_x);
                        assert(self.max_x <= 10_000_000);
                        lemma_mul_bound(r - l, my_y - p.y, 10_000_000, 10_000_000);
                    }
                }
                if my_y < p.y {
                    dead_x = dead_x + undead_x;
                    undead_x = r - l;
                    dead_space = dead_space + dead_x * (p.y - my_y);
                    my_y = p.y;
                } else {
                    dead_x = dead_x + (r - l);
                    dead_space = dead_space + (r - l) * (my_y - p.y);
                }
                last_x_right = p.x_right;
                if x + h < p.x_right {
                    stop = true;
                } else {
                    idx = idx + 1;
                }
            }
            before_next_idx.push((self.col_idx[ref_c], idx));
            if idx < col.len() {
                done = true;
            } else {
                next_dead_flag = next_dead_flag | (1u64 << ref_c);
            }
        }
        proof {
            lemma_placed_before_mono(cols, ref_c as int, ref_c as int);
            assert(seen <= 100);
            assert(seen * 10_000_000_000_000_000 <= 1_000_000_000_000_000_000) by (nonlinear_arith)
                requires
                    seen <= 100,
            ;
            assert(seen * 10_000_000_000_000_000 >= 0) by (nonlinear_arith)
                requires
                    seen >= 0,
            ;
        }
        Sweep { dead_space, max_y: my_y, before_next_idx, next_dead_flag, last_x_right }
    }
}

impl PackState {
    /// Places the next rectangle as `act` says.
    pub fn forward(&mut self, act: &PackAction)
        requires
            fits(old(self)@, *act),
            old(self).turn < usize::MAX,
            i64::MIN <= old(self).dead_spaces + act.dead_space <= i64::MAX,
            i64::MIN <= old(self).free_spaces + act.free_space <= i64::MAX,
            old(self).dead_col + act.dead_col_delta <= usize::MAX,
            i64::MIN <= old(self).dead_line + act.dead_line_delta <= i64::MAX,
        ensures
            final(self)@ == placed_view(old(self)@, *act),
            final(self).rects@ == old(self).rects@,
            final(self).area_acc@ == old(self).area_acc@,
            final(self).max_x == old(self).max_x,
    {
        self.dead_spaces = self.dead_spaces + act.dead_space;
        self.free_spaces = self.free_spaces + act.free_space;
        self.max_y = act.next_max_y;
        self.dead_col = self.dead_col + act.dead_col_delta;
        self.dead_line = self.dead_line + act.dead_line_delta;
        self.dead_flag = act.before_next_dead_flag.1;
        self.turn = self.turn + 1;
        self.sh = self.sh.wrapping_add(1);
        if act.col == self.col_placed.len() {
            self.col_placed.push(Vec::new());
            self.col_idx.push(0);
        }
        self.col_placed[act.col].push(act.placed);
        rewrite_indices(&mut self.col_idx, act.col, &act.before_next_idx, true);
        proof {
            let e = placed_view(old(self)@, *act);
            assert(self@.col_idx =~= e.col_idx);
            assert(self@.col_placed =~= e.col_placed);
        }
    }

    /// Takes back the placement `act`, the last one made.
    pub fn backward(&mut self, act: &PackAction)
        requires
            old(self).turn >= 1,
            act.col < old(self).col_placed@.len(),
            old(self).col_placed@[act.col as int]@.len() >= 1,
            old(self).col_idx@.len() == old(self).col_placed@.len(),
            act.before_next_idx@.len() <= act.col,
            i64::MIN <= old(self).dead_spaces - act.dead_space <= i64::MAX,
            i64::MIN <= old(self).free_spaces - act.free_space <= i64::MAX,
            old(self).dead_col >= act.dead_col_delta,
            i64::MIN <= old(self).dead_line - act.dead_line_delta <= i64::MAX,
        ensures
            final(self)@ == unplaced_view(old(self)@, *act),
            final(self).rects@ == old(self).rects@,
            final(self).area_acc@ == old(self).area_acc@,
            final(self).max_x == old(self).max_x,
    {
        self.turn = self.turn - 1;
        self.dead_spaces = self.dead_spaces - act.dead_space;
        self.free_spaces = self.free_spaces - act.free_space;
        self.max_y = act.before_max_y;
        self.dead_col = self.dead_col - act.dead_col_delta;
        self.dead_line = self.dead_line - act.dead_line_delta;
        self.dead_flag = act.before_next_dead_flag.0;
        rewrite_indices(&mut self.col_idx, act.col, &act.before_next_idx, false);
        self.col_placed[act.col].pop();
        if self.col_placed[act.col].len() == 0 {
            self.col_placed.pop();
            self.col_idx.pop();
        }
        proof {
            let e = unplaced_view(old(self)@, *act);
            assert(self@.col_idx =~= e.col_idx);
            assert(self@.col_placed =~= e.col_placed);
        }
    }

    /// The score: the dead space so far, plus the free space beyond what the
    /// remaining rectangles could fill.
    pub fn score(&self) -> (r: i64)
        requires
            self.turn < self.area_acc@.len(),
            i64::MIN <= self.free_spaces - self.dead_spaces <= i64::MAX,
            i64::MIN <= self.free_spaces - self.dead_spaces - self.area_acc@[self.turn as int] <= i64::MAX,
            ({
                let e = self.free_spaces - self.dead_spaces - self.area_acc@[self.turn as int];
                i64::MIN <= self.dead_spaces + (if e > 0 { e } else { 0 }) <= i64::MAX
            }),
        ensures
            ({
                let e = self.free_spaces - self.dead_spaces - self.area_acc@[self.turn as int];
                r == self.dead_spaces + if e > 0 { e } else { 0 }
            }),
    {
        let e = self.free_spaces - self.dead_spaces - self.area_acc[self.turn];
        self.dead_spaces + if e > 0 { e } else { 0 }
    }

    /// The hash: a counter of placements, so that no two states collide.
    pub fn hash(&self) -> (r: u64)
        ensures
            r == self.sh,
    {
        self.sh
    }
}

impl PackState {
    /// The placements of the next rectangle: for each open column from
    /// `dead_col` to a new one, unturned and then turned, where it stays
    /// within the strip. In a new first column it rests on the floor; else
    /// it rests against the columns before it (`sweep`), and where less than
    /// 30000 of the strip remains beyond it, the column closes and the space
    /// beyond it up to its top counts as dead.
    pub fn next_acts(&self) -> (acts: Vec<PackAction>)
        requires
            self.bounded(),
        ensures
            forall|k: int| 0 <= k < acts@.len() ==> act_ok(self, #[trigger] acts@[k]),
            forall|a: int, b: int|
                0 <= a < b < acts@.len() ==> choice_before(
                    (#[trigger] acts@[a]).col as int,
                    acts@[a].rot,
                    (#[trigger] acts@[b]).col as int,
                    acts@[b].rot,
                ),
            forall|c: int, rot: bool|
                admissible(self, c, rot) ==> exists|k: int|
                    0 <= k < acts@.len() && (#[trigger] acts@[k]).col == c && acts@[k].rot == rot,
    {
        let mut acts: Vec<PackAction> = Vec::new();
        let ncols = self.col_placed.len();
        if self.dead_col > ncols {
            return acts;
        }
        let mut c = self.dead_col;
        while c <= ncols
            invariant
                self.bounded(),
                ncols == self.col_placed@.len(),
                self.dead_col <= c,
                c <= ncols + 1,
                forall|k: int| 0 <= k < acts@.len() ==> act_ok(self, #[trigger] acts@[k]),
                forall|k: int| 0 <= k < acts@.len() ==> (#[trigger] acts@[k]).col < c,
                forall|a: int, b: int|
                    0 <= a < b < acts@.len() ==> choice_before(
                        (#[trigger] acts@[a]).col as int,
                        acts@[a].rot,
                        (#[trigger] acts@[b]).col as int,
                        acts@[b].rot,
                    ),
                forall|c2: int, rot: bool|
                    c2 < c && admissible(self, c2, rot) ==> exists|k: int|
                        0 <= k < acts@.len() && (#[trigger] acts@[k]).col == c2 && acts@[k].rot == rot,
            decreases ncols + 1 - c,
        {
            if (1u64 << c) & self.dead_flag == 0 {
                let mut ri: usize = 0;
                while ri < 2
                    invariant
                        self.bounded(),
                        ncols == self.col_placed@.len(),
                        self.dead_col <= c <= ncols,
                        !flagged(self.dead_flag, c as int),
                        ri <= 2,
                        forall|k: int| 0 <= k < acts@.len() ==> act_ok(self, #[trigger] acts@[k]),
                        forall|k: int|
                            0 <= k < acts@.len() ==> (#[trigger] acts@[k]).col < c || (acts@[k].col == c
                                && (acts@[k].rot as int) < ri),
                        forall|a: int, b: int|
                            0 <= a < b < acts@.len() ==> choice_before(
                                (#[trigger] acts@[a]).col as int,
                                acts@[a].rot,
                                (#[trigger] acts@[b]).col as int,
                                acts@[b].rot,
                            ),
                        forall|c2: int, rot: bool|
                            (c2 < c || (c2 == c && (rot as int) < ri)) && admissible(self, c2, rot)
                                ==> exists|k: int|
                                0 <= k < acts@.len() && (#[trigger] acts@[k]).col == c2 && acts@[k].rot
                                    == rot,
                    decreases 2 - ri,
                {
                    let r = ri == 1;
                    let (h, w) = self.rects[self.turn].get(r);
                    let x = if c < ncols {
                        let col = &self.col_placed[c];
                        col[col.len() - 1].x_right
                    } else {
                        0
                    };
                    proof {
                        if c < ncols {
                            let cols = self.col_placed@;
                            let last = cols[c as int]@.len() - 1;
                            assert(cols[c as int]@[last] == cols[c as int]@.last());
                            assert(0 <= cols[c as int]@[last].x_right <= self.max_x);
                        }
                        assert(x == column_end(self.col_placed@, c as int));
                    }
                    if x + h <= self.max_x {
                        let act = self.act_at(c, r, x, h, w);
                        let ghost before = acts@;
                        acts.push(act);
                        proof {
                            assert forall|c2: int, rot: bool|
                                (c2 < c || (c2 == c && (rot as int) < ri + 1)) && admissible(self, c2, rot)
                                    implies exists|k: int|
                                    0 <= k < acts@.len() && (#[trigger] acts@[k]).col == c2 && acts@[k].rot
                                        == rot by {
                                if c2 == c && rot == r {
                                    assert(acts@[before.len() as int].col == c2);
                                } else {
                                    let k = choose|k: int|
                                        0 <= k < before.len() && (#[trigger] before[k]).col == c2
                                            && before[k].rot == rot;
                                    assert(acts@[k] == before[k]);
                                }
                            }
                        }
                    } else {
                        proof {
                            assert(!admissible(self, c as int, r));
                        }
                    }
                    ri = ri + 1;
                }
            } else {
                proof {
                    assert forall|rot: bool| !admissible(self, c as int, rot) by {}
                }
            }
            c = c + 1;
        }
        acts
    }

    /// The placement of the next rectangle, `h` across and `w` along, turned
    /// or not, at `x` in column `c`.
    fn act_at(&self, c: usize, r: bool, x: i64, h: i64, w: i64) -> (act: PackAction)
        requires
            self.bounded(),
            self.dead_col <= c <= self.col_placed@.len(),
            !flagged(self.dead_flag, c as int),
            x == column_end(self.col_placed@, c as int),
            (h, w) == (if r { (self.rects@[self.turn as int].w, self.rects@[self.turn as int].h) } else { (
                self.rects@[self.turn as int].h,
                self.rects@[self.turn as int].w,
            ) }),
            0 <= x,
            x + h <= self.max_x,
        ensures
            act_ok(self, act),
            act.col == c,
            act.rot == r,
    {
        assert(1 <= h <= MAX_SIDE && 1 <= w <= MAX_SIDE);
        if c == 0 {
            let next_max_y = if self.max_y < w { w } else { self.max_y };
            proof {
                lemma_mul_bound(next_max_y - self.max_y, self.max_x as int, MAX_SIDE as int, MAX_STRIP as int);
                lemma_mul_bound(h as int, w as int, MAX_SIDE as int, MAX_SIDE as int);
            }
            return PackAction {
                col: c,
                rot: r,
                before_next_idx: Vec::new(),
                dead_space: 0,
                free_space: (next_max_y - self.max_y) * self.max_x - h * w,
                before_max_y: self.max_y,
                next_max_y,
                dead_col_delta: 0,
                dead_line_delta: 0,
                before_next_dead_flag: (self.dead_flag, self.dead_flag),
                placed: ColumnPlaced { x_left: x, x_right: x + h, y: w },
            };
        }
        let sw = self.sweep(c, x, h);
        let mut dead_space = sw.dead_space;
        let my_y = sw.max_y;
        if sw.last_x_right < x + h {
            proof {
                lemma_mul_bound(x + h - sw.last_x_right, my_y as int, MAX_STRIP as int, Y_LIMIT as int);
            }
            dead_space = dead_space + (x + h - sw.last_x_right) * my_y;
        }
        let top = my_y + w;
        let next_max_y = if self.max_y < top { top } else { self.max_y };
        proof {
            lemma_mul_bound(next_max_y - self.max_y, self.max_x as int, 20_000_000, MAX_STRIP as int);
            lemma_mul_bound(h as int, w as int, MAX_SIDE as int, MAX_SIDE as int);
        }
        let free_space = (next_max_y - self.max_y) * self.max_x - h * w;
        if self.max_x - (x + h) >= 30000 {
            PackAction {
                col: c,
                rot: r,
                before_next_idx: sw.before_next_idx,
                before_max_y: self.max_y,
                next_max_y,
                dead_space,
                free_space,
                dead_col_delta: 0,
                dead_line_delta: 0,
                before_next_dead_flag: (self.dead_flag, sw.next_dead_flag),
                placed: ColumnPlaced { x_left: x, x_right: x + h, y: top },
            }
        } else {
            let line = self.dead_line;
            proof {
                lemma_mul_bound(top - line, self.max_x - (x + h), 20_000_000, MAX_STRIP as int);
            }
            dead_space = dead_space + (top - line) * (self.max_x - (x + h));
            let line = top;
            PackAction {
                col: c,
                rot: r,
                before_next_idx: sw.before_next_idx,
                before_max_y: self.max_y,
                next_max_y,
                dead_space,
                free_space,
                dead_col_delta: c - self.dead_col + 1,
                dead_line_delta: line - self.dead_line,
                before_next_dead_flag: (self.dead_flag, sw.next_dead_flag),
                placed: ColumnPlaced { x_left: x, x_right: x + h, y: top },
            }
        }
    }
}

/// The total area of the rectangles from `i` on.
pub open spec fn area_from(rects: Seq<Rect>, i: int) -> int
    decreases rects.len() - i,
{
    if i >= rects.len() || i < 0 {
        0
    } else {
        area_from(rects, i + 1) + rects[i].h * rects[i].w
    }
}

/// The total area of the rectangles from each position on, and zero past
/// the last.
pub fn suffix_areas(rects: &Vec<Rect>) -> (r: Vec<i64>)
    requires
        rects@.len() <= MAX_RECTS,
        forall|i: int| 0 <= i < rects@.len() ==> 1 <= #[trigger] rects@[i].w <= MAX_SIDE && 1 <= rects@[i].h <= MAX_SIDE,
    ensures
        r@.len() == rects@.len() + 1,
        forall|i: int| 0 <= i <= rects@.len() ==> #[trigger] r@[i] == area_from(rects@, i),
{
    let n = rects.len();
    let mut r: Vec<i64> = Vec::new();
    let mut k: usize = 0;
    while k <= n
        invariant
            k <= n + 1,
            n == rects@.len(),
            n <= MAX_RECTS,
            r@.len() == k,
            forall|i: int| 0 <= i < k ==> #[trigger] r@[i] == 0,
        decreases n + 1 - k,
    {
        r.push(0);
        k = k + 1;
    }
    let mut i = n;
    while i > 0
        invariant
            i <= n,
            n == rects@.len(),
            n <= MAX_RECTS,
            forall|a: int| 0 <= a < n ==> 1 <= #[trigger] rects@[a].w <= MAX_SIDE && 1 <= rects@[a].h <= MAX_SIDE,
            r@.len() == n + 1,
            forall|a: int| i <= a <= n ==> #[trigger] r@[a] == area_from(rects@, a),
            forall|a: int| i <= a <= n ==> 0 <= #[trigger] area_from(rects@, a) <= (n - a) * 10_000_000_000,
        decreases i,
    {
        i = i - 1;
        proof {
            lemma_mul_bound(rects@[i as int].h as int, rects@[i as int].w as int, MAX_SIDE as int, MAX_SIDE as int);
            assert(rects@[i as int].h * rects@[i as int].w >= 0) by (nonlinear_arith)
                requires
                    rects@[i as int].h >= 1,
                    rects@[i as int].w >= 1,
            ;
        }
        let v = r[i + 1] + rects[i].h * rects[i].w;
        r.set(i, v);
    }
    r
}

/// `act` can be placed on `v`: it fits, and the totals and the counters
/// stay in range before and after.
pub open spec fn can_place(v: PackView, act: PackAction) -> bool {
    &&& fits(v, act)
    &&& 0 <= v.turn < usize::MAX
    &&& 0 <= v.dead_col
    &&& i64::MIN <= v.dead_spaces <= i64::MAX
    &&& i64::MIN <= v.free_spaces <= i64::MAX
    &&& i64::MIN <= v.dead_line <= i64::MAX
    &&& i64::MIN <= v.dead_spaces + act.dead_space <= i64::MAX
    &&& i64::MIN <= v.free_spaces + act.free_space <= i64::MAX
    &&& v.dead_col + act.dead_col_delta <= usize::MAX
    &&& i64::MIN <= v.dead_line + act.dead_line_delta <= i64::MAX
}

/// `act`, the last placement, can be taken back from `v`.
pub open spec fn can_unplace(v: PackView, act: PackAction) -> bool {
    &&& v.turn >= 1
    &&& act.col < v.col_placed.len()
    &&& v.col_placed[act.col as int].len() >= 1
    &&& v.col_idx.len() == v.col_placed.len()
    &&& act.before_next_idx@.len() <= act.col
    &&& i64::MIN <= v.dead_spaces - act.dead_space <= i64::MAX
    &&& i64::MIN <= v.free_spaces - act.free_space <= i64::MAX
    &&& v.dead_col >= act.dead_col_delta
    &&& i64::MIN <= v.dead_line - act.dead_line_delta <= i64::MAX
}

/// A placement that can be made can be taken back once made.
pub proof fn lemma_place_then_unplace(v: PackView, act: PackAction)
    requires
        can_place(v, act),
    ensures
        can_unplace(placed_view(v, act), act),
{
    let p = placed_view(v, act);
    let ci0 = if act.col == v.col_placed.len() { v.col_idx.push(0) } else { v.col_idx };
    assert(p.col_idx.len() == ci0.len());
}

/// The score's terms stay in range, with a remaining area for the turn.
pub open spec fn score_fits(v: PackView, area: Seq<i64>) -> bool {
    let e = v.free_spaces - v.dead_spaces - area[v.turn];
    &&& 0 <= v.turn < area.len()
    &&& i64::MIN <= v.free_spaces - v.dead_spaces <= i64::MAX
    &&& i64::MIN <= e <= i64::MAX
    &&& i64::MIN <= v.dead_spaces + (if e > 0 { e } else { 0 }) <= i64::MAX
}

/// What the search reads of a packing state: the state but for its step
/// counter (which taking back does not roll back), the rectangles, the
/// remaining areas, the strip's width, and for each placement made through
/// the search whether it could be made.
pub type PackModel = (PackView, Seq<Rect>, Seq<i64>, i64, Seq<bool>);

/// The packing state as a search state.
pub struct PackSearch {
    pub st: PackState,
    pub placed: Vec<bool>,
}

impl PackSearch {
    /// A search from `st`, with nothing placed through it yet.
    pub fn new(st: PackState) -> (r: Self)
        ensures
            r.st == st,
            r.placed@ == Seq::<bool>::empty(),
    {
        PackSearch { st, placed: Vec::new() }
    }
}

impl PackState {
    /// Whether `act` can be placed (`can_place`).
    pub fn placeable(&self, act: &PackAction) -> (r: bool)
        ensures
            r == can_place(self@, *act),
    {
        let n = self.col_placed.len();
        if self.col_idx.len() != n || act.col > n || act.before_next_idx.len() > act.col
            || act.before_max_y != self.max_y || act.before_next_dead_flag.0 != self.dead_flag
            || self.turn == usize::MAX
        {
            return false;
        }
        let mut c: usize = 0;
        while c < n
            invariant
                n == self.col_placed@.len(),
                c <= n,
                forall|c2: int| 0 <= c2 < c ==> (#[trigger] self@.col_placed[c2]).len() > 0,
            decreases n - c,
        {
            if self.col_placed[c].len() == 0 {
                assert(self@.col_placed[c as int].len() == 0);
                return false;
            }
            c = c + 1;
        }
        let k = act.before_next_idx.len();
        let mut i: usize = 0;
        while i < k
            invariant
                k == act.before_next_idx@.len(),
                k <= act.col <= n,
                self.col_idx@.len() == n,
                i <= k,
                forall|i2: int| 0 <= i2 < i ==> (#[trigger] act.before_next_idx@[i2]).0 == self@.col_idx[act.col - 1 - i2],
            decreases k - i,
        {
            if act.before_next_idx[i].0 != self.col_idx[act.col - 1 - i] {
                return false;
            }
            i = i + 1;
        }
        let ds: i128 = self.dead_spaces as i128 + act.dead_space as i128;
        let fs: i128 = self.free_spaces as i128 + act.free_space as i128;
        let dl: i128 = self.dead_line as i128 + act.dead_line_delta as i128;
        let dc: u128 = self.dead_col as u128 + act.dead_col_delta as u128;
        i64::MIN as i128 <= ds && ds <= i64::MAX as i128 && i64::MIN as i128 <= fs && fs <= i64::MAX as i128
            && i64::MIN as i128 <= dl && dl <= i64::MAX as i128 && dc <= usize::MAX as u128
    }

    /// Whether `act` can be taken back (`can_unplace`).
    pub fn unplaceable(&self, act: &PackAction) -> (r: bool)
        ensures
            r == can_unplace(self@, *act),
    {
        let n = self.col_placed.len();
        if self.turn < 1 || act.col >= n || self.col_idx.len() != n || act.before_next_idx.len() > act.col {
            return false;
        }
        if self.col_placed[act.col].len() < 1 || self.dead_col < act.dead_col_delta {
            return false;
        }
        let ds: i128 = self.dead_spaces as i128 - act.dead_space as i128;
        let fs: i128 = self.free_spaces as i128 - act.free_space as i128;
        let dl: i128 = self.dead_line as i128 - act.dead_line_delta as i128;
        i64::MIN as i128 <= ds && ds <= i64::MAX as i128 && i64::MIN as i128 <= fs && fs <= i64::MAX as i128
            && i64::MIN as i128 <= dl && dl <= i64::MAX as i128
    }

    /// Whether the score's terms are in range (`score_fits`).
    pub fn score_in_range(&self) -> (r: bool)
        ensures
            r == score_fits(self@, self.area_acc@),
    {
        if self.turn >= self.area_acc.len() {
            return false;
        }
        let d: i128 = self.free_spaces as i128 - self.dead_spaces as i128;
        let e: i128 = d - self.area_acc[self.turn] as i128;
        let t: i128 = self.dead_spaces as i128 + if e > 0 { e } else { 0 };
        i64::MIN as i128 <= d && d <= i64::MAX as i128 && i64::MIN as i128 <= e && e <= i64::MAX as i128
            && i64::MIN as i128 <= t && t <= i64::MAX as i128
    }

    /// Whether the state is within the limits the search is built for
    /// (`bounded`).
    pub fn is_bounded(&self) -> (r: bool)
        ensures
            r == self.bounded(),
    {
        let nr = self.rects.len();
        if nr > MAX_RECTS || self.turn >= nr || self.max_x < 0 || self.max_x > MAX_STRIP || self.max_y < 0
            || self.max_y > Y_LIMIT || self.dead_line < 0 || self.dead_line > Y_LIMIT
            || self.col_placed.len() >= 64 || self.col_idx.len() != self.col_placed.len()
        {
            return false;
        }
        let mut i: usize = 0;
        while i < nr
            invariant
                nr == self.rects@.len(),
                i <= nr,
                forall|a: int| 0 <= a < i ==> 1 <= #[trigger] self.rects@[a].w <= MAX_SIDE && 1 <= self.rects@[a].h <= MAX_SIDE,
            decreases nr - i,
        {
            let r = self.rects[i];
            if r.w < 1 || r.w > MAX_SIDE || r.h < 1 || r.h > MAX_SIDE {
                return false;
            }
            i = i + 1;
        }
        let cols = &self.col_placed;
        let n = cols.len();
        let mut total: usize = 0;
        let mut c: usize = 0;
        while c < n
            invariant
                cols == &self.col_placed,
                n == cols@.len(),
                n < 64,
                self.col_idx@.len() == n,
                0 <= self.max_x <= MAX_STRIP,
                c <= n,
                total as int == placed_before(cols@, c as int),
                total <= MAX_RECTS,
                forall|c2: int| 0 <= c2 < c ==> (#[trigger] cols@[c2])@.len() > 0 && self.col_idx@[c2] <= cols@[c2]@.len(),
                forall|c2: int, k: int|
                    0 <= c2 < c && 0 <= k < cols@[c2]@.len() ==> {
                        let p = #[trigger] cols@[c2]@[k];
                        &&& 0 <= p.x_left <= self.max_x
                        &&& 0 <= p.x_right <= self.max_x
                        &&& 0 <= p.y <= Y_LIMIT
                    },
            decreases n - c,
        {
            let col = &cols[c];
            let m = col.len();
            if m == 0 || self.col_idx[c] > m || m > MAX_RECTS - total {
                proof {
                    if m > MAX_RECTS - total {
                        lemma_placed_before_mono(cols@, c + 1, n as int);
                    }
                }
                return false;
            }
            let mut k: usize = 0;
            while k < m
                invariant
                    c < n,
                    n == cols@.len(),
                    cols == &self.col_placed,
                    col@ == cols@[c as int]@,
                    m == col@.len(),
                    k <= m,
                    0 <= self.max_x <= MAX_STRIP,
                    forall|k2: int|
                        0 <= k2 < k ==> {
                            let p = #[trigger] col@[k2];
                            &&& 0 <= p.x_left <= self.max_x
                            &&& 0 <= p.x_right <= self.max_x
                            &&& 0 <= p.y <= Y_LIMIT
                        },
                decreases m - k,
            {
                let p = col[k];
                if p.x_left < 0 || p.x_left > self.max_x || p.x_right < 0 || p.x_right > self.max_x || p.y < 0 || p.y > Y_LIMIT {
                    proof {
                        assert(self.col_placed@[c as int]@[k as int] == p);
                    }
                    return false;
                }
                k = k + 1;
            }
            total = total + m;
            c = c + 1;
        }
        true
    }
}

impl BeamState for PackSearch {
    type Action = PackAction;
    type Model = PackModel;

    open spec fn model(&self) -> PackModel {
        (PackView { sh: 0, ..self.st@ }, self.st.rects@, self.st.area_acc@, self.st.max_x, self.placed@)
    }

    open spec fn ready(&self) -> bool {
        true
    }

    /// A placement that can be made is made and recorded as made; any
    /// other is recorded as skipped. The step counter is not part of the
    /// model.
    open spec fn model_forward(m: PackModel, act: PackAction) -> PackModel {
        if can_place(m.0, act) {
            (PackView { sh: m.0.sh, ..placed_view(m.0, act) }, m.1, m.2, m.3, m.4.push(true))
        } else {
            (m.0, m.1, m.2, m.3, m.4.push(false))
        }
    }

    /// The last placement recorded is taken back where it was made and can
    /// be taken back; the record shrinks.
    open spec fn model_backward(m: PackModel, act: PackAction) -> PackModel {
        if m.4.len() == 0 {
            m
        } else if m.4.last() && can_unplace(m.0, act) {
            (unplaced_view(m.0, act), m.1, m.2, m.3, m.4.drop_last())
        } else {
            (m.0, m.1, m.2, m.3, m.4.drop_last())
        }
    }

    /// Each listed placement fits the state.
    open spec fn acts_of(m: PackModel, acts: Vec<PackAction>) -> bool {
        forall|k: int| 0 <= k < acts@.len() ==> fits(m.0, #[trigger] acts@[k])
    }

    /// The state's score where its terms are in range, else 0.
    open spec fn model_score(m: PackModel) -> i64 {
        let v = m.0;
        let e = v.free_spaces - v.dead_spaces - m.2[v.turn];
        if score_fits(v, m.2) {
            (v.dead_spaces + if e > 0 { e } else { 0 }) as i64
        } else {
            0
        }
    }

    open spec fn spec_hash(&self) -> u64 {
        self.st.sh
    }

    proof fn lemma_backward_undoes(m: PackModel, act: PackAction) {
        if can_place(m.0, act) {
            let v = m.0;
            lemma_place_then_unplace(v, act);
            lemma_unplace_undoes_place(v, act);
            let f = PackView { sh: v.sh, ..placed_view(v, act) };
            assert(can_unplace(f, act));
            assert(unplaced_view(f, act) == PackView { sh: v.sh, ..unplaced_view(placed_view(v, act), act) });
            assert(m.4.push(true).drop_last() =~= m.4);
        } else {
            assert(m.4.push(false).drop_last() =~= m.4);
        }
    }

    fn forward(&mut self, act: &PackAction) {
        if self.st.placeable(act) {
            self.st.forward(act);
            self.placed.push(true);
        } else {
            self.placed.push(false);
        }
    }

    fn backward(&mut self, act: &PackAction) {
        match self.placed.pop() {
            Some(p) => {
                if p && self.st.unplaceable(act) {
                    self.st.backward(act);
                }
            },
            None => {},
        }
    }

    fn next_acts(&self) -> (r: Vec<PackAction>) {
        if self.st.is_bounded() {
            self.st.next_acts()
        } else {
            Vec::new()
        }
    }

    fn score(&self) -> (r: i64) {
        if self.st.score_in_range() {
            self.st.score()
        } else {
            0
        }
    }

    fn hash(&self) -> (r: u64) {
        self.st.hash()
    }
}

} // verus!
