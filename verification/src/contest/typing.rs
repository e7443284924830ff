use vstd::prelude::*;
use crate::random::pcg::{new_mt, gen_word};
use crate::beam::selector::BeamCandidate;
use crate::beam::ett::BeamState;

verus! {

/// The side of the keyboard grid.
pub const N: usize = 15;

/// The number of cells of the grid.
pub const CELLS: usize = 225;

/// The number of words.
pub const M: usize = 200;

/// The number of letters.
pub const LETTERS: usize = 26;

/// The cost taken for a typing not yet found.
pub const HALF: i32 = 1_073_741_823;

/// The longest word taken, so that every cost fits in an `i32`.
pub const MAX_WORD: usize = 1000;

/// Marks a typing that starts the word.
pub const NO_IDX: usize = usize::MAX;

pub open spec fn abs_int(x: int) -> int {
    if x < 0 { -x } else { x }
}

/// The cost of moving from cell `a` to cell `b` and typing there.
pub open spec fn move_cost(a: int, b: int) -> int {
    abs_int(a / (N as int) - b / (N as int)) + abs_int(a % (N as int) - b % (N as int)) + 1
}

/// `a` comes before `b`: a smaller cost, then a smaller index.
pub open spec fn lex_lt(a: (int, int), b: (int, int)) -> bool {
    a.0 < b.0 || (a.0 == b.0 && a.1 < b.1)
}

/// The least `(row[i].0 + move_cost(from[i], to), i)` over `i < n`, or `init`
/// where none is less; on a tie the earlier one stays.
pub open spec fn step_min(row: Seq<(i32, usize)>, from: Seq<usize>, to: int, n: int, init: (int, int)) -> (int, int)
    decreases n,
{
    if n <= 0 {
        init
    } else {
        let a = step_min(row, from, to, n - 1, init);
        let b = (row[n - 1].0 + move_cost(from[n - 1] as int, to), n - 1);
        if lex_lt(b, a) {
            b
        } else {
            a
        }
    }
}

pub proof fn lemma_move_cost_range(a: int, b: int)
    requires
        0 <= a < CELLS,
        0 <= b < CELLS,
    ensures
        1 <= move_cost(a, b) <= 29,
{
    assert(0 <= a / 15 < 15 && 0 <= b / 15 < 15);
    assert(0 <= a % 15 < 15 && 0 <= b % 15 < 15);
}

pub proof fn lemma_step_min_range(row: Seq<(i32, usize)>, from: Seq<usize>, to: int, n: int, init: (int, int), lo: int, hi: int)
    requires
        0 <= to < CELLS,
        n <= row.len(),
        n <= from.len(),
        forall|i: int| 0 <= i < n ==> #[trigger] from[i] < CELLS,
        forall|i: int| 0 <= i < n ==> lo <= #[trigger] row[i].0 <= hi,
        lo + 1 <= init.0,
        init.1 == NO_IDX as int || init.1 == 0,
    ensures
        lo + 1 <= step_min(row, from, to, n, init).0 <= (if init.0 > hi + 29 { init.0 } else { hi + 29 }),
        step_min(row, from, to, n, init) == init || 0 <= step_min(row, from, to, n, init).1 < n,
    decreases n,
{
    if n > 0 {
        lemma_step_min_range(row, from, to, n - 1, init, lo, hi);
        lemma_move_cost_range(from[n - 1] as int, to);
    }
}

/// The cost of moving from cell `a` to cell `b` and typing there.
pub fn move_cost_of(a: usize, b: usize) -> (r: i32)
    requires
        a < CELLS,
        b < CELLS,
    ensures
        r == move_cost(a as int, b as int),
{
    proof {
        lemma_move_cost_range(a as int, b as int);
    }
    let dr = if a / N < b / N { b / N - a / N } else { a / N - b / N };
    let dc = if a % N < b % N { b % N - a % N } else { a % N - b % N };
    (dr + dc + 1) as i32
}

/// The entries of a table of typings, as `(cost, index)` pairs.
pub open spec fn table_view(t: Seq<Vec<(i32, usize)>>) -> Seq<Seq<(i32, usize)>> {
    t.map_values(|r: Vec<(i32, usize)>| r@)
}

/// Every cost of the table lies in `lo..=hi`.
pub open spec fn costs_within(t: Seq<Seq<(i32, usize)>>, lo: int, hi: int) -> bool {
    forall|a: int, b: int| 0 <= a < t.len() && 0 <= b < t[a].len() ==> lo <= #[trigger] t[a][b].0 <= hi
}

/// The level of the typing table before a letter: for each way `si` to end
/// the word and each cell `to[j]` of the letter, the cheapest way on from
/// the cells `from` of the next letter, as `step_min` gives it.
pub open spec fn level_ok(prev: Seq<Seq<(i32, usize)>>, from: Seq<usize>, to: Seq<usize>, sz: int, init: (i32, usize), t: Seq<Seq<(i32, usize)>>) -> bool {
    &&& t.len() == sz
    &&& forall|si: int| 0 <= si < sz ==> (#[trigger] t[si]).len() == to.len()
    &&& forall|si: int, j: int|
        0 <= si < sz && 0 <= j < to.len() ==> {
            let m = step_min(prev[si], from, to[j] as int, from.len() as int, (init.0 as int, init.1 as int));
            &&& (#[trigger] t[si][j]).0 == m.0
            &&& t[si][j].1 == m.1
        }
}

fn cost_level(prev: &Vec<Vec<(i32, usize)>>, from: &Vec<usize>, to: &Vec<usize>, sz: usize, hi: i32, init: (i32, usize)) -> (t: Vec<Vec<(i32, usize)>>)
    requires
        prev@.len() == sz,
        forall|si: int| 0 <= si < sz ==> (#[trigger] prev@[si])@.len() == from@.len(),
        costs_within(table_view(prev@), 0, hi as int),
        HALF <= hi <= HALF + 29 * MAX_WORD,
        HALF <= init.0,
        init.1 == NO_IDX || init.1 == 0,
        forall|i: int| 0 <= i < from@.len() ==> #[trigger] from@[i] < CELLS,
        forall|j: int| 0 <= j < to@.len() ==> #[trigger] to@[j] < CELLS,
    ensures
        level_ok(table_view(prev@), from@, to@, sz as int, init, table_view(t@)),
        costs_within(table_view(t@), 0, if init.0 > hi + 29 { init.0 as int } else { hi + 29 }),
{
    let ghost pv = table_view(prev@);
    let mut t: Vec<Vec<(i32, usize)>> = Vec::new();
    let mut si: usize = 0;
    while si < sz
        invariant
            si <= sz,
            t@.len() == si,
            forall|a: int| 0 <= a < si ==> (#[trigger] t@[a])@.len() == to@.len(),
            forall|a: int, j: int| 0 <= a < si && 0 <= j < to@.len() ==> #[trigger] t@[a]@[j] == init,
        decreases sz - si,
    {
        let mut row: Vec<(i32, usize)> = Vec::new();
        let mut j: usize = 0;
        while j < to.len()
            invariant
                j <= to@.len(),
                row@.len() == j,
                forall|b: int| 0 <= b < j ==> #[trigger] row@[b] == init,
            decreases to@.len() - j,
        {
            row.push(init);
            j = j + 1;
        }
        t.push(row);
        si = si + 1;
    }
    let mut si: usize = 0;
    while si < sz
        invariant
            pv == table_view(prev@),
            prev@.len() == sz,
            forall|a: int| 0 <= a < sz ==> (#[trigger] prev@[a])@.len() == from@.len(),
            costs_within(pv, 0, hi as int),
            HALF <= hi <= HALF + 29 * MAX_WORD,
            HALF <= init.0,
            init.1 == NO_IDX || init.1 == 0,
            forall|i: int| 0 <= i < from@.len() ==> #[trigger] from@[i] < CELLS,
            forall|j: int| 0 <= j < to@.len() ==> #[trigger] to@[j] < CELLS,
            si <= sz,
            t@.len() == sz,
            forall|a: int| 0 <= a < sz ==> (#[trigger] t@[a])@.len() == to@.len(),
            forall|a: int, j: int| 0 <= a < si && 0 <= j < to@.len() ==> {
                let m = step_min(pv[a], from@, to@[j] as int, from@.len() as int, (init.0 as int, init.1 as int));
                &&& (#[trigger] t@[a]@[j]).0 == m.0
                &&& t@[a]@[j].1 == m.1
            },
            forall|a: int, j: int| si <= a < sz && 0 <= j < to@.len() ==> #[trigger] t@[a]@[j] == init,
        decreases sz - si,
    {
        let mut i: usize = 0;
        while i < from.len()
            invariant
                pv == table_view(prev@),
                prev@.len() == sz,
                forall|a: int| 0 <= a < sz ==> (#[trigger] prev@[a])@.len() == from@.len(),
                costs_within(pv, 0, hi as int),
                HALF <= hi <= HALF + 29 * MAX_WORD,
                HALF <= init.0,
                init.1 == NO_IDX || init.1 == 0,
                forall|i2: int| 0 <= i2 < from@.len() ==> #[trigger] from@[i2] < CELLS,
                forall|j: int| 0 <= j < to@.len() ==> #[trigger] to@[j] < CELLS,
                si < sz,
                i <= from@.len(),
                t@.len() == sz,
                forall|a: int| 0 <= a < sz ==> (#[trigger] t@[a])@.len() == to@.len(),
                forall|a: int, j: int| 0 <= a < si && 0 <= j < to@.len() ==> {
                    let m = step_min(pv[a], from@, to@[j] as int, from@.len() as int, (init.0 as int, init.1 as int));
                    &&& (#[trigger] t@[a]@[j]).0 == m.0
                    &&& t@[a]@[j].1 == m.1
                },
                forall|j: int| 0 <= j < to@.len() ==> {
                    let m = step_min(pv[si as int], from@, to@[j] as int, i as int, (init.0 as int, init.1 as int));
                    &&& (#[trigger] t@[si as int]@[j]).0 == m.0
                    &&& t@[si as int]@[j].1 == m.1
                },
                forall|a: int, j: int| si < a < sz && 0 <= j < to@.len() ==> #[trigger] t@[a]@[j] == init,
            decreases from@.len() - i,
        {
            let mut j: usize = 0;
            while j < to.len()
                invariant
                    pv == table_view(prev@),
                    prev@.len() == sz,
                    forall|a: int| 0 <= a < sz ==> (#[trigger] prev@[a])@.len() == from@.len(),
                    costs_within(pv, 0, hi as int),
                    HALF <= hi <= HALF + 29 * MAX_WORD,
                    HALF <= init.0,
                    init.1 == NO_IDX || init.1 == 0,
                    forall|i2: int| 0 <= i2 < from@.len() ==> #[trigger] from@[i2] < CELLS,
                    forall|j2: int| 0 <= j2 < to@.len() ==> #[trigger] to@[j2] < CELLS,
                    si < sz,
                    i < from@.len(),
                    j <= to@.len(),
                    t@.len() == sz,
                    forall|a: int| 0 <= a < sz ==> (#[trigger] t@[a])@.len() == to@.len(),
                    forall|a: int, j2: int| 0 <= a < si && 0 <= j2 < to@.len() ==> {
                        let m = step_min(pv[a], from@, to@[j2] as int, from@.len() as int, (init.0 as int, init.1 as int));
                        &&& (#[trigger] t@[a]@[j2]).0 == m.0
                        &&& t@[a]@[j2].1 == m.1
                    },
                    forall|j2: int| 0 <= j2 < to@.len() ==> {
                        let m = step_min(pv[si as int], from@, to@[j2] as int, if j2 < j { i + 1 } else { i as int }, (init.0 as int, init.1 as int));
                        &&& (#[trigger] t@[si as int]@[j2]).0 == m.0
                        &&& t@[si as int]@[j2].1 == m.1
                    },
                    forall|a: int, j2: int| si < a < sz && 0 <= j2 < to@.len() ==> #[trigger] t@[a]@[j2] == init,
                decreases to@.len() - j,
            {
                proof {
                    assert(pv[si as int] == prev@[si as int]@);
                    assert(0 <= pv[si as int][i as int].0 <= hi);
                    lemma_move_cost_range(from@[i as int] as int, to@[j as int] as int);
                }
                let c = prev[si][i].0 + move_cost_of(from[i], to[j]);
                let cur = t[si][j];
                if c < cur.0 || (c == cur.0 && i < cur.1) {
                    t[si].set(j, (c, i));
                }
                j = j + 1;
            }
            i = i + 1;
        }
        si = si + 1;
    }
    proof {
        let tv = table_view(t@);
        assert forall|a: int, b: int| 0 <= a < tv.len() && 0 <= b < tv[a].len() implies 0 <= #[trigger] tv[a][b].0 <= (if init.0 > hi + 29 { init.0 as int } else { hi + 29 }) by {
            lemma_step_min_range(pv[a], from@, to@[b] as int, from@.len() as int, (init.0 as int, init.1 as int), 0, hi as int);
        }
    }
    t
}

/// The least of `init` and the first `n` costs of `row`.
pub open spec fn row_min(row: Seq<(i32, usize)>, n: int, init: int) -> int
    decreases n,
{
    if n <= 0 {
        init
    } else {
        let a = row_min(row, n - 1, init);
        if (row[n - 1].0 as int) < a {
            row[n - 1].0 as int
        } else {
            a
        }
    }
}

/// The least of `init` and the costs of the first `r` rows of `t`.
pub open spec fn table_min(t: Seq<Seq<(i32, usize)>>, r: int, init: int) -> int
    decreases r,
{
    if r <= 0 {
        init
    } else {
        row_min(t[r - 1], t[r - 1].len() as int, table_min(t, r - 1, init))
    }
}

/// The cells holding each letter, in order, and each letter's cells valid.
pub open spec fn keys_ok(keys: Seq<Vec<usize>>) -> bool {
    &&& keys.len() == LETTERS
    &&& forall|c: int, i: int| 0 <= c < LETTERS && 0 <= i < keys[c]@.len() ==> #[trigger] keys[c]@[i] < CELLS
}

/// The cells of letter `word[s]`.
pub open spec fn cells_of(keys: Seq<Vec<usize>>, word: Seq<u8>, s: int) -> Seq<usize> {
    keys[word[s] as int]@
}

/// The typing tables of a word: `dp[s][si][j]` is the cheapest typing of
/// the letters after `s`, from the `j`-th cell of letter `s`, ending at the
/// `si`-th cell of the last letter, with the next cell taken.
pub open spec fn word_dp_ok(word: Seq<u8>, keys: Seq<Vec<usize>>, dp: Seq<Seq<Seq<(i32, usize)>>>) -> bool {
    let l = word.len() as int;
    let sz = cells_of(keys, word, l - 1).len() as int;
    &&& dp.len() == l
    &&& dp[l - 1].len() == sz
    &&& forall|si: int| 0 <= si < sz ==> (#[trigger] dp[l - 1][si]).len() == sz
    &&& forall|si: int, j: int|
        0 <= si < sz && 0 <= j < sz ==> #[trigger] dp[l - 1][si][j] == (if si == j { 0i32 } else { HALF }, NO_IDX)
    &&& forall|s: int|
        0 <= s < l - 1 ==> level_ok(
            #[trigger] dp[s + 1],
            cells_of(keys, word, s + 1),
            cells_of(keys, word, s),
            sz,
            (HALF, NO_IDX),
            dp[s],
        )
}

/// The cells of the grid, in order.
pub open spec fn all_cells() -> Seq<usize> {
    Seq::new(CELLS as nat, |k: int| k as usize)
}

/// The typing tables of a word, its cheapest typing from each cell of the
/// grid, and its cheapest typing overall.
pub fn word_tables(word: &Vec<u8>, keys: &Vec<Vec<usize>>) -> (r: (Vec<Vec<Vec<(i32, usize)>>>, Vec<Vec<(i32, usize)>>, i32))
    requires
        1 <= word@.len() <= MAX_WORD,
        forall|s: int| 0 <= s < word@.len() ==> (#[trigger] word@[s]) < LETTERS,
        keys_ok(keys@),
    ensures
        word_dp_ok(word@, keys@, r.0@.map_values(|t: Vec<Vec<(i32, usize)>>| table_view(t@))),
        level_ok(
            table_view(r.0@[0]@),
            cells_of(keys@, word@, 0),
            all_cells(),
            cells_of(keys@, word@, word@.len() - 1).len() as int,
            (i32::MAX, 0),
            table_view(r.1@),
        ),
        r.2 == table_min(table_view(r.0@[0]@), cells_of(keys@, word@, word@.len() - 1).len() as int, i32::MAX as int),
{
    let l = word.len();
    let last = &keys[word[l - 1] as usize];
    let sz = last.len();
    let ghost dview = |d: Seq<Vec<Vec<(i32, usize)>>>| d.map_values(|t: Vec<Vec<(i32, usize)>>| table_view(t@));
    // the last level: ending where it starts costs nothing
    let mut top: Vec<Vec<(i32, usize)>> = Vec::new();
    let mut si: usize = 0;
    while si < sz
        invariant
            si <= sz,
            top@.len() == si,
            forall|a: int| 0 <= a < si ==> (#[trigger] top@[a])@.len() == sz,
            forall|a: int, j: int| 0 <= a < si && 0 <= j < sz ==> #[trigger] top@[a]@[j] == (if a == j { 0i32 } else { HALF }, NO_IDX),
        decreases sz - si,
    {
        let mut row: Vec<(i32, usize)> = Vec::new();
        let mut j: usize = 0;
        while j < sz
            invariant
                j <= sz,
                si < sz,
                row@.len() == j,
                forall|b: int| 0 <= b < j ==> #[trigger] row@[b] == (if si == b { 0i32 } else { HALF }, NO_IDX),
            decreases sz - j,
        {
            row.push(if si == j { (0, NO_IDX) } else { (HALF, NO_IDX) });
            j = j + 1;
        }
        top.push(row);
        si = si + 1;
    }
    // the levels below, built from the last letter back to the first
    let mut levels: Vec<Vec<Vec<(i32, usize)>>> = Vec::new();
    levels.push(top);
    let mut s = l - 1;
    let mut hi: i32 = HALF;
    while s > 0
        invariant
            1 <= l <= MAX_WORD,
            l == word@.len(),
            forall|s2: int| 0 <= s2 < word@.len() ==> (#[trigger] word@[s2]) < LETTERS,
            keys_ok(keys@),
            sz == cells_of(keys@, word@, l - 1).len(),
            s < l,
            levels@.len() == l - s,
            hi == HALF + 29 * (l - 1 - s),
            costs_within(table_view(levels@.last()@), 0, hi as int),
            levels@.last()@.len() == sz,
            forall|a: int| 0 <= a < sz ==> (#[trigger] levels@.last()@[a])@.len() == cells_of(keys@, word@, s as int).len(),
            // levels[k] is the level of letter l - 1 - k
            forall|a: int| 0 <= a < sz ==> (#[trigger] table_view(levels@[0]@)[a]).len() == sz,
            forall|a: int, j: int| 0 <= a < sz && 0 <= j < sz ==> #[trigger] table_view(levels@[0]@)[a][j] == (if a == j { 0i32 } else { HALF }, NO_IDX),
            table_view(levels@[0]@).len() == sz,
            forall|k: int|
                0 <= k < levels@.len() - 1 ==> level_ok(
                    #[trigger] table_view(levels@[k]@),
                    cells_of(keys@, word@, l - 1 - k),
                    cells_of(keys@, word@, l - 2 - k),
                    sz as int,
                    (HALF, NO_IDX),
                    table_view(levels@[k + 1]@),
                ),
        decreases s,
    {
        let from = &keys[word[s] as usize];
        let to = &keys[word[s - 1] as usize];
        let next = cost_level(&levels[levels.len() - 1], from, to, sz, hi, (HALF, NO_IDX));
        proof {
            assert(levels@[levels@.len() - 1] == levels@.last());
        }
        let ghost nv = next@;
        assert forall|a: int| 0 <= a < sz implies (#[trigger] nv[a])@.len() == to@.len() by {
            assert(table_view(nv)[a] == nv[a]@);
        }
        levels.push(next);
        hi = hi + 29;
        s = s - 1;
    }
    // the levels in the order of the letters
    let mut dp: Vec<Vec<Vec<(i32, usize)>>> = Vec::new();
    let ghost lv = levels@;
    while levels.len() > 0
        invariant
            lv.len() == l,
            levels@.len() + dp@.len() == l,
            levels@ == lv.subrange(0, levels@.len() as int),
            forall|k: int| 0 <= k < dp@.len() ==> #[trigger] dp@[k] == lv[l - 1 - k],
        decreases levels@.len(),
    {
        let t = levels.pop().unwrap();
        dp.push(t);
    }
    proof {
        let dv = dp@.map_values(|t: Vec<Vec<(i32, usize)>>| table_view(t@));
        assert forall|s2: int| 0 <= s2 < l - 1 implies level_ok(
            #[trigger] dv[s2 + 1],
            cells_of(keys@, word@, s2 + 1),
            cells_of(keys@, word@, s2),
            sz as int,
            (HALF, NO_IDX),
            dv[s2],
        ) by {
            let k = l - 2 - s2;
            assert(dp@[s2 + 1] == lv[k]);
            assert(dp@[s2] == lv[k + 1]);
        }
        assert(dp@[l - 1] == lv[0]);
    }
    // the cheapest typing from every cell of the grid
    let mut cells: Vec<usize> = Vec::new();
    let mut k: usize = 0;
    while k < CELLS
        invariant
            k <= CELLS,
            cells@ == Seq::new(k as nat, |a: int| a as usize),
        decreases CELLS - k,
    {
        cells.push(k);
        k = k + 1;
        assert(cells@ =~= Seq::new(k as nat, |a: int| a as usize));
    }
    let first = &keys[word[0] as usize];
    proof {
        assert(dp@[0] == lv[l - 1]);
    }
    let move_dp = cost_level(&dp[0], first, &cells, sz, (HALF + 29 * (l - 1) as i32), (i32::MAX, 0));
    // the cheapest typing overall
    let mut base: i32 = i32::MAX;
    let d0 = &dp[0];
    let mut j: usize = 0;
    while j < sz
        invariant
            j <= sz,
            d0@.len() == sz,
            base == table_min(table_view(d0@), j as int, i32::MAX as int),
        decreases sz - j,
    {
        let row = &d0[j];
        let mut i: usize = 0;
        let ghost b0 = base;
        while i < row.len()
            invariant
                i <= row@.len(),
                base == row_min(row@, i as int, b0 as int),
            decreases row@.len() - i,
        {
            if row[i].0 < base {
                base = row[i].0;
            }
            i = i + 1;
        }
        assert(table_view(d0@)[j as int] == row@);
        j = j + 1;
    }
    (dp, move_dp, base)
}

/// The number the letters `d` spell in base 26, first letter highest.
pub open spec fn word_value(d: Seq<u8>) -> int
    decreases d.len(),
{
    if d.len() == 0 {
        0
    } else {
        word_value(d.drop_last()) * 26 + d.last()
    }
}

pub open spec fn pow26(k: nat) -> int
    decreases k,
{
    if k == 0 {
        1
    } else {
        26 * pow26((k - 1) as nat)
    }
}

pub proof fn lemma_value_prepend(x: u8, d: Seq<u8>)
    ensures
        word_value(seq![x] + d) == x * pow26(d.len()) + word_value(d),
    decreases d.len(),
{
    if d.len() > 0 {
        lemma_value_prepend(x, d.drop_last());
        assert((seq![x] + d).drop_last() =~= seq![x] + d.drop_last());
        assert((seq![x] + d).last() == d.last());
        let a = x * pow26((d.len() - 1) as nat);
        let b = word_value(d.drop_last());
        assert(x * pow26(d.len()) == 26 * a) by (nonlinear_arith)
            requires
                pow26(d.len()) == 26 * pow26((d.len() - 1) as nat),
                a == x * pow26((d.len() - 1) as nat),
        ;
        assert((a + b) * 26 == a * 26 + b * 26);
        let e = seq![x] + d;
        assert(word_value(e) == word_value(e.drop_last()) * 26 + e.last());
        assert(word_value(e.drop_last()) == a + b);
        assert(word_value(d) == b * 26 + d.last());
    } else {
        let e = seq![x] + d;
        assert(e =~= seq![x]);
        assert(e.drop_last() =~= Seq::<u8>::empty());
        assert(word_value(e) == word_value(e.drop_last()) * 26 + e.last());
    }
}

pub proof fn lemma_value_injective(d1: Seq<u8>, d2: Seq<u8>)
    requires
        d1.len() == d2.len(),
        forall|k: int| 0 <= k < d1.len() ==> #[trigger] d1[k] < 26,
        forall|k: int| 0 <= k < d2.len() ==> #[trigger] d2[k] < 26,
        word_value(d1) == word_value(d2),
    ensures
        d1 == d2,
    decreases d1.len(),
{
    if d1.len() > 0 {
        let q1 = word_value(d1.drop_last());
        let q2 = word_value(d2.drop_last());
        let r1 = d1.last() as int;
        let r2 = d2.last() as int;
        assert(q1 == q2 && r1 == r2) by (nonlinear_arith)
            requires
                q1 * 26 + r1 == q2 * 26 + r2,
                0 <= r1 < 26,
                0 <= r2 < 26,
        ;
        lemma_value_injective(d1.drop_last(), d2.drop_last());
        assert(d1 =~= d1.drop_last().push(d1.last()));
        assert(d2 =~= d2.drop_last().push(d2.last()));
    } else {
        assert(d1 =~= d2);
    }
}

pub proof fn lemma_value_bound(d: Seq<u8>)
    requires
        forall|k: int| 0 <= k < d.len() ==> #[trigger] d[k] < 26,
    ensures
        0 <= word_value(d) < pow26(d.len()),
    decreases d.len(),
{
    if d.len() > 0 {
        lemma_value_bound(d.drop_last());
        let q = word_value(d.drop_last());
        let p = pow26((d.len() - 1) as nat);
        assert(q * 26 + d.last() < 26 * p) by (nonlinear_arith)
            requires
                0 <= q < p,
                0 <= d.last() < 26,
        ;
        assert(q * 26 + d.last() >= 0) by (nonlinear_arith)
            requires
                0 <= q,
                0 <= d.last(),
        ;
    }
}

/// The last `l` letters of `a`, five letters long, start `b`.
pub open spec fn suffix_starts(a: Seq<u8>, b: Seq<u8>, l: int) -> bool {
    a.subrange(5 - l, 5) == b.subrange(0, l)
}

/// The longest overlap, up to five letters, of the end of the first five
/// letters of `a` with the start of `b`, or zero.
pub open spec fn overlap_upto(a: Seq<u8>, b: Seq<u8>, l: int) -> int
    decreases l,
{
    if l <= 0 {
        0
    } else if suffix_starts(a, b, l) {
        l
    } else {
        overlap_upto(a, b, l - 1)
    }
}

/// How many letters typed for word `a` serve as the start of word `b`:
/// the longest overlap of the end of `a` with the start of `b`, both at
/// least five letters long, compared as base-26 numbers.
pub fn shared_letters(a: &Vec<u8>, b: &Vec<u8>) -> (r: usize)
    requires
        5 <= a@.len(),
        5 <= b@.len(),
        forall|k: int| 0 <= k < a@.len() ==> #[trigger] a@[k] < 26,
        forall|k: int| 0 <= k < b@.len() ==> #[trigger] b@[k] < 26,
    ensures
        r == overlap_upto(a@, b@, 5),
{
    let mut r: usize = 0;
    let mut suf: u64 = 0;
    let mut pre: u64 = 0;
    let mut f: u64 = 1;
    let mut l: usize = 1;
    while l <= 5
        invariant
            5 <= a@.len(),
            5 <= b@.len(),
            forall|k: int| 0 <= k < a@.len() ==> #[trigger] a@[k] < 26,
            forall|k: int| 0 <= k < b@.len() ==> #[trigger] b@[k] < 26,
            1 <= l <= 6,
            f == pow26((l - 1) as nat),
            suf == word_value(a@.subrange(6 - l, 5)),
            pre == word_value(b@.subrange(0, l - 1)),
            r == overlap_upto(a@, b@, l - 1),
        decreases 6 - l,
    {
        proof {
            let ds = a@.subrange(6 - l, 5);
            let dp = b@.subrange(0, l - 1);
            lemma_value_bound(ds);
            lemma_value_bound(dp);
            lemma_value_prepend(a@[5 - l], ds);
            assert(a@.subrange(5 - l, 5) =~= seq![a@[5 - l]] + ds);
            assert(b@.subrange(0, l as int).drop_last() =~= dp);
            assert(pow26(0) == 1);
            assert(pow26(1) == 26);
            assert(pow26(2) == 676);
            assert(pow26(3) == 17576);
            assert(pow26(4) == 456976);
            assert(pow26(5) == 11881376);
            if l == 1 {
                assert(f == 1);
            } else if l == 2 {
                assert(f == 26);
            } else if l == 3 {
                assert(f == 676);
            } else if l == 4 {
                assert(f == 17576);
            } else {
                assert(f == 456976);
            }
            assert(a@[5 - l] * f <= 25 * 456976) by (nonlinear_arith)
                requires
                    a@[5 - l] < 26,
                    f <= 456976,
            ;
            assert(a@[5 - l] * f == a@[5 - l] * pow26(ds.len()));
            assert(f * (a@[5 - l] as u64) == a@[5 - l] * f) by (nonlinear_arith);
        }
        suf = suf + f * (a[5 - l] as u64);
        pre = pre * 26 + b[l - 1] as u64;
        f = f * 26;
        proof {
            let ds2 = a@.subrange(5 - l, 5);
            let dp2 = b@.subrange(0, l as int);
            assert(suf == word_value(ds2));
            assert(pre == word_value(dp2));
            assert(ds2.len() == dp2.len());
            if suf == pre {
                lemma_value_injective(ds2, dp2);
            }
        }
        if suf == pre {
            r = l;
        }
        l = l + 1;
    }
    r
}

/// A letter of the grid or of a word: `'A'` to `'Z'`.
pub open spec fn letter_ok(c: char) -> bool {
    'A' as u8 <= c as u8 && (c as u8) < 'A' as u8 + 26
}

/// The letter number of `c`, counted from `'A'`.
pub open spec fn letter_of(c: char) -> u8 {
    (c as u8 - 'A' as u8) as u8
}

/// The start cell, the letter of every cell, the words, the cells of each
/// letter in order, and each cell's place among the cells of its letter.
pub struct Input {
    pub start: usize,
    pub a: Vec<u8>,
    pub t: Vec<Vec<u8>>,
    pub k: Vec<Vec<usize>>,
    pub ik: Vec<usize>,
}

impl Input {
    /// The input is one this search is built for: a start cell, `M` words
    /// of five to `MAX_WORD` letters, and the cells of each letter, each
    /// cell once, with its place among them.
    pub open spec fn wf(&self) -> bool {
        &&& self.start < CELLS
        &&& self.a@.len() == CELLS
        &&& forall|p: int| 0 <= p < CELLS ==> #[trigger] self.a@[p] < LETTERS
        &&& self.t@.len() == M
        &&& forall|w: int| 0 <= w < M ==> 5 <= (#[trigger] self.t@[w])@.len() <= MAX_WORD
        &&& forall|w: int, s: int| 0 <= w < M && 0 <= s < self.t@[w]@.len() ==> #[trigger] self.t@[w]@[s] < LETTERS
        &&& keys_ok(self.k@)
        &&& self.ik@.len() == CELLS
        &&& forall|p: int| 0 <= p < CELLS ==> {
            let c = self.a@[p] as int;
            &&& (#[trigger] self.ik@[p]) < self.k@[c]@.len()
            &&& self.k@[c]@[self.ik@[p] as int] == p
        }
        &&& forall|c: int, i: int| 0 <= c < LETTERS && 0 <= i < self.k@[c]@.len() ==> self.a@[#[trigger] self.k@[c]@[i] as int] == c
        &&& forall|c: int, i: int, j: int| 0 <= c < LETTERS && 0 <= i < j < self.k@[c]@.len() ==> #[trigger] self.k@[c]@[i] < #[trigger] self.k@[c]@[j]
    }

    /// The input from the start cell, the grid's rows and the words.
    pub fn from_grid(si: usize, sj: usize, rows: &Vec<Vec<char>>, words: &Vec<Vec<char>>) -> (r: Input)
        requires
            si < N,
            sj < N,
            rows@.len() == N,
            forall|i: int| 0 <= i < N ==> (#[trigger] rows@[i])@.len() == N,
            forall|i: int, j: int| 0 <= i < N && 0 <= j < N ==> letter_ok(#[trigger] rows@[i]@[j]),
            words@.len() == M,
            forall|w: int| 0 <= w < M ==> 5 <= (#[trigger] words@[w])@.len() <= MAX_WORD,
            forall|w: int, s: int| 0 <= w < M && 0 <= s < words@[w]@.len() ==> letter_ok(#[trigger] words@[w]@[s]),
        ensures
            r.wf(),
            r.start == si * N + sj,
            forall|i: int, j: int| 0 <= i < N && 0 <= j < N ==> r.a@[i * N + j] == letter_of(#[trigger] rows@[i]@[j]),
            forall|w: int| 0 <= w < M ==> (#[trigger] r.t@[w])@ == words@[w]@.map_values(|c: char| letter_of(c)),
    {
        let mut a: Vec<u8> = Vec::new();
        let mut ik: Vec<usize> = Vec::new();
        let mut k: Vec<Vec<usize>> = Vec::new();
        let mut c: usize = 0;
        while c < LETTERS
            invariant
                c <= LETTERS,
                k@.len() == c,
                forall|x: int| 0 <= x < c ==> (#[trigger] k@[x])@.len() == 0,
            decreases LETTERS - c,
        {
            k.push(Vec::new());
            c = c + 1;
        }
        let mut p: usize = 0;
        while p < CELLS
            invariant
                rows@.len() == N,
                forall|i: int| 0 <= i < N ==> (#[trigger] rows@[i])@.len() == N,
                forall|i: int, j: int| 0 <= i < N && 0 <= j < N ==> letter_ok(#[trigger] rows@[i]@[j]),
                p <= CELLS,
                a@.len() == p,
                ik@.len() == p,
                k@.len() == LETTERS,
                forall|q: int| 0 <= q < p ==> #[trigger] a@[q] == letter_of(rows@[q / N as int]@[q % N as int]),
                forall|q: int| 0 <= q < p ==> #[trigger] a@[q] < LETTERS,
                forall|q: int| 0 <= q < p ==> {
                    let cc = a@[q] as int;
                    &&& (#[trigger] ik@[q]) < k@[cc]@.len()
                    &&& k@[cc]@[ik@[q] as int] == q
                },
                forall|x: int, i: int| 0 <= x < LETTERS && 0 <= i < k@[x]@.len() ==> #[trigger] k@[x]@[i] < p && a@[k@[x]@[i] as int] == x,
                forall|x: int, i: int, j: int| 0 <= x < LETTERS && 0 <= i < j < k@[x]@.len() ==> #[trigger] k@[x]@[i] < #[trigger] k@[x]@[j],
            decreases CELLS - p,
        {
            let ch = rows[p / N][p % N];
            assert(letter_ok(ch));
            let l = ch as u8 - 'A' as u8;
            let ghost k0 = k@;
            a.push(l);
            ik.push(k[l as usize].len());
            k[l as usize].push(p);
            proof {
                assert forall|x: int, i: int| 0 <= x < LETTERS && 0 <= i < k@[x]@.len() implies #[trigger] k@[x]@[i] < p + 1 && a@[k@[x]@[i] as int] == x by {
                    if x != l as int || i < k0[x]@.len() {
                        assert(k@[x]@[i] == k0[x]@[i]);
                    }
                }
                assert forall|x: int, i: int, j: int| 0 <= x < LETTERS && 0 <= i < j < k@[x]@.len() implies #[trigger] k@[x]@[i] < #[trigger] k@[x]@[j] by {
                    if x == l as int && j == k0[x]@.len() {
                        assert(k@[x]@[i] == k0[x]@[i]);
                    } else {
                        assert(k@[x]@[i] == k0[x]@[i] && k@[x]@[j] == k0[x]@[j]);
                    }
                }
                assert forall|q: int| 0 <= q < p + 1 implies {
                    let cc = a@[q] as int;
                    &&& (#[trigger] ik@[q]) < k@[cc]@.len()
                    &&& k@[cc]@[ik@[q] as int] == q
                } by {
                    if q < p {
                        let cc = a@[q] as int;
                        assert(k@[cc]@[ik@[q] as int] == k0[cc]@[ik@[q] as int]);
                    }
                }
            }
            p = p + 1;
        }
        let mut t: Vec<Vec<u8>> = Vec::new();
        let mut w: usize = 0;
        while w < words.len()
            invariant
                words@.len() == M,
                forall|w2: int, s: int| 0 <= w2 < M && 0 <= s < words@[w2]@.len() ==> letter_ok(#[trigger] words@[w2]@[s]),
                w <= M,
                t@.len() == w,
                forall|w2: int| 0 <= w2 < w ==> (#[trigger] t@[w2])@ == words@[w2]@.map_values(|c: char| letter_of(c)),
            decreases M - w,
        {
            let word = &words[w];
            let mut cs: Vec<u8> = Vec::new();
            let mut s2: usize = 0;
            while s2 < word.len()
                invariant
                    w < M,
                    word@ == words@[w as int]@,
                    forall|w2: int, s: int| 0 <= w2 < M && 0 <= s < words@[w2]@.len() ==> letter_ok(#[trigger] words@[w2]@[s]),
                    s2 <= word@.len(),
                    cs@ == word@.subrange(0, s2 as int).map_values(|c: char| letter_of(c)),
                decreases word@.len() - s2,
            {
                let ch = word[s2];
                assert(letter_ok(words@[w as int]@[s2 as int]));
                cs.push(ch as u8 - 'A' as u8);
                s2 = s2 + 1;
                assert(cs@ =~= word@.subrange(0, s2 as int).map_values(|c: char| letter_of(c)));
            }
            assert(word@.subrange(0, word@.len() as int) =~= word@);
            t.push(cs);
            w = w + 1;
        }
        let r = Input { start: si * N + sj, a, t, k, ik };
        proof {
            assert forall|i: int, j: int| 0 <= i < N && 0 <= j < N implies r.a@[i * N + j] == letter_of(#[trigger] rows@[i]@[j]) by {
                let q = i * N + j;
                assert(q / (N as int) == i && q % (N as int) == j) by (nonlinear_arith)
                    requires
                        q == i * 15 + j,
                        0 <= i < 15,
                        0 <= j < 15,
                ;
            }
            assert forall|w2: int, s: int| 0 <= w2 < M && 0 <= s < r.t@[w2]@.len() implies #[trigger] r.t@[w2]@[s] < LETTERS by {
                assert(letter_ok(words@[w2]@[s]));
            }
        }
        r
    }
}

/// Typing word `word` with its last letter at the `k_to`-th cell of that
/// letter, from the `k_from`-th cell of the letter it starts at, for `cost`
/// beyond the word's cheapest typing.
#[derive(Clone, Copy)]
pub struct Action {
    pub word: u8,
    pub pos: u8,
    pub k_from: u8,
    pub k_to: u8,
    pub cost: i16,
}

/// A move of the search with the cost and hash of the state it leads to.
#[derive(Clone, Copy)]
pub struct Candidate {
    pub act: Action,
    pub cost: i16,
    pub zob: u64,
}

/// The typing search state: the tables, and the words typed so far.
#[derive(Clone)]
pub struct State {
    pub move_cost: Vec<Vec<i32>>,
    pub dp: Vec<Vec<Vec<Vec<(i32, usize)>>>>,
    pub move_dp: Vec<Vec<Vec<(i32, usize)>>>,
    pub base_cost: Vec<i32>,
    pub sames: Vec<Vec<usize>>,
    pub t: Vec<Vec<u8>>,
    pub k: Vec<Vec<usize>>,
    pub ik: Vec<usize>,
    pub used_zob: Vec<u64>,
    pub pos_zob: Vec<u64>,
    pub word: usize,
    pub pos: usize,
    pub cost: i16,
    pub used: Vec<bool>,
    pub zob: u64,
    pub hist: Vec<(u8, u8)>,
}

/// The tables of word `w` as sequences.
pub open spec fn dp_view(d: Vec<Vec<Vec<(i32, usize)>>>) -> Seq<Seq<Seq<(i32, usize)>>> {
    d@.map_values(|t: Vec<Vec<(i32, usize)>>| table_view(t@))
}

impl State {
    /// The tables are those of the input: move costs, each word's typing
    /// tables and cheapest typings, and the overlaps of every two words.
    pub open spec fn tables_ok(&self, input: &Input) -> bool {
        &&& self.t@.map_values(|w: Vec<u8>| w@) == input.t@.map_values(|w: Vec<u8>| w@)
        &&& self.k@.map_values(|c: Vec<usize>| c@) == input.k@.map_values(|c: Vec<usize>| c@)
        &&& self.ik@ == input.ik@
        &&& self.move_cost@.len() == CELLS
        &&& forall|i: int| 0 <= i < CELLS ==> (#[trigger] self.move_cost@[i])@.len() == CELLS
        &&& forall|i: int, j: int| 0 <= i < CELLS && 0 <= j < CELLS ==> #[trigger] self.move_cost@[i]@[j] == move_cost(i, j)
        &&& self.dp@.len() == M
        &&& self.move_dp@.len() == M
        &&& self.base_cost@.len() == M
        &&& forall|w: int| 0 <= w < M ==> {
            let word = input.t@[w]@;
            let sz = cells_of(input.k@, word, word.len() - 1).len() as int;
            &&& word_dp_ok(word, input.k@, #[trigger] dp_view(self.dp@[w]))
            &&& level_ok(dp_view(self.dp@[w])[0], cells_of(input.k@, word, 0), all_cells(), sz, (i32::MAX, 0), table_view(self.move_dp@[w]@))
            &&& self.base_cost@[w] == table_min(dp_view(self.dp@[w])[0], sz, i32::MAX as int)
        }
        &&& self.sames@.len() == M
        &&& forall|i: int| 0 <= i < M ==> (#[trigger] self.sames@[i])@.len() == M
        &&& forall|i: int, j: int| 0 <= i < M && 0 <= j < M ==> #[trigger] self.sames@[i]@[j] == overlap_upto(input.t@[i]@, input.t@[j]@, 5)
        &&& self.used_zob@.len() == M
        &&& self.pos_zob@.len() == CELLS
    }

    /// The tables of `input`, with no word typed yet, at the start cell.
    pub fn new(input: &Input) -> (st: State)
        requires
            input.wf(),
        ensures
            st.tables_ok(input),
            st.word == 255,
            st.pos == input.start,
            st.cost == 0,
            st.used@ == Seq::new(M as nat, |w: int| false),
            st.zob == 0,
            st.hist@.len() == 0,
    {
        let mut costs: Vec<Vec<i32>> = Vec::new();
        let mut i: usize = 0;
        while i < CELLS
            invariant
                i <= CELLS,
                costs@.len() == i,
                forall|a: int| 0 <= a < i ==> (#[trigger] costs@[a])@.len() == CELLS,
                forall|a: int, b: int| 0 <= a < i && 0 <= b < CELLS ==> #[trigger] costs@[a]@[b] == move_cost(a, b),
            decreases CELLS - i,
        {
            let mut row: Vec<i32> = Vec::new();
            let mut j: usize = 0;
            while j < CELLS
                invariant
                    i < CELLS,
                    j <= CELLS,
                    row@.len() == j,
                    forall|b: int| 0 <= b < j ==> #[trigger] row@[b] == move_cost(i as int, b),
                decreases CELLS - j,
            {
                row.push(move_cost_of(i, j));
                j = j + 1;
            }
            costs.push(row);
            i = i + 1;
        }
        let mut all_dp: Vec<Vec<Vec<Vec<(i32, usize)>>>> = Vec::new();
        let mut all_move_dp: Vec<Vec<Vec<(i32, usize)>>> = Vec::new();
        let mut base_cost: Vec<i32> = Vec::new();
        let mut w: usize = 0;
        while w < M
            invariant
                input.wf(),
                w <= M,
                all_dp@.len() == w,
                all_move_dp@.len() == w,
                base_cost@.len() == w,
                forall|x: int| 0 <= x < w ==> {
                    let word = input.t@[x]@;
                    let sz = cells_of(input.k@, word, word.len() - 1).len() as int;
                    &&& word_dp_ok(word, input.k@, #[trigger] dp_view(all_dp@[x]))
                    &&& level_ok(dp_view(all_dp@[x])[0], cells_of(input.k@, word, 0), all_cells(), sz, (i32::MAX, 0), table_view(all_move_dp@[x]@))
                    &&& base_cost@[x] == table_min(dp_view(all_dp@[x])[0], sz, i32::MAX as int)
                },
            decreases M - w,
        {
            let word = &input.t[w];
            proof {
                assert forall|s: int| 0 <= s < word@.len() implies (#[trigger] word@[s]) < LETTERS by {
                    assert(input.t@[w as int]@[s] < LETTERS);
                }
            }
            let (d, md, b) = word_tables(word, &input.k);
            proof {
                let dv = d@.map_values(|t: Vec<Vec<(i32, usize)>>| table_view(t@));
                assert(dp_view(d) == dv);
                assert(dv[0] == table_view(d@[0]@));
            }
            all_dp.push(d);
            all_move_dp.push(md);
            base_cost.push(b);
            w = w + 1;
        }
        let mut sames: Vec<Vec<usize>> = Vec::new();
        let mut i: usize = 0;
        while i < M
            invariant
                input.wf(),
                i <= M,
                sames@.len() == i,
                forall|a: int| 0 <= a < i ==> (#[trigger] sames@[a])@.len() == M,
                forall|a: int, b: int| 0 <= a < i && 0 <= b < M ==> #[trigger] sames@[a]@[b] == overlap_upto(input.t@[a]@, input.t@[b]@, 5),
            decreases M - i,
        {
            let mut row: Vec<usize> = Vec::new();
            let mut j: usize = 0;
            while j < M
                invariant
                    input.wf(),
                    i < M,
                    j <= M,
                    row@.len() == j,
                    forall|b: int| 0 <= b < j ==> #[trigger] row@[b] == overlap_upto(input.t@[i as int]@, input.t@[b]@, 5),
                decreases M - j,
            {
                proof {
                    assert forall|s: int| 0 <= s < input.t@[i as int]@.len() implies (#[trigger] input.t@[i as int]@[s]) < 26 by {}
                    assert forall|s: int| 0 <= s < input.t@[j as int]@.len() implies (#[trigger] input.t@[j as int]@[s]) < 26 by {}
                }
                row.push(shared_letters(&input.t[i], &input.t[j]));
                j = j + 1;
            }
            sames.push(row);
            i = i + 1;
        }
        let mut mt = new_mt(768);
        let mut used_zob: Vec<u64> = Vec::new();
        let mut w: usize = 0;
        while w < M
            invariant
                w <= M,
                used_zob@.len() == w,
            decreases M - w,
        {
            used_zob.push(gen_word(&mut mt));
            w = w + 1;
        }
        let mut pos_zob: Vec<u64> = Vec::new();
        let mut p: usize = 0;
        while p < CELLS
            invariant
                p <= CELLS,
                pos_zob@.len() == p,
            decreases CELLS - p,
        {
            pos_zob.push(gen_word(&mut mt));
            p = p + 1;
        }
        let mut used: Vec<bool> = Vec::new();
        let mut w: usize = 0;
        while w < M
            invariant
                w <= M,
                used@ == Seq::new(w as nat, |x: int| false),
            decreases M - w,
        {
            used.push(false);
            w = w + 1;
            assert(used@ =~= Seq::new(w as nat, |x: int| false));
        }
        State {
            move_cost: costs,
            dp: all_dp,
            move_dp: all_move_dp,
            base_cost,
            sames,
            t: copy_words(&input.t),
            k: copy_cells(&input.k),
            ik: copy_usizes(&input.ik),
            used_zob,
            pos_zob,
            word: 255,
            pos: input.start,
            cost: 0,
            used,
            zob: 0,
            hist: Vec::new(),
        }
    }
}

fn copy_usizes(v: &Vec<usize>) -> (r: Vec<usize>)
    ensures
        r@ == v@,
{
    let mut r: Vec<usize> = Vec::new();
    let mut i: usize = 0;
    while i < v.len()
        invariant
            i <= v@.len(),
            r@ == v@.subrange(0, i as int),
        decreases v@.len() - i,
    {
        r.push(v[i]);
        i = i + 1;
        assert(r@ =~= v@.subrange(0, i as int));
    }
    assert(r@ =~= v@);
    r
}

fn copy_bytes(v: &Vec<u8>) -> (r: Vec<u8>)
    ensures
        r@ == v@,
{
    let mut r: Vec<u8> = Vec::new();
    let mut i: usize = 0;
    while i < v.len()
        invariant
            i <= v@.len(),
            r@ == v@.subrange(0, i as int),
        decreases v@.len() - i,
    {
        r.push(v[i]);
        i = i + 1;
        assert(r@ =~= v@.subrange(0, i as int));
    }
    assert(r@ =~= v@);
    r
}

fn copy_words(v: &Vec<Vec<u8>>) -> (r: Vec<Vec<u8>>)
    ensures
        r@.map_values(|w: Vec<u8>| w@) == v@.map_values(|w: Vec<u8>| w@),
{
    let mut r: Vec<Vec<u8>> = Vec::new();
    let mut i: usize = 0;
    while i < v.len()
        invariant
            i <= v@.len(),
            r@.len() == i,
            forall|a: int| 0 <= a < i ==> (#[trigger] r@[a])@ == v@[a]@,
        decreases v@.len() - i,
    {
        r.push(copy_bytes(&v[i]));
        i = i + 1;
    }
    assert(r@.map_values(|w: Vec<u8>| w@) =~= v@.map_values(|w: Vec<u8>| w@));
    r
}

fn copy_cells(v: &Vec<Vec<usize>>) -> (r: Vec<Vec<usize>>)
    ensures
        r@.map_values(|c: Vec<usize>| c@) == v@.map_values(|c: Vec<usize>| c@),
{
    let mut r: Vec<Vec<usize>> = Vec::new();
    let mut i: usize = 0;
    while i < v.len()
        invariant
            i <= v@.len(),
            r@.len() == i,
            forall|a: int| 0 <= a < i ==> (#[trigger] r@[a])@ == v@[a]@,
        decreases v@.len() - i,
    {
        r.push(copy_usizes(&v[i]));
        i = i + 1;
    }
    assert(r@.map_values(|c: Vec<usize>| c@) =~= v@.map_values(|c: Vec<usize>| c@));
    r
}

/// What typing a word changes: the word and cell last typed, the cost so
/// far, the words used, the hash and the history.
pub struct TypingView {
    pub word: int,
    pub pos: int,
    pub cost: int,
    pub used: Seq<bool>,
    pub zob: u64,
    pub hist: Seq<(u8, u8)>,
}

impl State {
    pub open spec fn view(&self) -> TypingView {
        TypingView {
            word: self.word as int,
            pos: self.pos as int,
            cost: self.cost as int,
            used: self.used@,
            zob: self.zob,
            hist: self.hist@,
        }
    }
}

/// The state after typing `act`.
pub open spec fn typed_view(v: TypingView, act: Action, uz: Seq<u64>, pz: Seq<u64>) -> TypingView {
    TypingView {
        word: act.word as int,
        pos: act.pos as int,
        cost: v.cost + act.cost,
        used: v.used.update(act.word as int, true),
        zob: v.zob ^ uz[act.word as int] ^ pz[v.pos] ^ pz[act.pos as int],
        hist: v.hist.push((v.word as u8, v.pos as u8)),
    }
}

/// The state after taking back `act`, the last word typed.
pub open spec fn untyped_view(v: TypingView, act: Action, uz: Seq<u64>, pz: Seq<u64>) -> TypingView {
    let (w, p) = v.hist.last();
    TypingView {
        word: w as int,
        pos: p as int,
        cost: v.cost - act.cost,
        used: v.used.update(act.word as int, false),
        zob: v.zob ^ uz[act.word as int] ^ pz[p as int] ^ pz[act.pos as int],
        hist: v.hist.drop_last(),
    }
}

/// Taking back a word right after typing it, where it was not used and the
/// last word and cell fit in a byte, restores the state.
pub proof fn lemma_untype_undoes_type(v: TypingView, act: Action, uz: Seq<u64>, pz: Seq<u64>)
    requires
        0 <= v.word <= 255,
        0 <= v.pos <= 255,
        0 <= act.word < v.used.len(),
        !v.used[act.word as int],
    ensures
        untyped_view(typed_view(v, act, uz, pz), act, uz, pz) == v,
{
    let t = typed_view(v, act, uz, pz);
    let b = untyped_view(t, act, uz, pz);
    let z = v.zob;
    let a = uz[act.word as int];
    let p = pz[v.pos];
    let q = pz[act.pos as int];
    assert(((z ^ a ^ p ^ q) ^ a ^ p ^ q) == z) by (bit_vector);
    assert((v.word as u8) as int == v.word);
    assert((v.pos as u8) as int == v.pos);
    assert(b.used =~= v.used);
    assert(b.hist =~= v.hist);
}

impl State {
    /// Types word `act.word`, ending at `act.pos`.
    pub fn forward(&mut self, act: &Action)
        requires
            (act.word as int) < old(self).used@.len(),
            (act.word as int) < old(self).used_zob@.len(),
            old(self).pos < old(self).pos_zob@.len(),
            (act.pos as int) < old(self).pos_zob@.len(),
            i16::MIN <= old(self).cost + act.cost <= i16::MAX,
        ensures
            final(self)@ == typed_view(old(self)@, *act, old(self).used_zob@, old(self).pos_zob@),
            final(self).used_zob@ == old(self).used_zob@,
            final(self).used_zob == old(self).used_zob,
            final(self).move_cost == old(self).move_cost,
            final(self).dp == old(self).dp,
            final(self).move_dp == old(self).move_dp,
            final(self).base_cost == old(self).base_cost,
            final(self).sames == old(self).sames,
            final(self).t == old(self).t,
            final(self).k == old(self).k,
            final(self).ik == old(self).ik,
            final(self).pos_zob@ == old(self).pos_zob@,
            final(self).pos_zob == old(self).pos_zob,
    {
        self.hist.push((self.word as u8, self.pos as u8));
        self.zob = self.zob ^ self.used_zob[act.word as usize] ^ self.pos_zob[self.pos] ^ self.pos_zob[act.pos as usize];
        self.word = act.word as usize;
        self.pos = act.pos as usize;
        self.cost = self.cost + act.cost;
        self.used.set(act.word as usize, true);
    }

    /// Takes back `act`, the last word typed.
    pub fn backward(&mut self, act: &Action)
        requires
            old(self).hist@.len() > 0,
            (act.word as int) < old(self).used@.len(),
            (act.word as int) < old(self).used_zob@.len(),
            (old(self).hist@.last().1 as int) < old(self).pos_zob@.len(),
            (act.pos as int) < old(self).pos_zob@.len(),
            i16::MIN <= old(self).cost - act.cost <= i16::MAX,
        ensures
            final(self)@ == untyped_view(old(self)@, *act, old(self).used_zob@, old(self).pos_zob@),
            final(self).used_zob@ == old(self).used_zob@,
            final(self).used_zob == old(self).used_zob,
            final(self).move_cost == old(self).move_cost,
            final(self).dp == old(self).dp,
            final(self).move_dp == old(self).move_dp,
            final(self).base_cost == old(self).base_cost,
            final(self).sames == old(self).sames,
            final(self).t == old(self).t,
            final(self).k == old(self).k,
            final(self).ik == old(self).ik,
            final(self).pos_zob@ == old(self).pos_zob@,
            final(self).pos_zob == old(self).pos_zob,
    {
        let (w, p) = self.hist.pop().unwrap();
        self.zob = self.zob ^ self.used_zob[act.word as usize] ^ self.pos_zob[p as usize] ^ self.pos_zob[act.pos as usize];
        self.word = w as usize;
        self.pos = p as usize;
        self.cost = self.cost - act.cost;
        self.used.set(act.word as usize, false);
    }
}

/// How many letters of word `w` the last word typed already gives.
pub open spec fn overlap_of(st: &State, w: int) -> int {
    if st.word >= M { 0 } else { st.sames@[st.word as int]@[w] as int }
}

/// The cheapest typing of word `w` ending at its `i`-th last cell, from the
/// cell last typed.
pub open spec fn best_from(st: &State, w: int, i: int) -> (i32, usize) {
    let l = overlap_of(st, w);
    if l == 0 {
        st.move_dp@[w]@[i]@[st.pos as int]
    } else {
        st.dp@[w]@[l - 1]@[i]@[st.ik@[st.pos as int] as int]
    }
}

/// The number of ways to end word `w`.
pub open spec fn ends_of(st: &State, w: int) -> int {
    st.dp@[w]@[overlap_of(st, w)]@.len() as int
}

/// The candidate for typing word `w` to its `i`-th last cell.
pub open spec fn cand_of(st: &State, w: int, i: int) -> Candidate {
    let mj = best_from(st, w, i);
    let lastc = st.t@[w]@.last() as int;
    let act = Action {
        word: w as u8,
        pos: st.k@[lastc]@[i] as u8,
        k_from: mj.1 as u8,
        k_to: i as u8,
        cost: (mj.0 - st.base_cost@[w]) as i16,
    };
    Candidate {
        cost: (act.cost + st.cost) as i16,
        zob: st.zob ^ st.used_zob@[w] ^ st.pos_zob@[st.pos as int] ^ st.pos_zob@[act.pos as int],
        act,
    }
}

/// The candidates for the words before `w`, in order.
pub open spec fn cands_before(st: &State, w: int) -> Seq<Candidate>
    decreases w,
{
    if w <= 0 {
        Seq::empty()
    } else {
        cands_before(st, w - 1) + if !st.used@[w - 1] {
            Seq::new(ends_of(st, w - 1) as nat, |i: int| cand_of(st, w - 1, i))
        } else {
            Seq::empty()
        }
    }
}

/// Every table entry the candidates read exists, and every cost fits.
pub open spec fn candidates_defined(st: &State) -> bool {
    &&& st.used@.len() == M
    &&& st.used_zob@.len() == M
    &&& st.pos_zob@.len() == CELLS
    &&& st.pos < CELLS
    &&& st.base_cost@.len() == M
    &&& st.dp@.len() == M
    &&& st.move_dp@.len() == M
    &&& st.t@.len() == M
    &&& st.k@.len() == LETTERS
    &&& st.ik@.len() == CELLS
    &&& st.word < M ==> st.sames@.len() == M && st.sames@[st.word as int]@.len() == M
    &&& forall|w: int| 0 <= w < M && !(#[trigger] st.used@[w]) ==> word_ok(st, w)
}

/// What `candidates_defined` asks of word `w`.
pub open spec fn word_ok(st: &State, w: int) -> bool {
    let l = overlap_of(st, w);
    let lastc = st.t@[w]@.last() as int;
    &&& st.t@[w]@.len() > 0
    &&& 0 <= lastc < LETTERS
    &&& 0 <= l < st.dp@[w]@.len()
    &&& forall|i: int| 0 <= i < ends_of(st, w) ==> {
        &&& i < st.k@[lastc]@.len()
        &&& (#[trigger] st.k@[lastc]@[i]) < CELLS
        &&& i <= 255
        &&& (l == 0 ==> i < st.move_dp@[w]@.len() && st.pos < st.move_dp@[w]@[i]@.len())
        &&& (l > 0 ==> i < st.dp@[w]@[l - 1]@.len() && st.ik@[st.pos as int] < st.dp@[w]@[l - 1]@[i]@.len())
    }
    &&& forall|i: int| 0 <= i < ends_of(st, w) ==> {
        let mj = #[trigger] best_from(st, w, i);
        &&& i32::MIN <= mj.0 - st.base_cost@[w] <= i32::MAX
        &&& i16::MIN <= ((mj.0 - st.base_cost@[w]) as i16) + st.cost <= i16::MAX
    }
}

impl State {
    /// The candidates: for each word not used, in order, one for each cell
    /// its last letter may end at, typed the cheapest way from the cell last
    /// typed, reusing the letters it shares with the last word.
    pub fn next_candidates(&self) -> (cands: Vec<Candidate>)
        requires
            candidates_defined(self),
        ensures
            cands@ == cands_before(self, M as int),
    {
        let mut cands: Vec<Candidate> = Vec::new();
        let mut w: usize = 0;
        while w < M
            invariant
                candidates_defined(self),
                w <= M,
                cands@ == cands_before(self, w as int),
            decreases M - w,
        {
            let ghost before = cands@;
            if !self.used[w] {
                let l = if self.word >= M { 0 } else { self.sames[self.word][w] };
                let n = self.dp[w][l].len();
                assert(n == ends_of(self, w as int));
                let lastc = self.t[w][self.t[w].len() - 1] as usize;
                assert(lastc == self.t@[w as int]@.last());
                let mut i: usize = 0;
                while i < n
                    invariant
                        candidates_defined(self),
                        w < M,
                        !self.used@[w as int],
                        l == overlap_of(self, w as int),
                        n == ends_of(self, w as int),
                        lastc == self.t@[w as int]@.last(),
                        i <= n,
                        cands@ == before + Seq::new(i as nat, |x: int| cand_of(self, w as int, x)),
                    decreases n - i,
                {
                    proof {
                        assert(self.k@[lastc as int]@[i as int] < CELLS);
                        let mj0 = best_from(self, w as int, i as int);
                    }
                    let mj = if l == 0 {
                        self.move_dp[w][i][self.pos]
                    } else {
                        self.dp[w][l - 1][i][self.ik[self.pos]]
                    };
                    assert(mj == best_from(self, w as int, i as int));
                    let pos = self.k[lastc][i];
                    let act = Action {
                        word: w as u8,
                        pos: pos as u8,
                        k_from: mj.1 as u8,
                        k_to: i as u8,
                        cost: (mj.0 - self.base_cost[w]) as i16,
                    };
                    let cand = Candidate {
                        cost: act.cost + self.cost,
                        zob: self.zob ^ self.used_zob[act.word as usize] ^ self.pos_zob[self.pos] ^ self.pos_zob[act.pos as usize],
                        act,
                    };
                    cands.push(cand);
                    i = i + 1;
                    assert(cands@ =~= before + Seq::new(i as nat, |x: int| cand_of(self, w as int, x)));
                }
            }
            w = w + 1;
            assert(cands@ =~= cands_before(self, w as int));
        }
        cands
    }
}

impl BeamCandidate for Candidate {
    type Action = Action;

    open spec fn spec_score(&self) -> i64 {
        self.cost as i64
    }

    open spec fn spec_hash(&self) -> u64 {
        self.zob
    }

    open spec fn spec_action(&self) -> Action {
        self.act
    }

    fn into_action(self) -> (a: Action) {
        self.act
    }

    fn score(&self) -> (r: i64) {
        self.cost as i64
    }

    fn hash(&self) -> (r: u64) {
        self.zob
    }
}

/// The cells the tables lead through for word `w` from its letter `i` on:
/// the `ki`-th cell of letter `i`, then at each letter the cell its table
/// picks on the cheapest way to the `kj`-th cell of the last letter; `None`
/// where an index leaves the cells of its letter or its table.
pub open spec fn word_trail(st: &State, w: int, kj: int, i: int, ki: int) -> Option<Seq<usize>>
    decreases st.t@[w]@.len() - i,
{
    let word = st.t@[w]@;
    if i < 0 || i >= word.len() {
        Some(Seq::empty())
    } else {
        let c = word[i] as int;
        let row = st.dp@[w]@[i]@;
        if !(0 <= ki < st.k@[c]@.len() && 0 <= kj < row.len() && 0 <= ki < row[kj]@.len()) {
            None
        } else {
            match word_trail(st, w, kj, i + 1, row[kj]@[ki].1 as int) {
                Some(rest) => Some(seq![st.k@[c]@[ki]] + rest),
                None => None,
            }
        }
    }
}

/// The letters of word `w` that action number `n` of `acts` types: from
/// where it overlaps the word before (from its start for the first).
pub open spec fn typed_from(st: &State, acts: Seq<Action>, n: int) -> int {
    if n == 0 {
        0
    } else {
        st.sames@[acts[n - 1].word as int]@[acts[n].word as int] as int
    }
}

/// The cells typed for the first `n` actions, from cell `start`, with the
/// cell typed last: each word along its tables from where it overlaps the
/// word before, and ending on its action's cell. `None` where a word is out
/// of range, an index leaves its table, or a word ends off its action's
/// cell.
pub open spec fn acts_trail(st: &State, start: usize, acts: Seq<Action>, n: int) -> Option<(Seq<usize>, usize)>
    decreases n,
{
    if n <= 0 {
        Some((Seq::empty(), start))
    } else {
        match acts_trail(st, start, acts, n - 1) {
            None => None,
            Some(pr) => {
                let a = acts[n - 1];
                if a.word as int >= M {
                    None
                } else {
                    match word_trail(st, a.word as int, a.k_to as int, typed_from(st, acts, n - 1), a.k_from as int) {
                        None => None,
                        Some(more) => {
                            let v = if more.len() > 0 { more.last() } else { pr.1 };
                            if v == a.pos as usize {
                                Some((pr.0 + more, v))
                            } else {
                                None
                            }
                        },
                    }
                }
            },
        }
    }
}

/// The letters the first `n` actions type: each word from where it
/// overlaps the word before.
pub open spec fn typed_letters(st: &State, acts: Seq<Action>, n: int) -> Seq<u8>
    decreases n,
{
    if n <= 0 {
        Seq::empty()
    } else {
        let w = acts[n - 1].word as int;
        typed_letters(st, acts, n - 1) + st.t@[w]@.subrange(typed_from(st, acts, n - 1), st.t@[w]@.len() as int)
    }
}

/// The state's words and letter cells are the input's.
pub proof fn lemma_tables_match(st: &State, input: &Input)
    requires
        input.wf(),
        st.tables_ok(input),
    ensures
        st.t@.len() == M,
        forall|w: int| 0 <= w < M ==> (#[trigger] st.t@[w])@ == input.t@[w]@,
        st.k@.len() == LETTERS,
        forall|c: int| 0 <= c < LETTERS ==> (#[trigger] st.k@[c])@ == input.k@[c]@,
{
    let tv = st.t@.map_values(|w: Vec<u8>| w@);
    let iv = input.t@.map_values(|w: Vec<u8>| w@);
    assert(tv.len() == st.t@.len());
    assert(iv.len() == input.t@.len());
    assert forall|w: int| 0 <= w < M implies (#[trigger] st.t@[w])@ == input.t@[w]@ by {
        assert(tv[w] == st.t@[w]@);
        assert(iv[w] == input.t@[w]@);
    }
    let kv = st.k@.map_values(|c: Vec<usize>| c@);
    let jv = input.k@.map_values(|c: Vec<usize>| c@);
    assert(kv.len() == st.k@.len());
    assert(jv.len() == input.k@.len());
    assert forall|c: int| 0 <= c < LETTERS implies (#[trigger] st.k@[c])@ == input.k@[c]@ by {
        assert(kv[c] == st.k@[c]@);
        assert(jv[c] == input.k@[c]@);
    }
}

pub proof fn lemma_overlap_range(a: Seq<u8>, b: Seq<u8>, l: int)
    requires
        0 <= l,
    ensures
        0 <= overlap_upto(a, b, l) <= l,
    decreases l,
{
    if l > 0 {
        lemma_overlap_range(a, b, l - 1);
    }
}

/// The cells of a word's trail hold the word's letters, one for each.
pub proof fn lemma_word_trail_letters(st: &State, input: &Input, w: int, kj: int, i: int, ki: int)
    requires
        input.wf(),
        st.tables_ok(input),
        0 <= w < M,
        0 <= i <= st.t@[w]@.len(),
        word_trail(st, w, kj, i, ki) is Some,
    ensures
        ({
            let cells = word_trail(st, w, kj, i, ki)->0;
            &&& cells.len() == st.t@[w]@.len() - i
            &&& forall|p: int| 0 <= p < cells.len() ==> #[trigger] input.a@[cells[p] as int] == st.t@[w]@[i + p]
            &&& forall|p: int| 0 <= p < cells.len() ==> #[trigger] cells[p] < CELLS
        }),
    decreases st.t@[w]@.len() - i,
{
    let word = st.t@[w]@;
    lemma_tables_match(st, input);
    assert(word == input.t@[w]@);
    if i < word.len() {
        let c = word[i] as int;
        let row = st.dp@[w]@[i]@;
        let nk = row[kj]@[ki].1 as int;
        lemma_word_trail_letters(st, input, w, kj, i + 1, nk);
        assert(st.k@[c]@ == input.k@[c]@);
        let cells = word_trail(st, w, kj, i, ki)->0;
        let rest = word_trail(st, w, kj, i + 1, nk)->0;
        assert(cells == seq![st.k@[c]@[ki]] + rest);
        assert(input.a@[input.k@[c]@[ki] as int] == c);
        assert forall|p: int| 0 <= p < cells.len() implies #[trigger] input.a@[cells[p] as int] == st.t@[w]@[i + p]
            && cells[p] < CELLS by {
            if p > 0 {
                assert(cells[p] == rest[p - 1]);
                assert(input.a@[rest[p - 1] as int] == st.t@[w]@[i + 1 + (p - 1)]);
            }
        }
    }
}

/// The cells of the actions' trail hold the letters they type.
pub proof fn lemma_acts_trail_letters(st: &State, input: &Input, start: usize, acts: Seq<Action>, n: int)
    requires
        input.wf(),
        st.tables_ok(input),
        0 <= n <= acts.len(),
        acts_trail(st, start, acts, n) is Some,
    ensures
        ({
            let cells = (acts_trail(st, start, acts, n)->0).0;
            &&& cells.len() == typed_letters(st, acts, n).len()
            &&& forall|p: int| 0 <= p < cells.len() ==> #[trigger] input.a@[cells[p] as int] == typed_letters(st, acts, n)[p]
        }),
    decreases n,
{
    if n > 0 {
        lemma_acts_trail_letters(st, input, start, acts, n - 1);
        let a = acts[n - 1];
        let w = a.word as int;
        let l = typed_from(st, acts, n - 1);
        lemma_tables_match(st, input);
        assert(0 <= l <= st.t@[w]@.len()) by {
            if n - 1 > 0 {
                let pw = acts[n - 2].word as int;
                assert(acts_trail(st, start, acts, n - 1) is Some);
                assert(0 <= pw < M) by {
                    assert(acts_trail(st, start, acts, n - 2) is Some);
                }
                lemma_overlap_range(input.t@[pw]@, input.t@[w]@, 5);
                assert(st.sames@[pw]@[w] == overlap_upto(input.t@[pw]@, input.t@[w]@, 5));
            } else {
            }
        }
        lemma_word_trail_letters(st, input, w, a.k_to as int, l, a.k_from as int);
        let pr = acts_trail(st, start, acts, n - 1)->0;
        let more = word_trail(st, w, a.k_to as int, l, a.k_from as int)->0;
        let cells = (acts_trail(st, start, acts, n)->0).0;
        assert(cells == pr.0 + more);
        let tl = typed_letters(st, acts, n - 1);
        let tw = st.t@[w]@.subrange(l, st.t@[w]@.len() as int);
        assert(typed_letters(st, acts, n) == tl + tw);
        assert forall|p: int| 0 <= p < cells.len() implies #[trigger] input.a@[cells[p] as int] == typed_letters(st, acts, n)[p] by {
            if p >= pr.0.len() {
                let q = p - pr.0.len();
                assert(cells[p] == more[q]);
                assert(input.a@[more[q] as int] == st.t@[w]@[l + q]);
                assert((tl + tw)[p] == tw[q]);
            } else {
                assert(cells[p] == pr.0[p]);
                assert((tl + tw)[p] == tl[p]);
            }
        }
    }
}

impl State {
    /// The cells typed for the actions `acts` from cell `start`: each word
    /// from where it overlaps the word before, along its tables toward its
    /// action's end; `None` where a word is out of range, an index leaves
    /// its table, or a word ends off its action's cell. The cells hold the
    /// letters typed.
    pub fn typed_cells(&self, input: &Input, start: usize, acts: &Vec<Action>) -> (r: Option<Vec<usize>>)
        requires
            input.wf(),
            self.tables_ok(input),
        ensures
            match acts_trail(self, start, acts@, acts@.len() as int) {
                None => r is None,
                Some(pr) => r is Some && r->0@ == pr.0,
            },
            r matches Some(cells) ==> cells@.len() == typed_letters(self, acts@, acts@.len() as int).len(),
            r matches Some(cells) ==> forall|p: int|
                0 <= p < cells@.len() ==> #[trigger] input.a@[cells@[p] as int] == typed_letters(self, acts@, acts@.len() as int)[p],
    {
        let mut cells: Vec<usize> = Vec::new();
        let mut v = start;
        let mut n: usize = 0;
        proof {
            lemma_tables_match(self, input);
        }
        while n < acts.len()
            invariant
                input.wf(),
                self.tables_ok(input),
                self.t@.len() == M,
                self.k@.len() == LETTERS,
                forall|w2: int| 0 <= w2 < M ==> (#[trigger] self.t@[w2])@ == input.t@[w2]@,
                n <= acts@.len(),
                acts_trail(self, start, acts@, n as int) == Some((cells@, v)),
            decreases acts@.len() - n,
        {
            let a = acts[n];
            let w = a.word as usize;
            if w >= M {
                proof {
                    assert(acts_trail(self, start, acts@, n + 1) is None);
                    lemma_trail_none_stays(self, start, acts@, n + 1, acts@.len() as int);
                }
                return None;
            }
            let l = if n == 0 { 0 } else { self.sames[acts[n - 1].word as usize][w] };
            proof {
                assert(self.t@[w as int]@.len() == input.t@[w as int]@.len());
                let word = input.t@[w as int]@;
                let sz = cells_of(input.k@, word, word.len() - 1).len() as int;
                assert(word_dp_ok(word, input.k@, dp_view(self.dp@[w as int])));
                assert(dp_view(self.dp@[w as int]).len() == self.dp@[w as int]@.len());
                if n > 0 {
                    let pw = acts@[n - 1].word as int;
                    assert(acts_trail(self, start, acts@, n as int) is Some);
                    assert(0 <= pw < M) by {
                        assert(acts_trail(self, start, acts@, n - 1) is Some);
                    }
                }
                assert(l == typed_from(self, acts@, n as int));
            }
            let kj = a.k_to as usize;
            let mut ki = a.k_from as usize;
            let len = self.t[w].len();
            let mut more: Vec<usize> = Vec::new();
            let mut i = l;
            let ghost l0 = l as int;
            let ghost ki0 = ki as int;
            while i < len
                invariant
                    input.wf(),
                    self.tables_ok(input),
                    n < acts@.len(),
                    acts_trail(self, start, acts@, n as int) == Some((cells@, v)),
                    a == acts@[n as int],
                    w == a.word as usize,
                    kj == a.k_to as usize,
                    ki0 == a.k_from as int,
                    l0 == typed_from(self, acts@, n as int),
                    w < M,
                    self.t@.len() == M,
                    len == self.t@[w as int]@.len(),
                    self.dp@[w as int]@.len() == len,
                    self.k@.len() == LETTERS,
                    forall|s: int| 0 <= s < len ==> #[trigger] self.t@[w as int]@[s] < LETTERS,
                    word_trail(self, w as int, kj as int, l0, ki0) == match word_trail(self, w as int, kj as int, i as int, ki as int) {
                        Some(rest) => Some(more@ + rest),
                        None => None::<Seq<usize>>,
                    },
                decreases len - i,
            {
                let c = self.t[w][i] as usize;
                if ki >= self.k[c].len() || kj >= self.dp[w][i].len() || ki >= self.dp[w][i][kj].len() {
                    proof {
                        lemma_trail_word_none(self, start, acts@, n as int);
                        lemma_trail_none_stays(self, start, acts@, n + 1, acts@.len() as int);
                    }
                    return None;
                }
                let cell = self.k[c][ki];
                let nk = self.dp[w][i][kj][ki].1;
                proof {
                    let rest = word_trail(self, w as int, kj as int, i + 1, nk as int);
                    assert(word_trail(self, w as int, kj as int, i as int, ki as int) == match rest {
                        Some(r2) => Some(seq![cell] + r2),
                        None => None::<Seq<usize>>,
                    });
                    if rest is Some {
                        assert(more@.push(cell) + rest->0 =~= more@ + (seq![cell] + rest->0));
                    }
                }
                more.push(cell);
                ki = nk;
                i = i + 1;
            }
            proof {
                assert(word_trail(self, w as int, kj as int, i as int, ki as int) == Some(Seq::<usize>::empty()));
                assert(more@ + Seq::<usize>::empty() =~= more@);
            }
            let v2 = if more.len() > 0 { more[more.len() - 1] } else { v };
            if v2 != a.pos as usize {
                proof {
                    lemma_trail_none_stays(self, start, acts@, n + 1, acts@.len() as int);
                }
                return None;
            }
            let ghost before = cells@;
            let mut x: usize = 0;
            while x < more.len()
                invariant
                    x <= more@.len(),
                    cells@ == before + more@.subrange(0, x as int),
                decreases more@.len() - x,
            {
                cells.push(more[x]);
                x = x + 1;
                assert(cells@ =~= before + more@.subrange(0, x as int));
            }
            proof {
                assert(more@.subrange(0, more@.len() as int) =~= more@);
            }
            v = v2;
            n = n + 1;
        }
        proof {
            lemma_acts_trail_letters(self, input, start, acts@, acts@.len() as int);
        }
        Some(cells)
    }
}

/// Once the trail fails, it fails for every longer run of actions.
pub proof fn lemma_trail_none_stays(st: &State, start: usize, acts: Seq<Action>, n: int, m: int)
    requires
        1 <= n <= m,
        acts_trail(st, start, acts, n) is None,
    ensures
        acts_trail(st, start, acts, m) is None,
    decreases m - n,
{
    if m > n {
        lemma_trail_none_stays(st, start, acts, n, m - 1);
    }
}

/// Where the word of action `n` leaves its tables, the trail fails there.
pub proof fn lemma_trail_word_none(st: &State, start: usize, acts: Seq<Action>, n: int)
    requires
        0 <= n < acts.len(),
        acts_trail(st, start, acts, n) is Some,
        (acts[n].word as int) < M,
        word_trail(st, acts[n].word as int, acts[n].k_to as int, typed_from(st, acts, n), acts[n].k_from as int) is None,
    ensures
        acts_trail(st, start, acts, n + 1) is None,
{
}


/// `overlap_of` with what typing changes read from `v`.
pub open spec fn overlap_at(st: &State, v: TypingView, w: int) -> int {
    if v.word >= M { 0 } else { st.sames@[v.word]@[w] as int }
}

/// `best_from` with what typing changes read from `v`.
pub open spec fn best_at(st: &State, v: TypingView, w: int, i: int) -> (i32, usize) {
    let l = overlap_at(st, v, w);
    if l == 0 {
        st.move_dp@[w]@[i]@[v.pos]
    } else {
        st.dp@[w]@[l - 1]@[i]@[st.ik@[v.pos] as int]
    }
}

/// `ends_of` with what typing changes read from `v`.
pub open spec fn ends_at(st: &State, v: TypingView, w: int) -> int {
    st.dp@[w]@[overlap_at(st, v, w)]@.len() as int
}

/// `cand_of` with what typing changes read from `v`.
pub open spec fn cand_at(st: &State, v: TypingView, w: int, i: int) -> Candidate {
    let mj = best_at(st, v, w, i);
    let lastc = st.t@[w]@.last() as int;
    let act = Action {
        word: w as u8,
        pos: st.k@[lastc]@[i] as u8,
        k_from: mj.1 as u8,
        k_to: i as u8,
        cost: (mj.0 - st.base_cost@[w]) as i16,
    };
    Candidate {
        cost: (act.cost + v.cost) as i16,
        zob: v.zob ^ st.used_zob@[w] ^ st.pos_zob@[v.pos] ^ st.pos_zob@[act.pos as int],
        act,
    }
}

/// `cands_before` with what typing changes read from `v`.
pub open spec fn cands_at(st: &State, v: TypingView, w: int) -> Seq<Candidate>
    decreases w,
{
    if w <= 0 {
        Seq::empty()
    } else {
        cands_at(st, v, w - 1) + if !v.used[w - 1] {
            Seq::new(ends_at(st, v, w - 1) as nat, |i: int| cand_at(st, v, w - 1, i))
        } else {
            Seq::empty()
        }
    }
}

/// `word_ok` with what typing changes read from `v`.
pub open spec fn word_ok_at(st: &State, v: TypingView, w: int) -> bool {
    let l = overlap_at(st, v, w);
    let lastc = st.t@[w]@.last() as int;
    &&& st.t@[w]@.len() > 0
    &&& 0 <= lastc < LETTERS
    &&& 0 <= l < st.dp@[w]@.len()
    &&& forall|i: int| 0 <= i < ends_at(st, v, w) ==> {
        &&& i < st.k@[lastc]@.len()
        &&& (#[trigger] st.k@[lastc]@[i]) < CELLS
        &&& i <= 255
        &&& (l == 0 ==> i < st.move_dp@[w]@.len() && v.pos < st.move_dp@[w]@[i]@.len())
        &&& (l > 0 ==> i < st.dp@[w]@[l - 1]@.len() && st.ik@[v.pos] < st.dp@[w]@[l - 1]@[i]@.len())
    }
    &&& forall|i: int| 0 <= i < ends_at(st, v, w) ==> {
        let mj = #[trigger] best_at(st, v, w, i);
        &&& i32::MIN <= mj.0 - st.base_cost@[w] <= i32::MAX
        &&& i16::MIN <= ((mj.0 - st.base_cost@[w]) as i16) + v.cost <= i16::MAX
    }
}

/// `candidates_defined` with what typing changes read from `v`.
pub open spec fn defined_at(st: &State, v: TypingView) -> bool {
    &&& v.used.len() == M
    &&& st.used_zob@.len() == M
    &&& st.pos_zob@.len() == CELLS
    &&& 0 <= v.pos < CELLS
    &&& st.base_cost@.len() == M
    &&& st.dp@.len() == M
    &&& st.move_dp@.len() == M
    &&& st.t@.len() == M
    &&& st.k@.len() == LETTERS
    &&& st.ik@.len() == CELLS
    &&& 0 <= v.word < M ==> st.sames@.len() == M && st.sames@[v.word]@.len() == M
    &&& forall|w: int| 0 <= w < M && !(#[trigger] v.used[w]) ==> word_ok_at(st, v, w)
}

/// Whether the candidates are defined depends on the tables and the view
/// alone.
pub proof fn lemma_defined_at(st: &State, base: &State)
    requires
        tables_same(st, base),
    ensures
        candidates_defined(st) == defined_at(base, st@),
{
    assert forall|w: int| 0 <= w < M implies #[trigger] word_ok(st, w) == word_ok_at(base, st@, w) by {
        let v = st@;
        let l = overlap_of(st, w);
        let lc = st.t@[w]@.last() as int;
        assert(l == overlap_at(base, v, w));
        assert(ends_of(st, w) == ends_at(base, v, w));
        assert forall|i: int| #[trigger] best_from(st, w, i) == best_at(base, v, w, i) by {}
        if word_ok(st, w) {
            let e = ends_of(st, w);
            if e > 0 {
                let kk = st.k@[lc]@[e - 1];
                assert(kk == kk);
            }
            assert(e <= st.k@[lc]@.len());
            assert forall|i: int| 0 <= i < ends_at(base, v, w) implies {
                &&& i < base.k@[lc]@.len()
                &&& (#[trigger] base.k@[lc]@[i]) < CELLS
                &&& i <= 255
                &&& (l == 0 ==> i < base.move_dp@[w]@.len() && v.pos < base.move_dp@[w]@[i]@.len())
                &&& (l > 0 ==> i < base.dp@[w]@[l - 1]@.len() && base.ik@[v.pos] < base.dp@[w]@[l - 1]@[i]@.len())
            } by {
                let kk = st.k@[lc]@[i];
                assert(kk == kk);
            }
            assert forall|i: int| 0 <= i < ends_at(base, v, w) implies {
                let mj = #[trigger] best_at(base, v, w, i);
                &&& i32::MIN <= mj.0 - base.base_cost@[w] <= i32::MAX
                &&& i16::MIN <= ((mj.0 - base.base_cost@[w]) as i16) + v.cost <= i16::MAX
            } by {
                assert(best_from(st, w, i) == best_at(base, v, w, i));
            }
            assert(lc == base.t@[w]@.last() as int);
            assert(word_ok_at(base, v, w));
        }
        if word_ok_at(base, v, w) {
            let e = ends_at(base, v, w);
            assert(lc == base.t@[w]@.last() as int);
            if e > 0 {
                let kk = base.k@[lc]@[e - 1];
                assert(kk == kk);
            }
            assert(e <= base.k@[lc]@.len());
            assert forall|i: int| 0 <= i < ends_of(st, w) implies {
                &&& i < st.k@[lc]@.len()
                &&& (#[trigger] st.k@[lc]@[i]) < CELLS
                &&& i <= 255
                &&& (l == 0 ==> i < st.move_dp@[w]@.len() && st.pos < st.move_dp@[w]@[i]@.len())
                &&& (l > 0 ==> i < st.dp@[w]@[l - 1]@.len() && st.ik@[st.pos as int] < st.dp@[w]@[l - 1]@[i]@.len())
            } by {
                let kk = base.k@[lc]@[i];
                assert(kk == kk);
            }
            assert forall|i: int| 0 <= i < ends_of(st, w) implies {
                let mj = #[trigger] best_from(st, w, i);
                &&& i32::MIN <= mj.0 - st.base_cost@[w] <= i32::MAX
                &&& i16::MIN <= ((mj.0 - st.base_cost@[w]) as i16) + st.cost <= i16::MAX
            } by {
                assert(best_from(st, w, i) == best_at(base, v, w, i));
            }
            assert(word_ok(st, w));
        }
    }
    if candidates_defined(st) {
        assert forall|w: int| 0 <= w < M && !(#[trigger] st@.used[w]) implies word_ok_at(base, st@, w) by {
            assert(!st.used@[w]);
            assert(word_ok(st, w));
        }
    }
    if defined_at(base, st@) {
        assert forall|w: int| 0 <= w < M && !(#[trigger] st.used@[w]) implies word_ok(st, w) by {
            assert(!st@.used[w]);
            assert(word_ok_at(base, st@, w));
        }
    }
}

/// The two states have the same tables.
pub open spec fn tables_same(a: &State, b: &State) -> bool {
    &&& a.dp == b.dp
    &&& a.move_dp == b.move_dp
    &&& a.base_cost == b.base_cost
    &&& a.sames == b.sames
    &&& a.t == b.t
    &&& a.k == b.k
    &&& a.ik == b.ik
    &&& a.used_zob == b.used_zob
    &&& a.pos_zob == b.pos_zob
}

/// The candidates of a state are those that its tables give with its view.
pub proof fn lemma_cands_at(st: &State, base: &State, w: int)
    requires
        tables_same(st, base),
    ensures
        cands_before(st, w) == cands_at(base, st@, w),
    decreases w,
{
    if w > 0 {
        lemma_cands_at(st, base, w - 1);
        assert(ends_of(st, w - 1) == ends_at(base, st@, w - 1));
        assert(Seq::new(ends_of(st, w - 1) as nat, |i: int| cand_of(st, w - 1, i)) =~= Seq::new(
            ends_at(base, st@, w - 1) as nat,
            |i: int| cand_at(base, st@, w - 1, i),
        ));
    }
}

impl State {
    /// Whether word `w` meets `word_ok`.
    fn word_ok_now(&self, w: usize) -> (r: bool)
        requires
            w < M,
            self.used@.len() == M,
            self.pos < CELLS,
            self.base_cost@.len() == M,
            self.dp@.len() == M,
            self.move_dp@.len() == M,
            self.t@.len() == M,
            self.k@.len() == LETTERS,
            self.ik@.len() == CELLS,
            self.word < M ==> self.sames@.len() == M && self.sames@[self.word as int]@.len() == M,
        ensures
            r == word_ok(self, w as int),
    {
        let l: usize = if self.word >= M { 0 } else { self.sames[self.word][w] };
        assert(l == overlap_of(self, w as int));
        let tl = self.t[w].len();
        if tl == 0 {
            return false;
        }
        let lastc = self.t[w][tl - 1] as usize;
        let ghost lc = self.t@[w as int]@.last() as int;
        assert(lastc == lc);
        if lastc >= LETTERS || l >= self.dp[w].len() {
            return false;
        }
        let n = self.dp[w][l].len();
        let mut i: usize = 0;
        while i < n
            invariant
                w < M,
                self.pos < CELLS,
                self.base_cost@.len() == M,
                self.dp@.len() == M,
                self.move_dp@.len() == M,
                self.t@.len() == M,
                self.k@.len() == LETTERS,
                self.ik@.len() == CELLS,
                l == overlap_of(self, w as int),
                lc == self.t@[w as int]@.last() as int,
                lastc == lc,
                lastc < LETTERS,
                l < self.dp@[w as int]@.len(),
                n == ends_of(self, w as int),
                i <= n,
                i <= self.k@[lc]@.len(),
                forall|i2: int|
                    #![trigger self.k@[lc]@[i2]]
                    0 <= i2 < i ==> {
                        &&& i2 < self.k@[lc]@.len()
                        &&& self.k@[lc]@[i2] < CELLS
                        &&& i2 <= 255
                        &&& (l == 0 ==> i2 < self.move_dp@[w as int]@.len() && self.pos < self.move_dp@[w as int]@[i2]@.len())
                        &&& (l > 0 ==> i2 < self.dp@[w as int]@[l - 1]@.len() && self.ik@[self.pos as int] < self.dp@[w
                            as int]@[l - 1]@[i2]@.len())
                    },
                forall|i2: int|
                    0 <= i2 < i ==> {
                        let mj = #[trigger] best_from(self, w as int, i2);
                        &&& i32::MIN <= mj.0 - self.base_cost@[w as int] <= i32::MAX
                        &&& i16::MIN <= ((mj.0 - self.base_cost@[w as int]) as i16) + self.cost <= i16::MAX
                    },
            decreases n - i,
        {
            if i >= self.k[lastc].len() || self.k[lastc][i] >= CELLS || i > 255 {
                proof {
                    let kk = self.k@[lc]@[i as int];
                    assert(kk == kk);
                }
                return false;
            }
            if l == 0 {
                if i >= self.move_dp[w].len() || self.pos >= self.move_dp[w][i].len() {
                    proof {
                        let kk = self.k@[lc]@[i as int];
                        assert(kk == kk);
                    }
                    return false;
                }
            } else {
                if i >= self.dp[w][l - 1].len() || self.ik[self.pos] >= self.dp[w][l - 1][i].len() {
                    proof {
                        let kk = self.k@[lc]@[i as int];
                        assert(kk == kk);
                    }
                    return false;
                }
            }
            let mj = if l == 0 {
                self.move_dp[w][i][self.pos]
            } else {
                self.dp[w][l - 1][i][self.ik[self.pos]]
            };
            assert(mj == best_from(self, w as int, i as int));
            let d: i64 = mj.0 as i64 - self.base_cost[w] as i64;
            if d < i32::MIN as i64 || d > i32::MAX as i64 {
                return false;
            }
            let d16: i16 = (mj.0 - self.base_cost[w]) as i16;
            let c: i32 = d16 as i32 + self.cost as i32;
            if c < i16::MIN as i32 || c > i16::MAX as i32 {
                return false;
            }
            i = i + 1;
        }
        proof {
            assert forall|i2: int| 0 <= i2 < ends_of(self, w as int) implies {
                &&& i2 < self.k@[lc]@.len()
                &&& (#[trigger] self.k@[lc]@[i2]) < CELLS
                &&& i2 <= 255
                &&& (l == 0 ==> i2 < self.move_dp@[w as int]@.len() && self.pos < self.move_dp@[w as int]@[i2]@.len())
                &&& (l > 0 ==> i2 < self.dp@[w as int]@[l - 1]@.len() && self.ik@[self.pos as int] < self.dp@[w
                    as int]@[l - 1]@[i2]@.len())
            } by {
                assert(self.k@[lc]@[i2] == self.k@[lc]@[i2]);
            }
        }
        true
    }

    /// Whether `candidates_defined` holds.
    pub fn candidates_ok(&self) -> (r: bool)
        ensures
            r == candidates_defined(self),
    {
        if self.used.len() != M || self.used_zob.len() != M || self.pos_zob.len() != CELLS || self.pos >= CELLS
            || self.base_cost.len() != M || self.dp.len() != M || self.move_dp.len() != M || self.t.len() != M
            || self.k.len() != LETTERS || self.ik.len() != CELLS
        {
            return false;
        }
        if self.word < M {
            if self.sames.len() != M || self.sames[self.word].len() != M {
                return false;
            }
        }
        let mut w: usize = 0;
        while w < M
            invariant
                w <= M,
                self.used@.len() == M,
                self.used_zob@.len() == M,
                self.pos_zob@.len() == CELLS,
                self.pos < CELLS,
                self.base_cost@.len() == M,
                self.dp@.len() == M,
                self.move_dp@.len() == M,
                self.t@.len() == M,
                self.k@.len() == LETTERS,
                self.ik@.len() == CELLS,
                self.word < M ==> self.sames@.len() == M && self.sames@[self.word as int]@.len() == M,
                forall|w2: int| 0 <= w2 < w && !(#[trigger] self.used@[w2]) ==> word_ok(self, w2),
            decreases M - w,
        {
            if !self.used[w] {
                if !self.word_ok_now(w) {
                    return false;
                }
            }
            w = w + 1;
        }
        true
    }
}

/// A word `act` can be typed on `v`: its word is not used, and every index
/// and the cost stay in range, before and after.
pub open spec fn can_type(st: &State, v: TypingView, act: Action) -> bool {
    &&& (act.word as int) < v.used.len()
    &&& (act.word as int) < st.used_zob@.len()
    &&& 0 <= v.pos < st.pos_zob@.len()
    &&& (act.pos as int) < st.pos_zob@.len()
    &&& i16::MIN <= v.cost <= i16::MAX
    &&& i16::MIN <= v.cost + act.cost <= i16::MAX
    &&& !v.used[act.word as int]
    &&& 0 <= v.word <= 255
    &&& 0 <= v.pos <= 255
}

/// The last word typed, `act`, can be taken back from `v`.
pub open spec fn can_untype(st: &State, v: TypingView, act: Action) -> bool {
    &&& v.hist.len() > 0
    &&& (act.word as int) < v.used.len()
    &&& (act.word as int) < st.used_zob@.len()
    &&& (v.hist.last().1 as int) < st.pos_zob@.len()
    &&& (act.pos as int) < st.pos_zob@.len()
    &&& i16::MIN <= v.cost - act.cost <= i16::MAX
}

/// What the search reads of a typing state: the tables (those of the state
/// the search started from), what typing changes, and for each word typed
/// through the search whether it could be typed.
pub type TypingModel = (State, TypingView, Seq<bool>);

/// The typing state as a search state.
pub struct TypingSearch {
    pub st: State,
    pub typed_ok: Vec<bool>,
    pub base: Ghost<State>,
}

impl TypingSearch {
    /// A search from `st`, with no word typed through it yet.
    pub fn new(st: State) -> (r: Self)
        ensures
            r.st == st,
            r.typed_ok@ == Seq::<bool>::empty(),
            r.ready(),
    {
        let ghost b = st;
        TypingSearch { st, typed_ok: Vec::new(), base: Ghost(b) }
    }
}

impl BeamState for TypingSearch {
    type Action = Action;
    type Candidate = Candidate;
    type Model = TypingModel;

    open spec fn model(&self) -> TypingModel {
        (self.base@, self.st@, self.typed_ok@)
    }

    open spec fn ready(&self) -> bool {
        tables_same(&self.st, &self.base@)
    }

    /// A word that can be typed is typed and recorded as typed; any other
    /// is recorded as skipped.
    open spec fn model_forward(m: TypingModel, act: Action) -> TypingModel {
        if can_type(&m.0, m.1, act) {
            (m.0, typed_view(m.1, act, m.0.used_zob@, m.0.pos_zob@), m.2.push(true))
        } else {
            (m.0, m.1, m.2.push(false))
        }
    }

    /// The last word recorded is taken back where it was typed and can be
    /// taken back; the record shrinks.
    open spec fn model_backward(m: TypingModel, act: Action) -> TypingModel {
        if m.2.len() == 0 {
            m
        } else if m.2.last() && can_untype(&m.0, m.1, act) {
            (m.0, untyped_view(m.1, act, m.0.used_zob@, m.0.pos_zob@), m.2.drop_last())
        } else {
            (m.0, m.1, m.2.drop_last())
        }
    }

    /// The candidates that the tables give with the view, where every
    /// table entry they read exists; none otherwise.
    open spec fn cands_of(m: TypingModel, cands: Vec<Candidate>) -> bool {
        cands@ == if defined_at(&m.0, m.1) { cands_at(&m.0, m.1, M as int) } else { Seq::empty() }
    }

    proof fn lemma_backward_undoes(m: TypingModel, act: Action) {
        if can_type(&m.0, m.1, act) {
            lemma_untype_undoes_type(m.1, act, m.0.used_zob@, m.0.pos_zob@);
            let f = typed_view(m.1, act, m.0.used_zob@, m.0.pos_zob@);
            assert(f.hist.last() == (m.1.word as u8, m.1.pos as u8));
            assert(can_untype(&m.0, f, act));
            assert(m.2.push(true).drop_last() =~= m.2);
        } else {
            assert(m.2.push(false).drop_last() =~= m.2);
        }
    }

    fn forward(&mut self, act: &Action) {
        let s = &self.st;
        let ok = (act.word as usize) < s.used.len() && (act.word as usize) < s.used_zob.len() && s.pos < s.pos_zob.len()
            && (act.pos as usize) < s.pos_zob.len() && !s.used[act.word as usize] && s.word <= 255 && s.pos <= 255
            && (s.cost as i32 + act.cost as i32) >= i16::MIN as i32 && (s.cost as i32 + act.cost as i32) <= i16::MAX as i32;
        if ok {
            self.st.forward(act);
            self.typed_ok.push(true);
        } else {
            self.typed_ok.push(false);
        }
    }

    fn backward(&mut self, act: &Action) {
        match self.typed_ok.pop() {
            Some(p) => {
                let s = &self.st;
                if p && s.hist.len() > 0 {
                    let last = s.hist[s.hist.len() - 1];
                    let ok = (act.word as usize) < s.used.len() && (act.word as usize) < s.used_zob.len()
                        && (last.1 as usize) < s.pos_zob.len() && (act.pos as usize) < s.pos_zob.len()
                        && (s.cost as i32 - act.cost as i32) >= i16::MIN as i32 && (s.cost as i32 - act.cost as i32)
                        <= i16::MAX as i32;
                    proof {
                        assert(last == self.st@.hist.last());
                    }
                    if ok {
                        self.st.backward(act);
                    }
                }
            },
            None => {},
        }
    }

    fn next_candidates(&self) -> (r: Vec<Candidate>) {
        proof {
            lemma_cands_at(&self.st, &self.base@, M as int);
            lemma_defined_at(&self.st, &self.base@);
        }
        if self.st.candidates_ok() {
            self.st.next_candidates()
        } else {
            Vec::new()
        }
    }
}

} // verus!
