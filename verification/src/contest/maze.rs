use vstd::prelude::*;

verus! {

/// The side of the maze.
pub const N: usize = 20;

/// The number of cells.
pub const CELLS: usize = 400;

/// Marks no direction or no cell.
pub const NONE: usize = usize::MAX;

/// The cell that a step from cell `x` in direction `d` (right, left, down,
/// up) reaches: the neighbour where no wall stands between, else `x`.
pub open spec fn step_to(h: Seq<Vec<char>>, v: Seq<Vec<char>>, x: int, d: int) -> int {
    let (i, j) = (x / N as int, x % N as int);
    if d == 0 {
        if j + 1 < N && h[i]@[j] == '0' { x + 1 } else { x }
    } else if d == 1 {
        if j > 0 && h[i]@[j - 1] == '0' { x - 1 } else { x }
    } else if d == 2 {
        if i + 1 < N && v[i]@[j] == '0' { x + N } else { x }
    } else {
        if i > 0 && v[i - 1]@[j] == '0' { x - N } else { x }
    }
}

/// The moves of the maze from its walls: `h[i][j]` between `(i, j)` and
/// `(i, j + 1)`, `v[i][j]` between `(i, j)` and `(i + 1, j)`, `'0'` for none.
pub fn build_moves(h: &Vec<Vec<char>>, v: &Vec<Vec<char>>) -> (g: Vec<Vec<usize>>)
    requires
        h@.len() == N,
        forall|i: int| 0 <= i < N ==> (#[trigger] h@[i])@.len() == N - 1,
        v@.len() == N - 1,
        forall|i: int| 0 <= i < N - 1 ==> (#[trigger] v@[i])@.len() == N,
    ensures
        moves_ok(g@),
        forall|x: int, d: int| 0 <= x < CELLS && 0 <= d < 4 ==> #[trigger] g@[x]@[d] == step_to(h@, v@, x, d),
{
    let mut g: Vec<Vec<usize>> = Vec::new();
    let mut x: usize = 0;
    while x < CELLS
        invariant
            h@.len() == N,
            forall|i: int| 0 <= i < N ==> (#[trigger] h@[i])@.len() == N - 1,
            v@.len() == N - 1,
            forall|i: int| 0 <= i < N - 1 ==> (#[trigger] v@[i])@.len() == N,
            x <= CELLS,
            g@.len() == x,
            forall|y: int| 0 <= y < x ==> (#[trigger] g@[y])@.len() == 4,
            forall|y: int, d: int| 0 <= y < x && 0 <= d < 4 ==> #[trigger] g@[y]@[d] == step_to(h@, v@, y, d),
            forall|y: int, d: int| 0 <= y < x && 0 <= d < 4 ==> #[trigger] g@[y]@[d] < CELLS,
        decreases CELLS - x,
    {
        let i = x / N;
        let j = x % N;
        let mut row: Vec<usize> = Vec::new();
        row.push(if j + 1 < N && h[i][j] == '0' { x + 1 } else { x });
        row.push(if j > 0 && h[i][j - 1] == '0' { x - 1 } else { x });
        row.push(if i + 1 < N && v[i][j] == '0' { x + N } else { x });
        row.push(if i > 0 && v[i - 1][j] == '0' { x - N } else { x });
        g.push(row);
        x = x + 1;
    }
    g
}

/// Every cell has four moves, each to a cell.
pub open spec fn moves_ok(g: Seq<Vec<usize>>) -> bool {
    &&& g.len() == CELLS
    &&& forall|x: int| 0 <= x < CELLS ==> (#[trigger] g[x])@.len() == 4
    &&& forall|x: int, d: int| 0 <= x < CELLS && 0 <= d < 4 ==> #[trigger] g[x]@[d] < CELLS
}

/// Where moving from `x` along `dirs` ends.
pub open spec fn walk(g: Seq<Vec<usize>>, x: int, dirs: Seq<usize>) -> int
    decreases dirs.len(),
{
    if dirs.len() == 0 {
        x
    } else {
        walk(g, g[x]@[dirs[0] as int] as int, dirs.drop_first())
    }
}

/// `dirs` leads from `s` to `t`: each entry one of the four directions.
pub open spec fn is_route(g: Seq<Vec<usize>>, s: int, t: int, dirs: Seq<usize>) -> bool {
    &&& forall|k: int| 0 <= k < dirs.len() ==> #[trigger] dirs[k] < 4
    &&& walk(g, s, dirs) == t
}

/// A reached cell `y` other than `s` names the move into it and the nearer
/// cell that move starts from.
pub open spec fn came_from(g: Seq<Vec<usize>>, dist: Seq<(usize, usize, usize)>, s: int, y: int) -> bool {
    y != s && dist[y].0 != usize::MAX ==> {
        &&& dist[y].1 < 4
        &&& dist[y].2 < CELLS
        &&& g[dist[y].2 as int]@[dist[y].1 as int] == y
        &&& dist[dist[y].2 as int].0 < dist[y].0
    }
}

/// Every move from cell `u` ends at most one step farther from the start.
pub open spec fn closed_at(g: Seq<Vec<usize>>, dist: Seq<(usize, usize, usize)>, u: int) -> bool {
    forall|dir: int| 0 <= dir < 4 ==> #[trigger] dist[g[u]@[dir] as int].0 <= dist[u].0 + 1
}

/// The table of a finished search from `s`: for each cell its distance
/// (`usize::MAX` where unreached), the move into it and where it came from.
pub open spec fn searched(g: Seq<Vec<usize>>, dist: Seq<(usize, usize, usize)>, s: int) -> bool {
    &&& dist.len() == CELLS
    &&& dist[s] == (0usize, NONE, NONE)
    &&& forall|y: int| 0 <= y < CELLS ==> #[trigger] dist[y].0 <= CELLS || dist[y].0 == usize::MAX
    &&& forall|y: int| 0 <= y < CELLS ==> #[trigger] came_from(g, dist, s, y)
    &&& forall|y: int| 0 <= y < CELLS && #[trigger] dist[y].0 == usize::MAX ==> dist[y].1 == NONE
    &&& forall|u: int| 0 <= u < CELLS && dist[u].0 != usize::MAX ==> #[trigger] closed_at(g, dist, u)
}

/// The unfinished reached cell nearest the start, the smaller on a tie;
/// `NONE` where every reached cell is finished.
fn nearest_open(dist: &Vec<(usize, usize, usize)>, done: &Vec<bool>) -> (best: usize)
    requires
        dist@.len() == CELLS,
        done@.len() == CELLS,
    ensures
        best == NONE ==> forall|y: int| 0 <= y < CELLS ==> #[trigger] done@[y] || dist@[y].0 == usize::MAX,
        best != NONE ==> best < CELLS && !done@[best as int] && dist@[best as int].0 != usize::MAX,
        best != NONE ==> forall|y: int|
            0 <= y < CELLS && !#[trigger] done@[y] && dist@[y].0 != usize::MAX ==> dist@[best as int].0 <= dist@[y].0,
{
    let mut best = NONE;
    let mut y: usize = 0;
    while y < CELLS
        invariant
            dist@.len() == CELLS,
            done@.len() == CELLS,
            y <= CELLS,
            best == NONE || (best < CELLS && !done@[best as int] && dist@[best as int].0 != usize::MAX),
            best == NONE ==> forall|z: int| 0 <= z < y ==> #[trigger] done@[z] || dist@[z].0 == usize::MAX,
            best != NONE ==> forall|z: int|
                0 <= z < y && !#[trigger] done@[z] && dist@[z].0 != usize::MAX ==> dist@[best as int].0 <= dist@[z].0,
        decreases CELLS - y,
    {
        if !done[y] && dist[y].0 != usize::MAX {
            if best == NONE || dist[y].0 < dist[best].0 {
                best = y;
            }
        }
        y = y + 1;
    }
    best
}

/// Settles cell `best` at distance `d`: each cell one move from it that
/// stood farther than `d + 1` now stands at `d + 1`, reached from `best`.
fn relax(dist: &mut Vec<(usize, usize, usize)>, g: &Vec<Vec<usize>>, best: usize, d: usize)
    requires
        moves_ok(g@),
        old(dist)@.len() == CELLS,
        best < CELLS,
        d == old(dist)@[best as int].0,
        d < CELLS,
    ensures
        final(dist)@.len() == CELLS,
        forall|y: int|
            0 <= y < CELLS ==> #[trigger] final(dist)@[y] == old(dist)@[y] || (final(dist)@[y].0 == d + 1
                && d + 1 < old(dist)@[y].0 && final(dist)@[y].1 < 4 && final(dist)@[y].2 == best
                && g@[best as int]@[final(dist)@[y].1 as int] == y),
        closed_at(g@, final(dist)@, best as int),
        final(dist)@[best as int] == old(dist)@[best as int],
{
    let mut dir: usize = 0;
    while dir < 4
        invariant
            moves_ok(g@),
            best < CELLS,
            d < CELLS,
            dist@.len() == CELLS,
            dist@[best as int] == old(dist)@[best as int],
            d == dist@[best as int].0,
            dir <= 4,
            forall|y: int|
                0 <= y < CELLS ==> #[trigger] dist@[y] == old(dist)@[y] || (dist@[y].0 == d + 1 && d + 1
                    < old(dist)@[y].0 && dist@[y].1 < 4 && dist@[y].2 == best && g@[best as int]@[dist@[y].1 as int]
                    == y),
            forall|k: int| 0 <= k < dir ==> #[trigger] dist@[g@[best as int]@[k] as int].0 <= d + 1,
        decreases 4 - dir,
    {
        let u = g[best][dir];
        if d + 1 < dist[u].0 {
            dist.set(u, (d + 1, dir, best));
        }
        proof {
            assert forall|k: int| 0 <= k < dir + 1 implies #[trigger] dist@[g@[best as int]@[k] as int].0 <= d + 1 by {
                if k < dir {
                    let w = g@[best as int]@[k] as int;
                    assert(dist@[w].0 <= d + 1);
                }
            }
        }
        dir = dir + 1;
    }
}

/// The search from `s`: distances by unit moves, cells settled in order of
/// distance and then cell, each with the move that first reached it.
#[verifier::rlimit(40)]
fn search(s: usize, g: &Vec<Vec<usize>>) -> (dist: Vec<(usize, usize, usize)>)
    requires
        s < CELLS,
        moves_ok(g@),
    ensures
        searched(g@, dist@, s as int),
{
    let mut dist: Vec<(usize, usize, usize)> = Vec::new();
    let mut done: Vec<bool> = Vec::new();
    let mut x: usize = 0;
    while x < CELLS
        invariant
            x <= CELLS,
            dist@.len() == x,
            done@.len() == x,
            forall|y: int| 0 <= y < x ==> #[trigger] dist@[y] == (if y == s { (0usize, NONE, NONE) } else { (usize::MAX, NONE, NONE) }),
            forall|y: int| 0 <= y < x ==> !#[trigger] done@[y],
        decreases CELLS - x,
    {
        dist.push(if x == s { (0, NONE, NONE) } else { (usize::MAX, NONE, NONE) });
        done.push(false);
        x = x + 1;
    }
    let mut rounds: usize = 0;
    let mut more = true;
    let ghost mut last: int = 0;
    let ghost mut settled: Set<int> = Set::empty();
    while more && rounds < CELLS
        invariant
            s < CELLS,
            moves_ok(g@),
            dist@.len() == CELLS,
            done@.len() == CELLS,
            dist@[s as int] == (0usize, NONE, NONE),
            rounds <= CELLS,
            0 <= last,
            forall|y: int| 0 <= y < CELLS ==> #[trigger] dist@[y].0 <= rounds || dist@[y].0 == usize::MAX,
            forall|y: int| 0 <= y < CELLS ==> #[trigger] came_from(g@, dist@, s as int, y),
            forall|y: int| 0 <= y < CELLS && #[trigger] dist@[y].0 == usize::MAX ==> dist@[y].1 == NONE,
            forall|y: int| 0 <= y < CELLS && #[trigger] done@[y] ==> dist@[y].0 != usize::MAX && dist@[y].0 <= last,
            forall|y: int| 0 <= y < CELLS && !#[trigger] done@[y] && dist@[y].0 != usize::MAX ==> last <= dist@[y].0,
            forall|u: int| 0 <= u < CELLS && done@[u] ==> #[trigger] closed_at(g@, dist@, u),
            forall|y: int| #[trigger] settled.contains(y) <==> 0 <= y < CELLS && done@[y],
            settled.finite(),
            settled.len() == rounds,
            !more ==> forall|y: int| 0 <= y < CELLS ==> #[trigger] done@[y] || dist@[y].0 == usize::MAX,
        decreases CELLS - rounds, if more { 1int } else { 0int },
    {
        let best = nearest_open(&dist, &done);
        if best == NONE {
            more = false;
        } else {
            let d = dist[best].0;
            assert(d <= rounds);
            let ghost d0 = dist@;
            let ghost done0 = done@;
            done.set(best, true);
            relax(&mut dist, g, best, d);
            proof {
                assert(!settled.contains(best as int));
                settled = settled.insert(best as int);
                assert forall|y: int| 0 <= y < CELLS implies #[trigger] dist@[y].0 <= d0[y].0 by {
                    assert(dist@[y] == d0[y] || dist@[y].0 < d0[y].0);
                }
                assert forall|y: int| 0 <= y < CELLS && #[trigger] done0[y] implies dist@[y] == d0[y] by {
                    assert(d0[y].0 <= last);
                    assert(last <= d);
                }
                assert forall|u: int| 0 <= u < CELLS && done@[u] implies #[trigger] closed_at(g@, dist@, u) by {
                    if u != best {
                        assert(done0[u]);
                        assert(closed_at(g@, d0, u));
                        assert forall|dir: int| 0 <= dir < 4 implies #[trigger] dist@[g@[u]@[dir] as int].0 <= dist@[u].0 + 1 by {
                            let w = g@[u]@[dir] as int;
                            assert(d0[w].0 <= d0[u].0 + 1);
                            assert(dist@[w].0 <= d0[w].0);
                        }
                    }
                }
                assert forall|y: int| 0 <= y < CELLS implies #[trigger] came_from(g@, dist@, s as int, y) by {
                    if dist@[y] == d0[y] {
                        assert(came_from(g@, d0, s as int, y));
                        if y != s && dist@[y].0 != usize::MAX {
                            let p = d0[y].2 as int;
                            assert(dist@[p].0 <= d0[p].0);
                        }
                    }
                }
                assert forall|y: int| 0 <= y < CELLS && #[trigger] done@[y] implies dist@[y].0 != usize::MAX && dist@[y].0 <= d by {
                    if y != best {
                        assert(done0[y]);
                    }
                }
                assert forall|y: int| 0 <= y < CELLS && !#[trigger] done@[y] && dist@[y].0 != usize::MAX implies d <= dist@[y].0 by {
                    if dist@[y] == d0[y] {
                        assert(!done0[y]);
                    }
                }
                last = d as int;
            }
            rounds = rounds + 1;
        }
    }
    proof {
        if more {
            vstd::set_lib::lemma_int_range(0, CELLS as int);
            assert(settled.subset_of(vstd::set_lib::set_int_range(0, CELLS as int)));
            vstd::set_lib::lemma_subset_equality(settled, vstd::set_lib::set_int_range(0, CELLS as int));
            assert forall|y: int| 0 <= y < CELLS implies #[trigger] done@[y] || dist@[y].0 == usize::MAX by {
                assert(vstd::set_lib::set_int_range(0, CELLS as int).contains(y));
                assert(settled.contains(y));
            }
        }
        assert forall|u: int| 0 <= u < CELLS && dist@[u].0 != usize::MAX implies #[trigger] closed_at(g@, dist@, u) by {
            assert(done@[u] || dist@[u].0 == usize::MAX);
        }
    }
    dist
}

/// Walking along `dirs` from a reached cell `x` ends at a cell at most
/// `dirs.len()` farther from the start.
proof fn lemma_walk_within(g: Seq<Vec<usize>>, dist: Seq<(usize, usize, usize)>, s: int, x: int, dirs: Seq<usize>)
    requires
        moves_ok(g),
        searched(g, dist, s),
        0 <= x < CELLS,
        dist[x].0 != usize::MAX,
        forall|k: int| 0 <= k < dirs.len() ==> #[trigger] dirs[k] < 4,
    ensures
        0 <= walk(g, x, dirs) < CELLS,
        dist[walk(g, x, dirs)].0 != usize::MAX,
        dist[walk(g, x, dirs)].0 <= dist[x].0 + dirs.len(),
    decreases dirs.len(),
{
    if dirs.len() > 0 {
        let d0 = dirs[0] as int;
        assert(dirs[0] < 4);
        let y = g[x]@[d0] as int;
        assert(closed_at(g, dist, x));
        assert(dist[y].0 <= dist[x].0 + 1);
        assert(dist[x].0 <= CELLS);
        assert forall|k: int| 0 <= k < dirs.drop_first().len() implies #[trigger] dirs.drop_first()[k] < 4 by {
            assert(dirs.drop_first()[k] == dirs[k + 1]);
        }
        lemma_walk_within(g, dist, s, y, dirs.drop_first());
    }
}

/// A shortest route from `s` to `t` by unit moves, as directions: empty
/// exactly where `t` is `s` or no route reaches it. Cells are settled in
/// order of distance and then cell, and each step is the move that first
/// reached its cell.
pub fn shortest_route(s: usize, t: usize, g: &Vec<Vec<usize>>) -> (ans: Vec<usize>)
    requires
        s < CELLS,
        t < CELLS,
        moves_ok(g@),
    ensures
        ans@.len() > 0 ==> is_route(g@, s as int, t as int, ans@),
        ans@.len() == 0 ==> s == t || forall|dirs: Seq<usize>| !#[trigger] is_route(g@, s as int, t as int, dirs),
        forall|dirs: Seq<usize>| #[trigger] is_route(g@, s as int, t as int, dirs) ==> ans@.len() <= dirs.len(),
{
    let dist = search(s, g);
    // walk back from the goal along the recorded moves
    let mut ans: Vec<usize> = Vec::new();
    let mut before = t;
    let ghost mut back: Seq<usize> = Seq::empty();
    while dist[before].1 != NONE
        invariant
            s < CELLS,
            t < CELLS,
            moves_ok(g@),
            before < CELLS,
            searched(g@, dist@, s as int),
            ans@.len() == back.len(),
            forall|k: int| 0 <= k < ans@.len() ==> #[trigger] ans@[k] == back[back.len() - 1 - k],
            walk(g@, before as int, back) == t,
            forall|k: int| 0 <= k < back.len() ==> #[trigger] back[k] < 4,
            back.len() > 0 ==> dist@[before as int].0 != usize::MAX,
            back.len() + dist@[before as int].0 <= dist@[t as int].0,
            back.len() == 0 ==> before == t,
            dist@[t as int].0 == usize::MAX ==> back.len() == 0,
        decreases dist@[before as int].0,
    {
        let x = dist[before].1;
        let p = dist[before].2;
        proof {
            assert(dist@[before as int].0 != usize::MAX);
            assert(came_from(g@, dist@, s as int, before as int));
            let nb = seq![x] + back;
            assert(nb.drop_first() =~= back);
            assert(walk(g@, p as int, nb) == walk(g@, g@[p as int]@[x as int] as int, back));
            assert forall|k: int| 0 <= k < nb.len() implies #[trigger] nb[k] < 4 by {
                if k > 0 {
                    assert(nb[k] == back[k - 1]);
                }
            }
            back = nb;
        }
        ans.push(x);
        before = p;
    }
    proof {
        if back.len() > 0 {
            if before != s {
                assert(dist@[before as int].0 != usize::MAX);
                assert(came_from(g@, dist@, s as int, before as int));
            }
        }
        assert forall|dirs: Seq<usize>| #[trigger] is_route(g@, s as int, t as int, dirs) implies dist@[t as int].0
            <= dirs.len() && dist@[t as int].0 != usize::MAX by {
            lemma_walk_within(g@, dist@, s as int, s as int, dirs);
        }
        if dist@[t as int].0 == usize::MAX {
            assert(back.len() == 0);
        }
        if back.len() == 0 && s != t {
            assert(dist@[t as int].1 == NONE);
            assert(came_from(g@, dist@, s as int, t as int));
            assert(dist@[t as int].0 == usize::MAX);
        }
    }
    let mut res: Vec<usize> = Vec::new();
    let mut k = ans.len();
    while k > 0
        invariant
            k <= ans@.len(),
            ans@.len() == back.len(),
            forall|q: int| 0 <= q < ans@.len() ==> #[trigger] ans@[q] == back[back.len() - 1 - q],
            res@ == back.subrange(0, (ans@.len() - k) as int),
        decreases k,
    {
        k = k - 1;
        res.push(ans[k]);
        assert(res@ =~= back.subrange(0, (ans@.len() - k) as int));
    }
    assert(res@ =~= back);
    res
}

} // verus!
