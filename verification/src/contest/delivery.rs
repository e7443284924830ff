use vstd::prelude::*;
use crate::random::pcg::gen_index;

verus! {

/// The number of orders offered.
pub const ORDERS: usize = 1000;

/// The number of points of the orders: a restaurant and a destination each.
pub const POINTS: usize = 2000;

/// The number of orders to take.
pub const CHOSEN: usize = 50;

/// The number of stops of a tour, the office aside.
pub const STOPS: usize = 100;

/// The index of the office, where the tour starts and ends.
pub const OFFICE: usize = 2000;

/// Marks a point that the tour does not visit.
pub const NONE: usize = usize::MAX;

/// The largest coordinate taken, so that every tour length fits in an `i64`.
pub const COORD_LIMIT: i64 = 1_000_000_000;

pub open spec fn abs_int(x: int) -> int {
    if x < 0 { -x } else { x }
}

/// The Manhattan distance of two points.
pub open spec fn manhattan(a: (i64, i64), b: (i64, i64)) -> int {
    abs_int(a.0 - b.0) + abs_int(a.1 - b.1)
}

pub open spec fn in_range(c: (i64, i64)) -> bool {
    -COORD_LIMIT <= c.0 <= COORD_LIMIT && -COORD_LIMIT <= c.1 <= COORD_LIMIT
}

/// Both points of an order lie within the coordinate limit.
pub open spec fn order_in_range(v: (i64, i64, i64, i64)) -> bool {
    in_range((v.0, v.1)) && in_range((v.2, v.3))
}

/// The points, restaurant `2 * i` and destination `2 * i + 1` of order `i`
/// and the office last, with the distance of every two of them.
pub struct Input {
    pub p: Vec<(i64, i64)>,
    pub dist: Vec<Vec<i64>>,
}

impl Input {
    pub open spec fn d(&self, a: int, b: int) -> int {
        self.dist@[a]@[b] as int
    }

    pub open spec fn wf(&self) -> bool {
        &&& self.p@.len() == POINTS + 1
        &&& self.dist@.len() == POINTS + 1
        &&& forall|a: int| 0 <= a <= POINTS ==> #[trigger] self.dist@[a]@.len() == POINTS + 1
        &&& forall|a: int| 0 <= a <= POINTS ==> in_range(#[trigger] self.p@[a])
        &&& forall|a: int, b: int|
            0 <= a <= POINTS && 0 <= b <= POINTS ==> #[trigger] self.d(a, b) == manhattan(
                self.p@[a],
                self.p@[b],
            )
    }

    /// The points of the orders `vs` (restaurant, then destination), the
    /// office at (400, 400), and their distances.
    pub fn new(vs: &Vec<(i64, i64, i64, i64)>) -> (r: Input)
        requires
            vs@.len() == ORDERS,
            forall|i: int| 0 <= i < ORDERS ==> order_in_range(#[trigger] vs@[i]),
        ensures
            r.wf(),
            forall|i: int|
                0 <= i < ORDERS ==> r.p@[2 * i] == (#[trigger] vs@[i].0, vs@[i].1) && r.p@[2 * i
                    + 1] == (vs@[i].2, vs@[i].3),
            r.p@[POINTS as int] == (400i64, 400i64),
    {
        let mut p: Vec<(i64, i64)> = Vec::new();
        let mut i: usize = 0;
        while i < ORDERS
            invariant
                vs@.len() == ORDERS,
                i <= ORDERS,
                p@.len() == 2 * i,
                forall|k: int| 0 <= k < ORDERS ==> order_in_range(#[trigger] vs@[k]),
                forall|k: int|
                    0 <= k < i ==> p@[2 * k] == (#[trigger] vs@[k].0, vs@[k].1) && p@[2 * k + 1]
                        == (vs@[k].2, vs@[k].3),
                forall|a: int| 0 <= a < p@.len() ==> in_range(#[trigger] p@[a]),
            decreases ORDERS - i,
        {
            let (a, b, c, d) = vs[i];
            p.push((a, b));
            p.push((c, d));
            proof {
                assert forall|a: int| 0 <= a < p@.len() implies in_range(#[trigger] p@[a]) by {
                    if a >= 2 * i {
                        assert(order_in_range(vs@[i as int]));
                    }
                }
            }
            i = i + 1;
        }
        let ghost p0 = p@;
        p.push((400, 400));
        assert forall|k: int|
            0 <= k < ORDERS implies p@[2 * k] == (#[trigger] vs@[k].0, vs@[k].1) && p@[2 * k + 1] == (
            vs@[k].2,
            vs@[k].3,
        ) by {
            assert(p@[2 * k] == p0[2 * k] && p@[2 * k + 1] == p0[2 * k + 1]);
        }
        let mut dist: Vec<Vec<i64>> = Vec::new();
        let mut a: usize = 0;
        while a <= POINTS
            invariant
                p@.len() == POINTS + 1,
                forall|k: int| 0 <= k < p@.len() ==> in_range(#[trigger] p@[k]),
                a <= POINTS + 1,
                dist@.len() == a,
                forall|x: int| 0 <= x < a ==> #[trigger] dist@[x]@.len() == POINTS + 1,
                forall|x: int, y: int|
                    0 <= x < a && 0 <= y <= POINTS ==> #[trigger] dist@[x]@[y] == manhattan(
                        p@[x],
                        p@[y],
                    ),
            decreases POINTS + 1 - a,
        {
            let mut row: Vec<i64> = Vec::new();
            let mut b: usize = 0;
            while b <= POINTS
                invariant
                    p@.len() == POINTS + 1,
                    forall|k: int| 0 <= k < p@.len() ==> in_range(#[trigger] p@[k]),
                    a <= POINTS,
                    b <= POINTS + 1,
                    row@.len() == b,
                    forall|y: int| 0 <= y < b ==> #[trigger] row@[y] == manhattan(p@[a as int], p@[y]),
                decreases POINTS + 1 - b,
            {
                let (ax, ay) = p[a];
                let (bx, by) = p[b];
                assert(in_range(p@[a as int]) && in_range(p@[b as int]));
                let dx = if ax < bx { bx - ax } else { ax - bx };
                let dy = if ay < by { by - ay } else { ay - by };
                row.push(dx + dy);
                b = b + 1;
            }
            dist.push(row);
            a = a + 1;
        }
        let r = Input { p, dist };
        assert forall|x: int, y: int| 0 <= x <= POINTS && 0 <= y <= POINTS implies #[trigger] r.d(
            x,
            y,
        ) == manhattan(r.p@[x], r.p@[y]) by {
            assert(r.dist@[x]@[y] == manhattan(p@[x], p@[y]));
        }
        r
    }
}

/// The length of the walk through the points `s` in order.
pub open spec fn tour_cost(input: &Input, s: Seq<usize>) -> int
    decreases s.len(),
{
    if s.len() < 2 {
        0
    } else {
        tour_cost(input, s.drop_last()) + input.d(s[s.len() - 2] as int, s[s.len() - 1] as int)
    }
}

/// Every point of `s` is a point of the input.
pub open spec fn on_points(s: Seq<usize>) -> bool {
    forall|k: int| 0 <= k < s.len() ==> #[trigger] s[k] <= POINTS
}

/// Walking `a` and then `b` costs both walks and the step between them.
pub proof fn lemma_cost_concat(input: &Input, a: Seq<usize>, b: Seq<usize>)
    requires
        a.len() > 0,
        b.len() > 0,
    ensures
        tour_cost(input, a + b) == tour_cost(input, a) + input.d(a.last() as int, b[0] as int)
            + tour_cost(input, b),
    decreases b.len(),
{
    if b.len() == 1 {
        assert((a + b).drop_last() =~= a);
    } else {
        lemma_cost_concat(input, a, b.drop_last());
        assert((a + b).drop_last() =~= a + b.drop_last());
    }
}

/// A walk costs as much backward as forward.
pub proof fn lemma_cost_reverse(input: &Input, s: Seq<usize>)
    requires
        input.wf(),
        on_points(s),
    ensures
        tour_cost(input, s.reverse()) == tour_cost(input, s),
    decreases s.len(),
{
    if s.len() < 2 {
        if s.len() == 1 {
            assert(s.reverse() =~= s);
        }
    } else {
        let t = s.drop_last();
        lemma_cost_reverse(input, t);
        let x = s.last();
        assert(s.reverse() =~= seq![x] + t.reverse());
        lemma_cost_concat(input, seq![x], t.reverse());
        assert(t.reverse()[0] == s[s.len() - 2]);
        assert(input.d(x as int, s[s.len() - 2] as int) == input.d(s[s.len() - 2] as int, x as int));
    }
}

/// Inserting `e` between positions `k - 1` and `k` replaces that step by two.
pub proof fn lemma_cost_insert(input: &Input, s: Seq<usize>, k: int, e: usize)
    requires
        1 <= k < s.len(),
    ensures
        tour_cost(input, s.insert(k, e)) == tour_cost(input, s) - input.d(
            s[k - 1] as int,
            s[k] as int,
        ) + input.d(s[k - 1] as int, e as int) + input.d(e as int, s[k] as int),
{
    let a = s.subrange(0, k);
    let b = s.subrange(k, s.len() as int);
    assert(s =~= a + b);
    assert(s.insert(k, e) =~= a.push(e) + b);
    assert(a.push(e).drop_last() =~= a);
    lemma_cost_concat(input, a, b);
    lemma_cost_concat(input, a.push(e), b);
}

/// A step between two points is at most this long.
pub proof fn lemma_step_bound(input: &Input, a: int, b: int)
    requires
        input.wf(),
        0 <= a <= POINTS,
        0 <= b <= POINTS,
    ensures
        0 <= input.d(a, b) <= 4 * COORD_LIMIT,
{
    assert(in_range(input.p@[a]) && in_range(input.p@[b]));
}

/// A walk of `s.len()` points is at most `s.len()` steps long.
pub proof fn lemma_cost_bound(input: &Input, s: Seq<usize>)
    requires
        input.wf(),
        on_points(s),
    ensures
        0 <= tour_cost(input, s) <= s.len() * 4000000000,
    decreases s.len(),
{
    if s.len() >= 2 {
        let t = s.drop_last();
        assert(on_points(t));
        lemma_cost_bound(input, t);
        lemma_step_bound(input, s[s.len() - 2] as int, s[s.len() - 1] as int);
        let n = t.len() as int;
        assert(n * 4000000000 + 4000000000 == (n + 1) * 4000000000) by (nonlinear_arith);
    }
}

/// The tour with the stops at positions `i..j` in reverse order.
pub open spec fn reversed(s: Seq<usize>, i: int, j: int) -> Seq<usize> {
    Seq::new(s.len(), |k: int| if i <= k < j { s[i + j - 1 - k] } else { s[k] })
}

/// The change of length from reversing positions `i..j`: the two steps at
/// the ends of the range are replaced.
pub open spec fn reverse_gain(input: &Input, s: Seq<usize>, i: int, j: int) -> int {
    -input.d(s[i - 1] as int, s[i] as int) - input.d(s[j - 1] as int, s[j] as int) + input.d(
        s[i - 1] as int,
        s[j - 1] as int,
    ) + input.d(s[i] as int, s[j] as int)
}

/// Reversing a range of a walk changes its length by `reverse_gain`.
pub proof fn lemma_reverse_cost(input: &Input, s: Seq<usize>, i: int, j: int)
    requires
        input.wf(),
        on_points(s),
        1 <= i,
        i + 2 <= j < s.len(),
    ensures
        tour_cost(input, reversed(s, i, j)) == tour_cost(input, s) + reverse_gain(input, s, i, j),
{
    let a = s.subrange(0, i);
    let m = s.subrange(i, j);
    let b = s.subrange(j, s.len() as int);
    assert(s =~= (a + m) + b);
    assert(reversed(s, i, j) =~= (a + m.reverse()) + b);
    lemma_cost_reverse(input, m);
    lemma_cost_concat(input, a, m);
    lemma_cost_concat(input, a + m, b);
    lemma_cost_concat(input, a, m.reverse());
    lemma_cost_concat(input, a + m.reverse(), b);
    assert((a + m).last() == s[j - 1]);
    assert((a + m.reverse()).last() == s[i]);
    assert(m.reverse()[0] == s[j - 1]);
}

/// The position of the restaurant of order `o` in the tour, or `NONE`.
pub open spec fn pickup_at(inv: Seq<usize>, o: int) -> usize {
    inv[2 * o]
}

/// The position of the destination of order `o` in the tour, or `NONE`.
pub open spec fn delivery_at(inv: Seq<usize>, o: int) -> usize {
    inv[2 * o + 1]
}

/// No two stops at positions `i..j` belong to one order.
pub open spec fn reversible(s: Seq<usize>, i: int, j: int) -> bool {
    forall|a: int, b: int| i <= a < b < j ==> #[trigger] (s[a] / 2) != #[trigger] (s[b] / 2)
}

/// The tour that starts with the orders' restaurants in order and then
/// visits their destinations in order.
pub open spec fn first_tour() -> Seq<usize> {
    Seq::new(
        (STOPS + 2) as nat,
        |k: int|
            if k == 0 || k == STOPS + 1 {
                OFFICE
            } else if k <= CHOSEN {
                (2 * (k - 1)) as usize
            } else {
                (2 * (k - 1 - CHOSEN) + 1) as usize
            },
    )
}

/// `s` starts and ends at the office and visits each point at most once,
/// `inv` gives each point's position, and every order is taken whole with
/// its restaurant first.
pub open spec fn tour_ok(s: Seq<usize>, inv: Seq<usize>) -> bool {
    &&& s.len() == STOPS + 2
    &&& s[0] == OFFICE
    &&& s[STOPS + 1] == OFFICE
    &&& inv.len() == POINTS
    &&& forall|k: int| 1 <= k <= STOPS ==> #[trigger] s[k] < POINTS && inv[s[k] as int] == k
    &&& forall|v: int|
        0 <= v < POINTS ==> #[trigger] inv[v] == NONE || (1 <= inv[v] <= STOPS && s[inv[v] as int]
            == v)
    &&& forall|o: int|
        0 <= o < ORDERS ==> ((#[trigger] pickup_at(inv, o) == NONE) == (delivery_at(inv, o) == NONE))
            && (pickup_at(inv, o) != NONE ==> pickup_at(inv, o) < delivery_at(inv, o))
}

/// A tour through the office, the chosen orders' restaurants and
/// destinations, and the office again, with the position of every point
/// and its length.
pub struct State {
    pub perm: Vec<usize>,
    pub inv: Vec<usize>,
    pub score: i64,
}

impl State {
    /// `perm` starts and ends at the office and visits each point at most
    /// once, `inv` gives each point's position, every order is taken whole
    /// with its restaurant first, and `score` is the tour's length.
    pub open spec fn wf(&self, input: &Input) -> bool {
        &&& input.wf()
        &&& tour_ok(self.perm@, self.inv@)
        &&& self.score == tour_cost(input, self.perm@)
    }
}

/// The length of the walk through `s`, computed step by step.
pub fn walk_cost(input: &Input, s: &Vec<usize>) -> (r: i64)
    requires
        input.wf(),
        on_points(s@),
        s@.len() <= 1000,
    ensures
        r == tour_cost(input, s@),
{
    let mut r: i64 = 0;
    let mut k: usize = 0;
    if s.len() < 2 {
        return 0;
    }
    while k + 1 < s.len()
        invariant
            input.wf(),
            on_points(s@),
            2 <= s@.len() <= 1000,
            k + 1 <= s@.len(),
            r == tour_cost(input, s@.subrange(0, k + 1)),
        decreases s@.len() - k,
    {
        proof {
            let t = s@.subrange(0, k + 2);
            assert(t.drop_last() =~= s@.subrange(0, k + 1));
            lemma_step_bound(input, s@[k as int] as int, s@[k + 1] as int);
            lemma_cost_bound(input, s@.subrange(0, k + 1));
            assert(on_points(s@.subrange(0, k + 1)));
        }
        r = r + input.dist[s[k]][s[k + 1]];
        k = k + 1;
    }
    assert(s@.subrange(0, k + 1) =~= s@);
    r
}

impl State {
    /// The tour `first_tour()`: every chosen order's restaurant in order,
    /// then every destination in order.
    pub fn init(input: &Input) -> (st: State)
        requires
            input.wf(),
        ensures
            st.wf(input),
            st.perm@ == first_tour(),
    {
        let mut perm: Vec<usize> = Vec::new();
        let mut k: usize = 0;
        while k < STOPS + 2
            invariant
                k <= STOPS + 2,
                perm@.len() == k,
                forall|x: int| 0 <= x < k ==> #[trigger] perm@[x] == OFFICE,
            decreases STOPS + 2 - k,
        {
            perm.push(OFFICE);
            k = k + 1;
        }
        let mut inv: Vec<usize> = Vec::new();
        let mut v: usize = 0;
        while v < POINTS
            invariant
                v <= POINTS,
                inv@.len() == v,
                forall|x: int| 0 <= x < v ==> #[trigger] inv@[x] == NONE,
            decreases POINTS - v,
        {
            inv.push(NONE);
            v = v + 1;
        }
        let mut i: usize = 0;
        while i < CHOSEN
            invariant
                i <= CHOSEN,
                perm@.len() == STOPS + 2,
                inv@.len() == POINTS,
                forall|x: int|
                    0 <= x < STOPS + 2 ==> #[trigger] perm@[x] == if 1 <= x <= i {
                        (2 * (x - 1)) as usize
                    } else {
                        OFFICE
                    },
                forall|y: int|
                    0 <= y < POINTS ==> #[trigger] inv@[y] == if y < 2 * i && y % 2 == 0 {
                        (y / 2 + 1) as usize
                    } else {
                        NONE
                    },
            decreases CHOSEN - i,
        {
            perm.set(i + 1, 2 * i);
            inv.set(2 * i, i + 1);
            i = i + 1;
        }
        let mut i: usize = 0;
        while i < CHOSEN
            invariant
                i <= CHOSEN,
                perm@.len() == STOPS + 2,
                inv@.len() == POINTS,
                forall|x: int|
                    0 <= x < STOPS + 2 ==> #[trigger] perm@[x] == if 1 <= x <= CHOSEN {
                        (2 * (x - 1)) as usize
                    } else if CHOSEN < x <= CHOSEN + i {
                        (2 * (x - 1 - CHOSEN) + 1) as usize
                    } else {
                        OFFICE
                    },
                forall|y: int|
                    0 <= y < POINTS ==> #[trigger] inv@[y] == if y < 2 * CHOSEN && y % 2 == 0 {
                        (y / 2 + 1) as usize
                    } else if y < 2 * i && y % 2 == 1 {
                        (CHOSEN + y / 2 + 1) as usize
                    } else {
                        NONE
                    },
            decreases CHOSEN - i,
        {
            perm.set(CHOSEN + i + 1, 2 * i + 1);
            inv.set(2 * i + 1, CHOSEN + i + 1);
            i = i + 1;
        }
        assert(perm@ =~= first_tour());
        assert(on_points(perm@));
        let score = walk_cost(input, &perm);
        let st = State { perm, inv, score };
        assert forall|o: int| 0 <= o < ORDERS implies ((#[trigger] pickup_at(st.inv@, o) == NONE) == (
        delivery_at(st.inv@, o) == NONE)) && (pickup_at(st.inv@, o) != NONE ==> pickup_at(st.inv@, o)
            < delivery_at(st.inv@, o)) by {
            assert((2 * o) % 2 == 0 && (2 * o) / 2 == o);
            assert((2 * o + 1) % 2 == 1 && (2 * o + 1) / 2 == o);
        }
        assert forall|x: int| 1 <= x <= STOPS implies #[trigger] st.perm@[x] < POINTS
            && st.inv@[st.perm@[x] as int] == x by {
            if x <= CHOSEN {
                assert((2 * (x - 1)) % 2 == 0 && (2 * (x - 1)) / 2 == x - 1);
            } else {
                assert((2 * (x - 1 - CHOSEN) + 1) % 2 == 1 && (2 * (x - 1 - CHOSEN) + 1) / 2 == x - 1
                    - CHOSEN);
            }
        }
        st
    }

    /// Whether the kept length is the tour's length, computed anew.
    pub fn score_matches(&self, input: &Input) -> (r: bool)
        requires
            input.wf(),
            on_points(self.perm@),
            self.perm@.len() <= 1000,
        ensures
            r == (self.score == tour_cost(input, self.perm@)),
    {
        let c = walk_cost(input, &self.perm);
        c == self.score
    }

    /// The change of length from reversing positions `i..j`.
    fn reverse_delta(&self, input: &Input, i: usize, j: usize) -> (r: i64)
        requires
            self.wf(input),
            1 <= i,
            i + 2 <= j <= STOPS + 1,
        ensures
            r == reverse_gain(input, self.perm@, i as int, j as int),
            r == tour_cost(input, reversed(self.perm@, i as int, j as int)) - tour_cost(
                input,
                self.perm@,
            ),
    {
        proof {
            assert(on_points(self.perm@));
            lemma_reverse_cost(input, self.perm@, i as int, j as int);
            lemma_step_bound(input, self.perm@[i - 1] as int, self.perm@[i as int] as int);
            lemma_step_bound(input, self.perm@[j - 1] as int, self.perm@[j as int] as int);
            lemma_step_bound(input, self.perm@[i - 1] as int, self.perm@[j - 1] as int);
            lemma_step_bound(input, self.perm@[i as int] as int, self.perm@[j as int] as int);
        }
        let p = &self.perm;
        0 - input.dist[p[i - 1]][p[i]] - input.dist[p[j - 1]][p[j]] + input.dist[p[i - 1]][p[j
            - 1]] + input.dist[p[i]][p[j]]
    }

    /// Draws a range of positions to reverse, two draws in `1..=STOPS`,
    /// and tries it with `reverse_from_draws`.
    pub fn propose_reverse(&self, input: &Input, mt: &mut rand_pcg::Mcg128Xsl64) -> (r: Option<
        (usize, usize, i64),
    >)
        requires
            self.wf(input),
        ensures
            match r {
                Some((i, j, delta)) => 1 <= i && i + 2 <= j <= STOPS + 1 && delta == tour_cost(
                    input,
                    reversed(self.perm@, i as int, j as int),
                ) - tour_cost(input, self.perm@),
                None => true,
            },
    {
        let a = gen_index(mt, 1, STOPS + 1);
        let b = gen_index(mt, 1, STOPS + 1);
        self.reverse_from_draws(input, a, b)
    }

    /// The range between the drawn positions `a` and `b`, from the smaller
    /// up to the larger included: `None` where they coincide (fewer than
    /// two stops), else the range and the change of length that reversing
    /// it makes.
    pub fn reverse_from_draws(&self, input: &Input, a: usize, b: usize) -> (r: Option<(usize, usize, i64)>)
        requires
            self.wf(input),
            1 <= a <= STOPS,
            1 <= b <= STOPS,
        ensures
            r is None <==> a == b,
            match r {
                Some((i, j, delta)) => {
                    &&& i == (if a < b { a } else { b })
                    &&& j == (if a < b { b } else { a }) + 1
                    &&& 1 <= i && i + 2 <= j <= STOPS + 1
                    &&& delta == tour_cost(input, reversed(self.perm@, i as int, j as int)) - tour_cost(
                        input,
                        self.perm@,
                    )
                },
                None => true,
            },
    {
        let i = if a < b { a } else { b };
        let j = (if a < b { b } else { a }) + 1;
        if i + 2 > j {
            return None;
        }
        let delta = self.reverse_delta(input, i, j);
        Some((i, j, delta))
    }

    /// Reverses the stops at positions `i..j` where no order has both its
    /// stops there, so that every restaurant stays before its destination;
    /// returns whether it did.
    pub fn commit_reverse(&mut self, input: &Input, i: usize, j: usize) -> (r: bool)
        requires
            old(self).wf(input),
            1 <= i,
            i + 2 <= j <= STOPS + 1,
        ensures
            r == reversible(old(self).perm@, i as int, j as int),
            final(self).wf(input),
            r ==> final(self).perm@ == reversed(old(self).perm@, i as int, j as int),
            !r ==> *final(self) == *old(self),
    {
        let mut seen: Vec<bool> = Vec::new();
        let mut o: usize = 0;
        while o < ORDERS
            invariant
                o <= ORDERS,
                seen@.len() == o,
                forall|x: int| 0 <= x < o ==> !#[trigger] seen@[x],
            decreases ORDERS - o,
        {
            seen.push(false);
            o = o + 1;
        }
        let ghost s = self.perm@;
        let mut ok = true;
        let mut k = i;
        while k < j && ok
            invariant
                self.wf(input),
                self.perm@ == s,
                1 <= i <= k <= j <= STOPS + 1,
                seen@.len() == ORDERS,
                ok ==> reversible(s, i as int, k as int),
                ok ==> forall|x: int|
                    0 <= x < ORDERS ==> (#[trigger] seen@[x] <==> exists|a: int|
                        i <= a < k && #[trigger] (s[a] / 2) == x),
                !ok ==> !reversible(s, i as int, j as int),
            decreases j - k,
        {
            let v = self.perm[k] / 2;
            if seen[v] {
                ok = false;
                proof {
                    let a = choose|a: int| i <= a < k && #[trigger] (s[a] / 2) == v;
                    assert(s[a] / 2 == s[k as int] / 2);
                }
                k = j;
            } else {
                proof {
                    assert forall|a: int, b: int| i <= a < b < k + 1 implies #[trigger] (s[a] / 2)
                        != #[trigger] (s[b] / 2) by {
                        if b == k {
                            if s[a] / 2 == s[b] / 2 {
                                assert(seen@[v as int]);
                            }
                        }
                    }
                }
                seen.set(v, true);
                proof {
                    assert forall|x: int| 0 <= x < ORDERS implies (#[trigger] seen@[x] <==> exists|a: int|
                        i <= a < k + 1 && #[trigger] (s[a] / 2) == x) by {
                        if x == v {
                            assert(s[k as int] / 2 == x);
                        }
                    }
                }
                k = k + 1;
            }
        }
        if !ok {
            return false;
        }
        let delta = self.reverse_delta(input, i, j);
        let ghost inv0 = self.inv@;
        let mut next: Vec<usize> = Vec::new();
        let mut x: usize = 0;
        while x < STOPS + 2
            invariant
                self.wf(input),
                self.perm@ == s,
                1 <= i,
                i + 2 <= j <= STOPS + 1,
                x <= STOPS + 2,
                next@.len() == x,
                forall|y: int| 0 <= y < x ==> #[trigger] next@[y] == reversed(s, i as int, j as int)[y],
            decreases STOPS + 2 - x,
        {
            let e = if i <= x && x < j { self.perm[i + j - 1 - x] } else { self.perm[x] };
            next.push(e);
            x = x + 1;
        }
        assert(next@ =~= reversed(s, i as int, j as int));
        proof {
            lemma_reverse_cost(input, s, i as int, j as int);
            assert(on_points(reversed(s, i as int, j as int)));
            lemma_cost_bound(input, reversed(s, i as int, j as int));
            assert(on_points(s));
            lemma_cost_bound(input, s);
        }
        self.perm = next;
        let mut y = i;
        while y < j
            invariant
                input.wf(),
                self.perm@ == reversed(s, i as int, j as int),
                1 <= i <= y <= j <= STOPS + 1,
                i + 2 <= j,
                s.len() == STOPS + 2,
                inv0.len() == POINTS,
                self.inv@.len() == POINTS,
                self.score == tour_cost(input, s),
                forall|a: int| 1 <= a <= STOPS ==> #[trigger] s[a] < POINTS && inv0[s[a] as int] == a,
                forall|v: int|
                    0 <= v < POINTS ==> #[trigger] inv0[v] == NONE || (1 <= inv0[v] <= STOPS
                        && s[inv0[v] as int] == v),
                forall|v: int|
                    0 <= v < POINTS ==> #[trigger] self.inv@[v] == if inv0[v] != NONE && i + j - y
                        <= inv0[v] < j {
                        (i + j - 1 - inv0[v]) as usize
                    } else {
                        inv0[v]
                    },
            decreases j - y,
        {
            let e = self.perm[y];
            assert(e == s[i + j - 1 - y]);
            self.inv.set(e, y);
            y = y + 1;
        }
        self.score = self.score + delta;
        proof {
            let q = self.perm@;
            let inv = self.inv@;
            assert forall|a: int| 1 <= a <= STOPS implies #[trigger] q[a] < POINTS && inv[q[a] as int]
                == a by {
                if i <= a < j {
                    assert(q[a] == s[i + j - 1 - a]);
                }
            }
            assert forall|v: int| 0 <= v < POINTS implies #[trigger] inv[v] == NONE || (1 <= inv[v]
                <= STOPS && q[inv[v] as int] == v) by {
                if inv0[v] != NONE {
                    assert(s[inv0[v] as int] == v);
                }
            }
            assert forall|o: int| 0 <= o < ORDERS implies ((#[trigger] pickup_at(inv, o) == NONE) == (
            delivery_at(inv, o) == NONE)) && (pickup_at(inv, o) != NONE ==> pickup_at(inv, o)
                < delivery_at(inv, o)) by {
                assert(((pickup_at(inv0, o) == NONE) == (delivery_at(inv0, o) == NONE)) && (
                pickup_at(inv0, o) != NONE ==> pickup_at(inv0, o) < delivery_at(inv0, o)));
                let pa = pickup_at(inv0, o) as int;
                let da = delivery_at(inv0, o) as int;
                if pickup_at(inv0, o) != NONE {
                    assert(s[pa] == 2 * o && s[da] == 2 * o + 1);
                    assert(s[pa] / 2 == o && s[da] / 2 == o);
                    if i <= pa < j && i <= da < j {
                        assert(false);
                    }
                }
            }
        }
        true
    }
}

/// The tour without its stops at positions `i` and `j`, `i < j`.
pub open spec fn without_pair(s: Seq<usize>, i: int, j: int) -> Seq<usize> {
    s.remove(j).remove(i)
}

/// The tour `t` with order `w` put in: its destination before position
/// `y` and then its restaurant before position `x`.
pub open spec fn with_order(t: Seq<usize>, w: int, x: int, y: int) -> Seq<usize> {
    t.insert(y, (2 * w + 1) as usize).insert(x, (2 * w) as usize)
}

/// The tour with the order at positions `i` and `j` exchanged for order
/// `w`, put in at `x` and `y`.
pub open spec fn exchanged(s: Seq<usize>, i: int, j: int, w: int, x: int, y: int) -> Seq<usize> {
    with_order(without_pair(s, i, j), w, x, y)
}

/// The change of length from taking out the stops at `i < j`.
pub open spec fn remove_gain(input: &Input, s: Seq<usize>, i: int, j: int) -> int {
    if i + 1 == j {
        -input.d(s[i - 1] as int, s[i] as int) - input.d(s[i] as int, s[j] as int) - input.d(
            s[j] as int,
            s[j + 1] as int,
        ) + input.d(s[i - 1] as int, s[j + 1] as int)
    } else {
        -input.d(s[i - 1] as int, s[i] as int) - input.d(s[i] as int, s[i + 1] as int) - input.d(
            s[j - 1] as int,
            s[j] as int,
        ) - input.d(s[j] as int, s[j + 1] as int) + input.d(s[i - 1] as int, s[i + 1] as int)
            + input.d(s[j - 1] as int, s[j + 1] as int)
    }
}

/// The change of length from putting point `e` before position `k`.
pub open spec fn one_gain(input: &Input, t: Seq<usize>, e: int, k: int) -> int {
    -input.d(t[k - 1] as int, t[k] as int) + input.d(t[k - 1] as int, e) + input.d(e, t[k] as int)
}

/// The change of length from putting both stops of order `w` together
/// before position `k`.
pub open spec fn both_gain(input: &Input, t: Seq<usize>, w: int, k: int) -> int {
    -input.d(t[k - 1] as int, t[k] as int) + input.d(t[k - 1] as int, 2 * w) + input.d(
        2 * w,
        2 * w + 1,
    ) + input.d(2 * w + 1, t[k] as int)
}

/// The change of length from `with_order(t, w, x, y)`.
pub open spec fn insert_gain(input: &Input, t: Seq<usize>, w: int, x: int, y: int) -> int {
    if x == y {
        both_gain(input, t, w, x)
    } else {
        one_gain(input, t, 2 * w, x) + one_gain(input, t, 2 * w + 1, y)
    }
}

/// `(a, x, y)` comes first in the lexicographic order, or equals `(b, x2, y2)`.
pub open spec fn lex3_le(a: int, x: int, y: int, b: int, x2: int, y2: int) -> bool {
    a < b || (a == b && (x < x2 || (x == x2 && y <= y2)))
}

pub proof fn lemma_remove_cost(input: &Input, s: Seq<usize>, i: int, j: int)
    requires
        1 <= i < j,
        j + 2 <= s.len(),
    ensures
        tour_cost(input, without_pair(s, i, j)) == tour_cost(input, s) + remove_gain(input, s, i, j),
{
    let u = s.remove(j);
    let t = u.remove(i);
    assert(s =~= u.insert(j, s[j]));
    assert(u =~= t.insert(i, s[i]));
    lemma_cost_insert(input, u, j, s[j]);
    lemma_cost_insert(input, t, i, s[i]);
}

pub proof fn lemma_insert_cost(input: &Input, t: Seq<usize>, w: int, x: int, y: int)
    requires
        0 <= w < ORDERS,
        1 <= x <= y < t.len(),
    ensures
        tour_cost(input, with_order(t, w, x, y)) == tour_cost(input, t) + insert_gain(input, t, w, x, y),
{
    let u = t.insert(y, (2 * w + 1) as usize);
    lemma_cost_insert(input, t, y, (2 * w + 1) as usize);
    lemma_cost_insert(input, u, x, (2 * w) as usize);
    assert(u[x - 1] == t[x - 1]);
    if x < y {
        assert(u[x] == t[x]);
    } else {
        assert(u[x] == (2 * w + 1) as usize);
    }
}

/// The position in the tour before the exchange from which position `b`
/// of the exchanged tour comes, where `b` is neither new stop.
pub open spec fn back_pos(i: int, j: int, x: int, y: int, b: int) -> int {
    let ub = if b > x { b - 1 } else { b };
    let tb = if ub > y { ub - 1 } else { ub };
    if tb < i { tb } else if tb < j - 1 { tb + 1 } else { tb + 2 }
}

/// Where position `a` of the tour before the exchange goes, `a` not `i` or `j`.
pub open spec fn fwd_pos(i: int, j: int, x: int, y: int, a: int) -> int {
    let tb = if a < i { a } else if a < j { a - 1 } else { a - 2 };
    let ub = if tb >= y { tb + 1 } else { tb };
    if ub >= x { ub + 1 } else { ub }
}

#[verifier::rlimit(40)]
pub proof fn lemma_exchanged_at(s: Seq<usize>, i: int, j: int, w: int, x: int, y: int, b: int)
    requires
        0 <= w < ORDERS,
        1 <= i < j,
        j + 2 <= s.len(),
        1 <= x <= y < s.len() - 2,
        0 <= b < s.len(),
    ensures
        exchanged(s, i, j, w, x, y).len() == s.len(),
        b == x ==> exchanged(s, i, j, w, x, y)[b] == (2 * w) as usize,
        b == y + 1 ==> exchanged(s, i, j, w, x, y)[b] == (2 * w + 1) as usize,
        b != x && b != y + 1 ==> {
            let a = back_pos(i, j, x, y, b);
            &&& 0 <= a < s.len()
            &&& (1 <= b <= s.len() - 2 ==> 1 <= a <= s.len() - 2)
            &&& a != i && a != j
            &&& exchanged(s, i, j, w, x, y)[b] == s[a]
            &&& fwd_pos(i, j, x, y, a) == b
        },
{
    let r = s.remove(j);
    let t = without_pair(s, i, j);
    let u = t.insert(y, (2 * w + 1) as usize);
    let q = exchanged(s, i, j, w, x, y);
    assert(q == u.insert(x, (2 * w) as usize));
    s.remove_ensures(j);
    r.remove_ensures(i);
    t.insert_ensures(y, (2 * w + 1) as usize);
    u.insert_ensures(x, (2 * w) as usize);
    if b != x && b != y + 1 {
        let ub = if b > x { b - 1 } else { b };
        let tb = if ub > y { ub - 1 } else { ub };
        assert(q[b] == u[ub]);
        assert(u[ub] == t[tb]);
        if tb < i {
            assert(t[tb] == r[tb]);
            assert(r[tb] == s[tb]);
        } else {
            assert(t[tb] == r[tb + 1]);
            if tb + 1 < j {
                assert(r[tb + 1] == s[tb + 1]);
            } else {
                assert(r[tb + 1] == s[tb + 2]);
            }
        }
    }
}

pub proof fn lemma_fwd_pos(s: Seq<usize>, i: int, j: int, w: int, x: int, y: int, a: int)
    requires
        1 <= i < j,
        j + 2 <= s.len(),
        1 <= x <= y < s.len() - 2,
        0 <= a < s.len(),
        a != i,
        a != j,
    ensures
        ({
            let b = fwd_pos(i, j, x, y, a);
            &&& 0 <= b < s.len()
            &&& (1 <= a <= s.len() - 2 ==> 1 <= b <= s.len() - 2)
            &&& b != x && b != y + 1
            &&& back_pos(i, j, x, y, b) == a
        }),
{
}

/// The stops kept by an exchange keep their order.
pub proof fn lemma_back_pos_increasing(i: int, j: int, x: int, y: int, b1: int, b2: int)
    requires
        1 <= i < j,
        1 <= x <= y,
        b1 < b2,
        b1 != x && b1 != y + 1,
        b2 != x && b2 != y + 1,
    ensures
        back_pos(i, j, x, y, b1) < back_pos(i, j, x, y, b2),
{
}

pub proof fn lemma_fwd_pos_increasing(i: int, j: int, x: int, y: int, a1: int, a2: int)
    requires
        1 <= i < j,
        1 <= x <= y,
        a1 < a2,
        a1 != i && a1 != j,
        a2 != i && a2 != j,
    ensures
        fwd_pos(i, j, x, y, a1) < fwd_pos(i, j, x, y, a2),
{
}

/// An exchange of the order at positions `i < j` for order `w`, put in with
/// its restaurant before position `x` and its destination before position
/// `y` of the tour without the old order, and the change of length.
pub struct Exchange {
    pub i: usize,
    pub j: usize,
    pub w: usize,
    pub x: usize,
    pub y: usize,
    pub delta: i64,
}

fn lex3_less(a: (i64, usize, usize), b: (i64, usize, usize)) -> (r: bool)
    ensures
        r == (a.0 < b.0 || (a.0 == b.0 && (a.1 < b.1 || (a.1 == b.1 && a.2 < b.2)))),
{
    a.0 < b.0 || (a.0 == b.0 && (a.1 < b.1 || (a.1 == b.1 && a.2 < b.2)))
}

fn lex2_less(a: (i64, usize), b: (i64, usize)) -> (r: bool)
    ensures
        r == (a.0 < b.0 || (a.0 == b.0 && a.1 < b.1)),
{
    a.0 < b.0 || (a.0 == b.0 && a.1 < b.1)
}

fn one_gain_of(input: &Input, t: &Vec<usize>, e: usize, k: usize) -> (r: i64)
    requires
        input.wf(),
        on_points(t@),
        1 <= k < t@.len(),
        e <= POINTS,
    ensures
        r == one_gain(input, t@, e as int, k as int),
        -8_000_000_000 <= r <= 8_000_000_000,
{
    proof {
        lemma_step_bound(input, t@[k - 1] as int, t@[k as int] as int);
        lemma_step_bound(input, t@[k - 1] as int, e as int);
        lemma_step_bound(input, e as int, t@[k as int] as int);
    }
    0 - input.dist[t[k - 1]][t[k]] + input.dist[t[k - 1]][e] + input.dist[e][t[k]]
}

fn both_gain_of(input: &Input, t: &Vec<usize>, w: usize, k: usize) -> (r: i64)
    requires
        input.wf(),
        on_points(t@),
        1 <= k < t@.len(),
        w < ORDERS,
    ensures
        r == both_gain(input, t@, w as int, k as int),
        -8_000_000_000 <= r <= 12_000_000_000,
{
    proof {
        lemma_step_bound(input, t@[k - 1] as int, t@[k as int] as int);
        lemma_step_bound(input, t@[k - 1] as int, 2 * w as int);
        lemma_step_bound(input, 2 * w as int, 2 * w + 1);
        lemma_step_bound(input, 2 * w + 1, t@[k as int] as int);
    }
    0 - input.dist[t[k - 1]][t[k]] + input.dist[t[k - 1]][2 * w] + input.dist[2 * w][2 * w + 1]
        + input.dist[2 * w + 1][t[k]]
}

impl State {
    /// The exchange of the order at `i < j` for order `w` at `x <= y` can be
    /// made: `i` and `j` hold one order's restaurant and destination, `w` is
    /// not taken, and both insertion points lie inside the shorter tour.
    pub open spec fn exchange_ok(&self, i: int, j: int, w: int, x: int, y: int) -> bool {
        &&& 1 <= i < j <= STOPS
        &&& self.perm@[i] % 2 == 0
        &&& self.perm@[j] == self.perm@[i] + 1
        &&& 0 <= w < ORDERS
        &&& pickup_at(self.inv@, w) == NONE
        &&& 1 <= x <= y < STOPS
    }

    /// The tour without its stops at `i` and `j`.
    fn without(&self, i: usize, j: usize) -> (t: Vec<usize>)
        requires
            self.perm@.len() == STOPS + 2,
            1 <= i < j <= STOPS,
        ensures
            t@ == without_pair(self.perm@, i as int, j as int),
    {
        let mut t: Vec<usize> = Vec::new();
        let mut k: usize = 0;
        while k < STOPS + 2
            invariant
                self.perm@.len() == STOPS + 2,
                1 <= i < j <= STOPS,
                k <= STOPS + 2,
                t@.len() == if k <= i { k as int } else if k <= j { k - 1 } else { k - 2 },
                forall|a: int|
                    0 <= a < t@.len() ==> #[trigger] t@[a] == self.perm@[if a < i {
                        a
                    } else if a + 1 < j {
                        a + 1
                    } else {
                        a + 2
                    }],
            decreases STOPS + 2 - k,
        {
            if k != i && k != j {
                t.push(self.perm[k]);
            }
            k = k + 1;
        }
        proof {
            let r = self.perm@.remove(j as int);
            self.perm@.remove_ensures(j as int);
            r.remove_ensures(i as int);
            assert(t@ =~= without_pair(self.perm@, i as int, j as int));
        }
        t
    }

    /// The change of length from taking out the stops at `i < j`.
    fn remove_delta(&self, input: &Input, i: usize, j: usize) -> (r: i64)
        requires
            self.wf(input),
            1 <= i < j <= STOPS,
        ensures
            r == remove_gain(input, self.perm@, i as int, j as int),
            -16_000_000_000 <= r <= 8_000_000_000,
    {
        let p = &self.perm;
        proof {
            let s = self.perm@;
            lemma_step_bound(input, s[i - 1] as int, s[i as int] as int);
            lemma_step_bound(input, s[i as int] as int, s[i + 1] as int);
            lemma_step_bound(input, s[j - 1] as int, s[j as int] as int);
            lemma_step_bound(input, s[j as int] as int, s[j + 1] as int);
            lemma_step_bound(input, s[i - 1] as int, s[i + 1] as int);
            lemma_step_bound(input, s[j - 1] as int, s[j + 1] as int);
            lemma_step_bound(input, s[i as int] as int, s[j as int] as int);
            lemma_step_bound(input, s[i - 1] as int, s[j + 1] as int);
        }
        if i + 1 == j {
            0 - input.dist[p[i - 1]][p[i]] - input.dist[p[i]][p[j]] - input.dist[p[j]][p[j + 1]]
                + input.dist[p[i - 1]][p[j + 1]]
        } else {
            0 - input.dist[p[i - 1]][p[i]] - input.dist[p[i]][p[i + 1]] - input.dist[p[j - 1]][p[j]]
                - input.dist[p[j]][p[j + 1]] + input.dist[p[i - 1]][p[i + 1]] + input.dist[p[j
                - 1]][p[j + 1]]
        }
    }
}

/// The change of length from putting order `w` where the order at `i` and
/// `j` was.
pub open spec fn swap_gain(input: &Input, s: Seq<usize>, i: int, j: int, w: int) -> int {
    if i + 1 == j {
        -input.d(s[i - 1] as int, s[i] as int) - input.d(s[i] as int, s[j] as int) - input.d(
            s[j] as int,
            s[j + 1] as int,
        ) + input.d(s[i - 1] as int, 2 * w) + input.d(2 * w, 2 * w + 1) + input.d(
            2 * w + 1,
            s[j + 1] as int,
        )
    } else {
        -input.d(s[i - 1] as int, s[i] as int) - input.d(s[i] as int, s[i + 1] as int) - input.d(
            s[j - 1] as int,
            s[j] as int,
        ) - input.d(s[j] as int, s[j + 1] as int) + input.d(s[i - 1] as int, 2 * w) + input.d(
            2 * w,
            s[i + 1] as int,
        ) + input.d(s[j - 1] as int, 2 * w + 1) + input.d(2 * w + 1, s[j + 1] as int)
    }
}

pub proof fn lemma_swap_cost(input: &Input, s: Seq<usize>, i: int, j: int, w: int)
    requires
        0 <= w < ORDERS,
        1 <= i < j,
        j + 2 <= s.len(),
    ensures
        tour_cost(input, exchanged(s, i, j, w, i, j - 1)) - tour_cost(input, s) == swap_gain(input, s, i, j, w),
{
    let t = without_pair(s, i, j);
    lemma_remove_cost(input, s, i, j);
    lemma_insert_cost(input, t, w, i, j - 1);
    let r0 = s.remove(j);
    s.remove_ensures(j);
    r0.remove_ensures(i);
    assert(t[i - 1] == s[i - 1]);
    if i + 1 < j {
        assert(t[i] == s[i + 1]);
        assert(t[j - 2] == s[j - 1]);
    }
    assert(t[j - 1] == s[j + 1]);
}

impl State {
    /// Draws a stop in `1..=STOPS` and returns the positions of its order's
    /// restaurant and destination.
    fn draw_order_stops(&self, input: &Input, mt: &mut rand_pcg::Mcg128Xsl64) -> (r: (usize, usize))
        requires
            self.wf(input),
        ensures
            1 <= r.0 < r.1 <= STOPS,
            self.perm@[r.0 as int] % 2 == 0,
            self.perm@[r.1 as int] == self.perm@[r.0 as int] + 1,
    {
        let a = gen_index(mt, 1, STOPS + 1);
        let pa = self.perm[a];
        assert(pa ^ 1usize == if pa % 2 == 0 { (pa + 1) as usize } else { (pa - 1) as usize }) by (bit_vector)
            requires
                pa < 2000usize,
        ;
        let b = self.inv[pa ^ 1];
        proof {
            let o = pa / 2;
            assert(pickup_at(self.inv@, o as int) == self.inv@[2 * o as int]);
            if pa % 2 == 0 {
                assert(pa == 2 * o);
            } else {
                assert(pa == 2 * o + 1);
            }
        }
        let i = if a < b { a } else { b };
        let j = if a < b { b } else { a };
        proof {
            let o = pa / 2;
            if pa % 2 == 0 {
                assert(pa == 2 * o);
                assert(self.perm@[i as int] == pa);
            } else {
                assert(pa == 2 * o + 1);
                assert(self.perm@[j as int] == pa);
            }
        }
        (i, j)
    }

    /// Draws an order not taken, uniformly among them; `None` where every
    /// order is taken.
    fn draw_free_order(&self, input: &Input, mt: &mut rand_pcg::Mcg128Xsl64) -> (r: Option<usize>)
        requires
            self.wf(input),
        ensures
            match r {
                Some(w) => w < ORDERS && pickup_at(self.inv@, w as int) == NONE,
                None => forall|o: int| 0 <= o < ORDERS ==> #[trigger] pickup_at(self.inv@, o) != NONE,
            },
    {
        let mut free: Vec<usize> = Vec::new();
        let mut o: usize = 0;
        while o < ORDERS
            invariant
                self.wf(input),
                o <= ORDERS,
                forall|k: int| 0 <= k < free@.len() ==> #[trigger] free@[k] < ORDERS && pickup_at(
                    self.inv@,
                    free@[k] as int,
                ) == NONE,
                free@.len() == 0 ==> forall|k: int| 0 <= k < o ==> #[trigger] pickup_at(self.inv@, k)
                    != NONE,
            decreases ORDERS - o,
        {
            if self.inv[2 * o] == NONE {
                free.push(o);
            }
            o = o + 1;
        }
        if free.len() == 0 {
            return None;
        }
        Some(free[gen_index(mt, 0, free.len())])
    }

    /// The change of length from putting order `w` where the order at `i`
    /// and `j` was.
    fn swap_delta(&self, input: &Input, i: usize, j: usize, w: usize) -> (delta: i64)
        requires
            self.wf(input),
            self.exchange_ok(i as int, j as int, w as int, i as int, j - 1),
        ensures
            delta == tour_cost(input, exchanged(self.perm@, i as int, j as int, w as int, i as int, j - 1))
                - tour_cost(input, self.perm@),
    {
        let p = &self.perm;
        let src = 2 * w;
        let snk = 2 * w + 1;
        proof {
            lemma_swap_cost(input, self.perm@, i as int, j as int, w as int);
            let s = self.perm@;
            let ii = i as int;
            let jj = j as int;
            lemma_step_bound(input, s[ii - 1] as int, s[ii] as int);
            lemma_step_bound(input, s[ii] as int, s[jj] as int);
            lemma_step_bound(input, s[jj] as int, s[jj + 1] as int);
            lemma_step_bound(input, s[ii] as int, s[ii + 1] as int);
            lemma_step_bound(input, s[jj - 1] as int, s[jj] as int);
            lemma_step_bound(input, s[ii - 1] as int, src as int);
            lemma_step_bound(input, src as int, snk as int);
            lemma_step_bound(input, snk as int, s[jj + 1] as int);
            lemma_step_bound(input, src as int, s[ii + 1] as int);
            lemma_step_bound(input, s[jj - 1] as int, snk as int);
        }
        if i + 1 == j {
            0 - input.dist[p[i - 1]][p[i]] - input.dist[p[i]][p[j]] - input.dist[p[j]][p[j + 1]]
                + input.dist[p[i - 1]][src] + input.dist[src][snk] + input.dist[snk][p[j + 1]]
        } else {
            0 - input.dist[p[i - 1]][p[i]] - input.dist[p[i]][p[i + 1]] - input.dist[p[j - 1]][p[j]]
                - input.dist[p[j]][p[j + 1]] + input.dist[p[i - 1]][src] + input.dist[src][p[i + 1]]
                + input.dist[p[j - 1]][snk] + input.dist[snk][p[j + 1]]
        }
    }
}

impl State {
    /// Draws a stop in `1..=STOPS`, takes out its order, draws an order not
    /// taken (uniformly among them), and puts it in where the tour grows
    /// least: the lexicographically least `(gain, x, y)` over all insertion
    /// points. `None` where every order is taken.
    pub fn propose_exchange(&self, input: &Input, mt: &mut rand_pcg::Mcg128Xsl64) -> (r: Option<
        Exchange,
    >)
        requires
            self.wf(input),
        ensures
            match r {
                Some(e) => {
                    let t = without_pair(self.perm@, e.i as int, e.j as int);
                    &&& self.exchange_ok(e.i as int, e.j as int, e.w as int, e.x as int, e.y as int)
                    &&& e.delta == tour_cost(
                        input,
                        exchanged(
                            self.perm@,
                            e.i as int,
                            e.j as int,
                            e.w as int,
                            e.x as int,
                            e.y as int,
                        ),
                    ) - tour_cost(input, self.perm@)
                    &&& forall|x2: int, y2: int|
                        1 <= x2 <= y2 < STOPS ==> lex3_le(
                            insert_gain(input, t, e.w as int, e.x as int, e.y as int),
                            e.x as int,
                            e.y as int,
                            #[trigger] insert_gain(input, t, e.w as int, x2, y2),
                            x2,
                            y2,
                        )
                },
                None => forall|o: int| 0 <= o < ORDERS ==> #[trigger] pickup_at(self.inv@, o) != NONE,
            },
    {
        let (i, j) = self.draw_order_stops(input, mt);
        let w = match self.draw_free_order(input, mt) {
            Some(w) => w,
            None => {
                return None;
            },
        };
        let delta1 = self.remove_delta(input, i, j);
        let t = self.without(i, j);
        proof {
            assert forall|k: int| 0 <= k < t@.len() implies #[trigger] t@[k] <= POINTS by {
                let r = self.perm@.remove(j as int);
                self.perm@.remove_ensures(j as int);
                r.remove_ensures(i as int);
            }
        }
        let mut src_best: (i64, usize) = (i64::MAX / 4, NONE);
        let mut ins_best: (i64, usize, usize) = (i64::MAX / 4, NONE, NONE);
        let mut k: usize = 1;
        while k < t.len()
            invariant
                input.wf(),
                on_points(t@),
                t@.len() == STOPS,
                w < ORDERS,
                1 <= k <= STOPS,
                k == 1 ==> src_best.0 == i64::MAX / 4 && src_best.1 == NONE && ins_best.0 == i64::MAX
                    / 4 && ins_best.1 == NONE && ins_best.2 == NONE,
                k > 1 ==> 1 <= src_best.1 < k && src_best.0 == one_gain(input, t@, 2 * w, src_best.1 as int),
                k > 1 ==> forall|x2: int|
                    1 <= x2 < k ==> src_best.0 < #[trigger] one_gain(input, t@, 2 * w, x2) || (
                    src_best.0 == one_gain(input, t@, 2 * w, x2) && src_best.1 <= x2),
                -8_000_000_000 <= src_best.0,
                k > 1 ==> 1 <= ins_best.1 <= ins_best.2 < k && ins_best.0 == insert_gain(
                    input,
                    t@,
                    w as int,
                    ins_best.1 as int,
                    ins_best.2 as int,
                ),
                k > 1 ==> forall|x2: int, y2: int|
                    1 <= x2 <= y2 < k ==> lex3_le(
                        ins_best.0 as int,
                        ins_best.1 as int,
                        ins_best.2 as int,
                        #[trigger] insert_gain(input, t@, w as int, x2, y2),
                        x2,
                        y2,
                    ),
                -16_000_000_000 <= ins_best.0 <= i64::MAX / 4,
            decreases STOPS - k,
        {
            let c1 = (both_gain_of(input, &t, w, k), k, k);
            if lex3_less(c1, ins_best) {
                ins_best = c1;
            }
            let c2 = (src_best.0 + one_gain_of(input, &t, 2 * w + 1, k), src_best.1, k);
            if lex3_less(c2, ins_best) {
                ins_best = c2;
            }
            let c3 = (one_gain_of(input, &t, 2 * w, k), k);
            if lex2_less(c3, src_best) {
                src_best = c3;
            }
            proof {
                let tt = t@;
                let ww = w as int;
                let kk = k as int;
                assert(insert_gain(input, tt, ww, kk, kk) == c1.0);
                assert forall|x2: int, y2: int| 1 <= x2 <= y2 < kk + 1 implies lex3_le(
                    ins_best.0 as int,
                    ins_best.1 as int,
                    ins_best.2 as int,
                    #[trigger] insert_gain(input, tt, ww, x2, y2),
                    x2,
                    y2,
                ) by {
                    if y2 == kk && x2 < kk {
                        assert(insert_gain(input, tt, ww, x2, y2) == one_gain(input, tt, 2 * ww, x2)
                            + one_gain(input, tt, 2 * ww + 1, kk));
                        assert(one_gain(input, tt, 2 * ww, x2) == one_gain(input, tt, 2 * w, x2));
                    }
                }
            }
            k = k + 1;
        }
        let x = ins_best.1;
        let y = ins_best.2;
        let delta = delta1 + ins_best.0;
        proof {
            lemma_remove_cost(input, self.perm@, i as int, j as int);
            lemma_insert_cost(input, t@, w as int, x as int, y as int);
        }
        Some(Exchange { i, j, w, x, y, delta })
    }
}

/// The stops of an exchanged tour are distinct points.
pub proof fn lemma_exchange_distinct(s: Seq<usize>, inv0: Seq<usize>, i: int, j: int, w: int, x: int, y: int)
    requires
        tour_ok(s, inv0),
        1 <= i < j <= STOPS,
        0 <= w < ORDERS,
        pickup_at(inv0, w) == NONE,
        1 <= x <= y < STOPS,
    ensures
        ({
            let q = exchanged(s, i, j, w, x, y);
            &&& q.len() == STOPS + 2
            &&& q[0] == OFFICE
            &&& q[STOPS + 1] == OFFICE
            &&& forall|b: int| 1 <= b <= STOPS ==> #[trigger] q[b] < POINTS
            &&& forall|a: int, b: int| 1 <= a < b <= STOPS ==> #[trigger] q[a] != #[trigger] q[b]
        }),
{
    let q = exchanged(s, i, j, w, x, y);
    lemma_exchanged_at(s, i, j, w, x, y, 0);
    lemma_exchanged_at(s, i, j, w, x, y, STOPS + 1);
    assert forall|b: int| 1 <= b <= STOPS implies #[trigger] q[b] < POINTS by {
        lemma_exchanged_at(s, i, j, w, x, y, b);
    }
    assert forall|a: int, b: int| 1 <= a < b <= STOPS implies #[trigger] q[a] != #[trigger] q[b] by {
        lemma_exchanged_at(s, i, j, w, x, y, a);
        lemma_exchanged_at(s, i, j, w, x, y, b);
        let ca = back_pos(i, j, x, y, a);
        let cb = back_pos(i, j, x, y, b);
        if a != x && a != y + 1 {
            assert(inv0[s[ca] as int] == ca);
            assert(s[ca] != 2 * w);
            if s[ca] == 2 * w + 1 {
                assert(delivery_at(inv0, w) != NONE);
            }
        }
        if b != x && b != y + 1 {
            assert(inv0[s[cb] as int] == cb);
            assert(s[cb] != 2 * w);
            if s[cb] == 2 * w + 1 {
                assert(delivery_at(inv0, w) != NONE);
            }
        }
        if a != x && a != y + 1 && b != x && b != y + 1 {
            lemma_back_pos_increasing(i, j, x, y, a, b);
        }
    }
}

/// After an exchange and the rebuild of the positions, the tour is in order.
pub proof fn lemma_exchange_tour_ok(
    s: Seq<usize>,
    inv0: Seq<usize>,
    inv1: Seq<usize>,
    inv: Seq<usize>,
    i: int,
    j: int,
    w: int,
    x: int,
    y: int,
    v: int,
)
    requires
        tour_ok(s, inv0),
        1 <= i < j <= STOPS,
        0 <= w < ORDERS,
        pickup_at(inv0, w) == NONE,
        1 <= x <= y < STOPS,
        s[i] == 2 * v,
        s[j] == 2 * v + 1,
        inv1 == inv0.update(2 * v, NONE).update(2 * v + 1, NONE),
        inv.len() == POINTS,
        ({
            let q = exchanged(s, i, j, w, x, y);
            &&& forall|b: int| 1 <= b <= STOPS ==> #[trigger] inv[q[b] as int] == b
            &&& forall|u: int|
                0 <= u < POINTS ==> #[trigger] inv[u] == inv1[u] || (1 <= inv[u] <= STOPS
                    && q[inv[u] as int] == u)
        }),
    ensures
        tour_ok(exchanged(s, i, j, w, x, y), inv),
{
    let q = exchanged(s, i, j, w, x, y);
    lemma_exchange_distinct(s, inv0, i, j, w, x, y);
    assert forall|u: int| 0 <= u < POINTS implies #[trigger] inv[u] == NONE || (1 <= inv[u] <= STOPS
        && q[inv[u] as int] == u) by {
        if inv[u] == inv1[u] && inv1[u] != NONE {
            assert(u != 2 * v && u != 2 * v + 1);
            assert(inv0[u] == inv1[u]);
            let c = inv0[u] as int;
            assert(s[c] == u);
            assert(c != i && c != j);
            lemma_fwd_pos(s, i, j, w, x, y, c);
            let b = fwd_pos(i, j, x, y, c);
            lemma_exchanged_at(s, i, j, w, x, y, b);
            assert(q[b] == u);
            assert(inv[q[b] as int] == b);
        }
    }
    assert forall|o: int| 0 <= o < ORDERS implies ((#[trigger] pickup_at(inv, o) == NONE) == (
    delivery_at(inv, o) == NONE)) && (pickup_at(inv, o) != NONE ==> pickup_at(inv, o)
        < delivery_at(inv, o)) by {
        assert(((pickup_at(inv0, o) == NONE) == (delivery_at(inv0, o) == NONE)) && (pickup_at(inv0, o)
            != NONE ==> pickup_at(inv0, o) < delivery_at(inv0, o)));
        if o == w {
            lemma_exchanged_at(s, i, j, w, x, y, x);
            lemma_exchanged_at(s, i, j, w, x, y, y + 1);
            assert(inv[q[x] as int] == x);
            assert(inv[q[y + 1] as int] == y + 1);
        } else if o == v || pickup_at(inv0, o) == NONE {
            if inv[2 * o] != inv1[2 * o] {
                let b = inv[2 * o] as int;
                lemma_exchanged_at(s, i, j, w, x, y, b);
                let c = back_pos(i, j, x, y, b);
                if b != x && b != y + 1 {
                    assert(inv0[s[c] as int] == c);
                }
            }
            if inv[2 * o + 1] != inv1[2 * o + 1] {
                let b = inv[2 * o + 1] as int;
                lemma_exchanged_at(s, i, j, w, x, y, b);
                let c = back_pos(i, j, x, y, b);
                if b != x && b != y + 1 {
                    assert(inv0[s[c] as int] == c);
                }
            }
        } else {
            let pa = pickup_at(inv0, o) as int;
            let da = delivery_at(inv0, o) as int;
            assert(s[pa] == 2 * o && s[da] == 2 * o + 1);
            assert(pa != i && pa != j && da != i && da != j);
            lemma_fwd_pos(s, i, j, w, x, y, pa);
            lemma_fwd_pos(s, i, j, w, x, y, da);
            lemma_fwd_pos_increasing(i, j, x, y, pa, da);
            let pb = fwd_pos(i, j, x, y, pa);
            let db = fwd_pos(i, j, x, y, da);
            lemma_exchanged_at(s, i, j, w, x, y, pb);
            lemma_exchanged_at(s, i, j, w, x, y, db);
            assert(inv[q[pb] as int] == pb);
            assert(inv[q[db] as int] == db);
        }
    }
}

impl State {
    /// Makes the exchange `e` where it can be made (`exchange_ok`), with the
    /// length kept up to date; returns whether it did. The change of length
    /// is computed anew, not taken from `e.delta`.
    pub fn commit_exchange(&mut self, input: &Input, e: &Exchange) -> (r: bool)
        requires
            old(self).wf(input),
        ensures
            r == old(self).exchange_ok(e.i as int, e.j as int, e.w as int, e.x as int, e.y as int),
            final(self).wf(input),
            r ==> final(self).perm@ == exchanged(
                old(self).perm@,
                e.i as int,
                e.j as int,
                e.w as int,
                e.x as int,
                e.y as int,
            ),
            !r ==> *final(self) == *old(self),
    {
        let (i, j, w, x, y) = (e.i, e.j, e.w, e.x, e.y);
        if !(1 <= i && i < j && j <= STOPS && w < ORDERS && 1 <= x && x <= y && y < STOPS) {
            return false;
        }
        if !(self.perm[i] % 2 == 0 && self.perm[j] == self.perm[i] + 1 && self.inv[2 * w] == NONE) {
            return false;
        }
        let ghost s = self.perm@;
        let ghost inv0 = self.inv@;
        let delta1 = self.remove_delta(input, i, j);
        let t = self.without(i, j);
        proof {
            assert forall|k: int| 0 <= k < t@.len() implies #[trigger] t@[k] <= POINTS by {
                let r = self.perm@.remove(j as int);
                self.perm@.remove_ensures(j as int);
                r.remove_ensures(i as int);
            }
        }
        let delta2 = if x == y {
            both_gain_of(input, &t, w, x)
        } else {
            one_gain_of(input, &t, 2 * w, x) + one_gain_of(input, &t, 2 * w + 1, y)
        };
        let mut next = t;
        next.insert(y, 2 * w + 1);
        next.insert(x, 2 * w);
        let ghost q = next@;
        assert(q == exchanged(s, i as int, j as int, w as int, x as int, y as int));
        let v = self.perm[i] / 2;
        proof {
            lemma_remove_cost(input, s, i as int, j as int);
            lemma_insert_cost(input, without_pair(s, i as int, j as int), w as int, x as int, y as int);
            assert(s[i as int] == 2 * v && s[j as int] == 2 * v + 1);
            assert forall|b: int| 0 <= b < q.len() implies #[trigger] q[b] <= POINTS by {
                lemma_exchanged_at(s, i as int, j as int, w as int, x as int, y as int, b);
            }
            lemma_cost_bound(input, q);
            assert(on_points(s));
            lemma_cost_bound(input, s);
            lemma_exchange_distinct(s, inv0, i as int, j as int, w as int, x as int, y as int);
        }
        self.inv.set(2 * v, NONE);
        self.inv.set(2 * v + 1, NONE);
        let ghost inv1 = self.inv@;
        self.perm = next;
        let mut k: usize = 1;
        while k <= STOPS
            invariant
                1 <= k <= STOPS + 1,
                self.perm@ == q,
                q.len() == STOPS + 2,
                self.inv@.len() == POINTS,
                forall|b: int| 0 <= b < q.len() ==> #[trigger] q[b] <= POINTS,
                forall|a: int, b: int| 1 <= a < b <= STOPS ==> #[trigger] q[a] != #[trigger] q[b],
                forall|b: int| 1 <= b <= STOPS ==> #[trigger] q[b] < POINTS,
                self.score == tour_cost(input, s),
                forall|b: int| 1 <= b < k ==> #[trigger] self.inv@[q[b] as int] == b,
                forall|u: int|
                    0 <= u < POINTS ==> #[trigger] self.inv@[u] == inv1[u] || (1 <= self.inv@[u] < k
                        && q[self.inv@[u] as int] == u),
            decreases STOPS + 1 - k,
        {
            let pk = self.perm[k];
            self.inv.set(pk, k);
            k = k + 1;
        }
        self.score = self.score + delta1 + delta2;
        proof {
            lemma_exchange_tour_ok(s, inv0, inv1, self.inv@, i as int, j as int, w as int, x as int, y as int, v as int);
        }
        true
    }
}

impl State {
    /// Draws a stop in `1..=STOPS` and an order not taken (uniformly among
    /// them), and proposes to put the new order's restaurant and destination
    /// where the drawn stop's order had them, with the change of length.
    /// `None` where every order is taken.
    pub fn propose_swap(&self, input: &Input, mt: &mut rand_pcg::Mcg128Xsl64) -> (r: Option<Exchange>)
        requires
            self.wf(input),
        ensures
            match r {
                Some(e) => {
                    &&& self.exchange_ok(e.i as int, e.j as int, e.w as int, e.x as int, e.y as int)
                    &&& e.x == e.i && e.y + 1 == e.j
                    &&& e.delta == tour_cost(
                        input,
                        exchanged(
                            self.perm@,
                            e.i as int,
                            e.j as int,
                            e.w as int,
                            e.x as int,
                            e.y as int,
                        ),
                    ) - tour_cost(input, self.perm@)
                },
                None => forall|o: int| 0 <= o < ORDERS ==> #[trigger] pickup_at(self.inv@, o) != NONE,
            },
    {
        let (i, j) = self.draw_order_stops(input, mt);
        let w = match self.draw_free_order(input, mt) {
            Some(w) => w,
            None => {
                return None;
            },
        };
        let delta = self.swap_delta(input, i, j, w);
        Some(Exchange { i, j, w, x: i, y: j - 1, delta })
    }

    /// The orders taken, in increasing order.
    pub fn chosen_orders(&self) -> (r: Vec<usize>)
        requires
            self.inv@.len() == POINTS,
        ensures
            forall|k: int| 0 <= k < r@.len() ==> #[trigger] r@[k] < ORDERS && pickup_at(
                self.inv@,
                r@[k] as int,
            ) != NONE,
            forall|a: int, b: int| 0 <= a < b < r@.len() ==> r@[a] < r@[b],
            forall|o: int|
                0 <= o < ORDERS && #[trigger] pickup_at(self.inv@, o) != NONE ==> r@.contains(
                    o as usize,
                ),
    {
        let mut r: Vec<usize> = Vec::new();
        let mut o: usize = 0;
        while o < ORDERS
            invariant
                self.inv@.len() == POINTS,
                o <= ORDERS,
                forall|k: int| 0 <= k < r@.len() ==> #[trigger] r@[k] < o && pickup_at(
                    self.inv@,
                    r@[k] as int,
                ) != NONE,
                forall|a: int, b: int| 0 <= a < b < r@.len() ==> r@[a] < r@[b],
                forall|x: int|
                    0 <= x < o && #[trigger] pickup_at(self.inv@, x) != NONE ==> r@.contains(x as usize),
            decreases ORDERS - o,
        {
            if self.inv[2 * o] != NONE {
                let ghost r0 = r@;
                r.push(o);
                assert(r@[r@.len() - 1] == o);
                assert forall|x: int| 0 <= x < o && #[trigger] pickup_at(self.inv@, x) != NONE implies r@.contains(
                    x as usize,
                ) by {
                    let k = choose|k: int| 0 <= k < r0.len() && r0[k] == x as usize;
                    assert(r@[k] == x as usize);
                }
            }
            o = o + 1;
        }
        r
    }
}


/// Where the stop at position `k` goes when the stop at `i` moves to `ni`.
pub open spec fn new_pos(i: int, ni: int, k: int) -> int {
    if k == i {
        ni
    } else if i < ni && i < k <= ni {
        k - 1
    } else if ni < i && ni <= k < i {
        k + 1
    } else {
        k
    }
}

/// Which stop comes to position `k` when the stop at `i` moves to `ni`.
pub open spec fn old_pos(i: int, ni: int, k: int) -> int {
    if k == ni {
        i
    } else if i < ni && i <= k < ni {
        k + 1
    } else if ni < i && ni < k <= i {
        k - 1
    } else {
        k
    }
}

/// The tour with the stop at position `i` taken out and put back in at
/// position `ni`, the stops between shifting by one.
pub open spec fn moved(s: Seq<usize>, i: int, ni: int) -> Seq<usize> {
    Seq::new(s.len(), |k: int| s[old_pos(i, ni, k)])
}

/// The change of length from moving the stop at `i` to `ni`: the steps
/// around its old place and into its new place are replaced.
pub open spec fn move_gain(input: &Input, s: Seq<usize>, i: int, ni: int) -> int {
    if i < ni {
        -input.d(s[i - 1] as int, s[i] as int) - input.d(s[i] as int, s[i + 1] as int) - input.d(
            s[ni] as int,
            s[ni + 1] as int,
        ) + input.d(s[i - 1] as int, s[i + 1] as int) + input.d(s[ni] as int, s[i] as int)
            + input.d(s[i] as int, s[ni + 1] as int)
    } else {
        -input.d(s[ni - 1] as int, s[ni] as int) - input.d(s[i - 1] as int, s[i] as int) - input.d(
            s[i] as int,
            s[i + 1] as int,
        ) + input.d(s[ni - 1] as int, s[i] as int) + input.d(s[i] as int, s[ni] as int)
            + input.d(s[i - 1] as int, s[i + 1] as int)
    }
}

/// Moving the stop at `i` keeps its order's restaurant before its
/// destination: a restaurant goes before the destination, a destination
/// after the restaurant.
pub open spec fn move_keeps_order(s: Seq<usize>, inv: Seq<usize>, i: int, ni: int) -> bool {
    if s[i] % 2 == 0 {
        ni < delivery_at(inv, (s[i] / 2) as int)
    } else {
        ni > pickup_at(inv, (s[i] / 2) as int)
    }
}

/// Taking the stop at `k` out of a walk replaces its two steps by one.
pub proof fn lemma_cost_remove_one(input: &Input, s: Seq<usize>, k: int)
    requires
        1 <= k,
        k + 1 < s.len(),
    ensures
        tour_cost(input, s.remove(k)) == tour_cost(input, s) - input.d(s[k - 1] as int, s[k] as int)
            - input.d(s[k] as int, s[k + 1] as int) + input.d(s[k - 1] as int, s[k + 1] as int),
{
    let t = s.remove(k);
    assert(t.insert(k, s[k]) =~= s);
    lemma_cost_insert(input, t, k, s[k]);
}

/// Moving a stop changes the walk's length by `move_gain`.
pub proof fn lemma_move_cost(input: &Input, s: Seq<usize>, i: int, ni: int)
    requires
        1 <= i,
        1 <= ni,
        i + 1 < s.len(),
        ni + 1 < s.len(),
        i != ni,
    ensures
        tour_cost(input, moved(s, i, ni)) == tour_cost(input, s) + move_gain(input, s, i, ni),
{
    let t = s.remove(i);
    assert(moved(s, i, ni) =~= t.insert(ni, s[i]));
    lemma_cost_remove_one(input, s, i);
    lemma_cost_insert(input, t, ni, s[i]);
}

/// The positions that a move shifts map one to one back and forth.
pub proof fn lemma_move_positions(i: int, ni: int, k: int)
    requires
        i != ni,
    ensures
        new_pos(i, ni, old_pos(i, ni, k)) == k,
        old_pos(i, ni, new_pos(i, ni, k)) == k,
        (k < i && k < ni) || (k > i && k > ni) ==> new_pos(i, ni, k) == k && old_pos(i, ni, k) == k,
        (i <= k <= ni) || (ni <= k <= i) ==> (i <= old_pos(i, ni, k) <= ni) || (ni <= old_pos(
            i,
            ni,
            k,
        ) <= i),
        (i <= k <= ni) || (ni <= k <= i) ==> (i <= new_pos(i, ni, k) <= ni) || (ni <= new_pos(
            i,
            ni,
            k,
        ) <= i),
{
}

/// The stop at position `k` once the stop at `i` has moved to `ni`.
fn old_pos_of(i: usize, ni: usize, k: usize) -> (r: usize)
    requires
        k + 1 <= usize::MAX,
        k >= 1 || k == ni || !(ni < i && ni < k <= i),
    ensures
        r == old_pos(i as int, ni as int, k as int),
{
    if k == ni {
        i
    } else if i < ni && i <= k && k < ni {
        k + 1
    } else if ni < i && ni < k && k <= i {
        k - 1
    } else {
        k
    }
}

impl State {
    /// The change of length from moving the stop at `i` to `ni`.
    fn move_delta(&self, input: &Input, i: usize, ni: usize) -> (r: i64)
        requires
            self.wf(input),
            1 <= i <= STOPS,
            1 <= ni <= STOPS,
            i != ni,
        ensures
            r == move_gain(input, self.perm@, i as int, ni as int),
            r == tour_cost(input, moved(self.perm@, i as int, ni as int)) - tour_cost(
                input,
                self.perm@,
            ),
    {
        let p = &self.perm;
        proof {
            assert(on_points(p@));
            lemma_move_cost(input, p@, i as int, ni as int);
            lemma_step_bound(input, p@[i - 1] as int, p@[i as int] as int);
            lemma_step_bound(input, p@[i as int] as int, p@[i + 1] as int);
            lemma_step_bound(input, p@[i - 1] as int, p@[i + 1] as int);
            lemma_step_bound(input, p@[ni - 1] as int, p@[ni as int] as int);
            lemma_step_bound(input, p@[ni as int] as int, p@[ni + 1] as int);
            lemma_step_bound(input, p@[ni as int] as int, p@[i as int] as int);
            lemma_step_bound(input, p@[i as int] as int, p@[ni + 1] as int);
            lemma_step_bound(input, p@[ni - 1] as int, p@[i as int] as int);
            lemma_step_bound(input, p@[i as int] as int, p@[ni as int] as int);
        }
        if i < ni {
            0 - input.dist[p[i - 1]][p[i]] - input.dist[p[i]][p[i + 1]] - input.dist[p[ni]][p[ni + 1]]
                + input.dist[p[i - 1]][p[i + 1]] + input.dist[p[ni]][p[i]] + input.dist[p[i]][p[ni
                + 1]]
        } else {
            0 - input.dist[p[ni - 1]][p[ni]] - input.dist[p[i - 1]][p[i]] - input.dist[p[i]][p[i + 1]]
                + input.dist[p[ni - 1]][p[i]] + input.dist[p[i]][p[ni]] + input.dist[p[i - 1]][p[i
                + 1]]
        }
    }

    /// Draws a stop in `1..=STOPS`, takes the position `i` of its order's
    /// restaurant and draws a new position in `1..` the destination's
    /// position, and tries it with `move_source_to`.
    pub fn propose_move_source(&self, input: &Input, mt: &mut rand_pcg::Mcg128Xsl64) -> (r: Option<
        (usize, usize, i64),
    >)
        requires
            self.wf(input),
        ensures
            match r {
                Some((i, ni, delta)) => {
                    &&& 1 <= i <= STOPS
                    &&& 1 <= ni <= STOPS
                    &&& i != ni
                    &&& self.perm@[i as int] % 2 == 0
                    &&& move_keeps_order(self.perm@, self.inv@, i as int, ni as int)
                    &&& delta == tour_cost(input, moved(self.perm@, i as int, ni as int)) - tour_cost(
                        input,
                        self.perm@,
                    )
                },
                None => true,
            },
    {
        let a = gen_index(mt, 1, STOPS + 1);
        let (_, j) = self.order_span(input, a);
        let ni = gen_index(mt, 1, j);
        self.move_source_to(input, a, ni)
    }

    /// The positions of the two stops of the order of the stop at position
    /// `a`, the restaurant's first.
    pub fn order_span(&self, input: &Input, a: usize) -> (r: (usize, usize))
        requires
            self.wf(input),
            1 <= a <= STOPS,
        ensures
            r == span_of(self, a as int),
            1 <= r.0 < r.1 <= STOPS,
            self.perm@[r.0 as int] % 2 == 0,
            self.perm@[r.1 as int] % 2 == 1,
            r.0 == a || r.1 == a,
    {
        let v = self.perm[a];
        let w = if v % 2 == 0 { v + 1 } else { v - 1 };
        let b = self.inv[w];
        proof {
            let o = (v / 2) as int;
            assert(self.inv@[v as int] == a);
            if v % 2 == 0 {
                assert(v == 2 * o && w == 2 * o + 1);
            } else {
                assert(v == 2 * o + 1 && w == 2 * o);
            }
            assert(pickup_at(self.inv@, o) != NONE);
        }
        if a < b { (a, b) } else { (b, a) }
    }

    /// Moves the restaurant of the order of the stop at position `a` to the
    /// drawn position `ni`: `None` where `ni` is where the restaurant
    /// stands, else its position, `ni` and the change of length.
    pub fn move_source_to(&self, input: &Input, a: usize, ni: usize) -> (r: Option<(usize, usize, i64)>)
        requires
            self.wf(input),
            1 <= a <= STOPS,
            1 <= ni < span_of(self, a as int).1,
        ensures
            r is None <==> ni == span_of(self, a as int).0,
            match r {
                Some((i, ni2, delta)) => {
                    &&& i == span_of(self, a as int).0
                    &&& ni2 == ni
                    &&& 1 <= i <= STOPS
                    &&& 1 <= ni <= STOPS
                    &&& i != ni
                    &&& self.perm@[i as int] % 2 == 0
                    &&& move_keeps_order(self.perm@, self.inv@, i as int, ni as int)
                    &&& delta == tour_cost(input, moved(self.perm@, i as int, ni as int)) - tour_cost(
                        input,
                        self.perm@,
                    )
                },
                None => true,
            },
    {
        let (i, _) = self.order_span(input, a);
        if ni == i {
            return None;
        }
        let delta = self.move_delta(input, i, ni);
        Some((i, ni, delta))
    }

    /// Draws a stop in `1..=STOPS`, takes the position `i` of its order's
    /// destination and draws a new position after the restaurant's
    /// position, up to `STOPS`, and tries it with `move_sink_to`.
    pub fn propose_move_sink(&self, input: &Input, mt: &mut rand_pcg::Mcg128Xsl64) -> (r: Option<
        (usize, usize, i64),
    >)
        requires
            self.wf(input),
        ensures
            match r {
                Some((i, ni, delta)) => {
                    &&& 1 <= i <= STOPS
                    &&& 1 <= ni <= STOPS
                    &&& i != ni
                    &&& self.perm@[i as int] % 2 == 1
                    &&& move_keeps_order(self.perm@, self.inv@, i as int, ni as int)
                    &&& delta == tour_cost(input, moved(self.perm@, i as int, ni as int)) - tour_cost(
                        input,
                        self.perm@,
                    )
                },
                None => true,
            },
    {
        let a = gen_index(mt, 1, STOPS + 1);
        let (j, _) = self.order_span(input, a);
        let ni = gen_index(mt, j + 1, STOPS + 1);
        self.move_sink_to(input, a, ni)
    }

    /// Moves the destination of the order of the stop at position `a` to
    /// the drawn position `ni`: `None` where `ni` is where the destination
    /// stands, else its position, `ni` and the change of length.
    pub fn move_sink_to(&self, input: &Input, a: usize, ni: usize) -> (r: Option<(usize, usize, i64)>)
        requires
            self.wf(input),
            1 <= a <= STOPS,
            span_of(self, a as int).0 < ni <= STOPS,
        ensures
            r is None <==> ni == span_of(self, a as int).1,
            match r {
                Some((i, ni2, delta)) => {
                    &&& i == span_of(self, a as int).1
                    &&& ni2 == ni
                    &&& 1 <= i <= STOPS
                    &&& 1 <= ni <= STOPS
                    &&& i != ni
                    &&& self.perm@[i as int] % 2 == 1
                    &&& move_keeps_order(self.perm@, self.inv@, i as int, ni as int)
                    &&& delta == tour_cost(input, moved(self.perm@, i as int, ni as int)) - tour_cost(
                        input,
                        self.perm@,
                    )
                },
                None => true,
            },
    {
        let (_, i) = self.order_span(input, a);
        if ni == i {
            return None;
        }
        let delta = self.move_delta(input, i, ni);
        Some((i, ni, delta))
    }
}

/// The positions of the two stops of the order of the stop at position `a`,
/// the restaurant's first.
pub open spec fn span_of(st: &State, a: int) -> (usize, usize) {
    let v = st.perm@[a] as int;
    let w = if v % 2 == 0 { v + 1 } else { v - 1 };
    let b = st.inv@[w];
    if a < b { (a as usize, b) } else { (b, a as usize) }
}

/// A move that keeps each order's restaurant before its destination, with
/// every position shifted as the move shifts it, keeps the tour valid.
pub proof fn lemma_move_tour_ok(s: Seq<usize>, inv0: Seq<usize>, inv: Seq<usize>, i: int, ni: int)
    requires
        tour_ok(s, inv0),
        1 <= i <= STOPS,
        1 <= ni <= STOPS,
        i != ni,
        move_keeps_order(s, inv0, i, ni),
        inv.len() == POINTS,
        forall|v: int|
            0 <= v < POINTS ==> #[trigger] inv[v] == if inv0[v] == NONE {
                NONE
            } else {
                new_pos(i, ni, inv0[v] as int) as usize
            },
    ensures
        tour_ok(moved(s, i, ni), inv),
{
    let q = moved(s, i, ni);
    assert forall|k: int| 1 <= k <= STOPS implies #[trigger] q[k] < POINTS && inv[q[k] as int] == k by {
        lemma_move_positions(i, ni, k);
        let a = old_pos(i, ni, k);
        assert(1 <= a <= STOPS);
        assert(q[k] == s[a]);
        assert(inv0[s[a] as int] == a);
    }
    assert forall|v: int| 0 <= v < POINTS implies #[trigger] inv[v] == NONE || (1 <= inv[v] <= STOPS
        && q[inv[v] as int] == v) by {
        if inv0[v] != NONE {
            let a = inv0[v] as int;
            lemma_move_positions(i, ni, a);
            assert(s[a] == v);
        }
    }
    assert forall|o: int| 0 <= o < ORDERS implies ((#[trigger] pickup_at(inv, o) == NONE) == (
    delivery_at(inv, o) == NONE)) && (pickup_at(inv, o) != NONE ==> pickup_at(inv, o) < delivery_at(
        inv,
        o,
    )) by {
        assert(((pickup_at(inv0, o) == NONE) == (delivery_at(inv0, o) == NONE)) && (pickup_at(inv0, o)
            != NONE ==> pickup_at(inv0, o) < delivery_at(inv0, o)));
        if pickup_at(inv0, o) != NONE {
            let pa = pickup_at(inv0, o) as int;
            let da = delivery_at(inv0, o) as int;
            lemma_move_positions(i, ni, pa);
            lemma_move_positions(i, ni, da);
            assert(s[pa] == 2 * o && s[da] == 2 * o + 1);
            if pa == i {
                assert(s[i] % 2 == 0 && s[i] / 2 == o);
            } else if da == i {
                assert(s[i] % 2 == 1 && s[i] / 2 == o);
            }
        }
    }
}

impl State {
    /// Moves the stop at position `i` to position `ni`, where that keeps its
    /// order's restaurant before its destination, and keeps the positions
    /// and the length up to date.
    pub fn commit_move(&mut self, input: &Input, i: usize, ni: usize)
        requires
            old(self).wf(input),
            1 <= i <= STOPS,
            1 <= ni <= STOPS,
            i != ni,
            move_keeps_order(old(self).perm@, old(self).inv@, i as int, ni as int),
        ensures
            final(self).wf(input),
            final(self).perm@ == moved(old(self).perm@, i as int, ni as int),
            final(self).score == old(self).score + move_gain(
                input,
                old(self).perm@,
                i as int,
                ni as int,
            ),
    {
        let delta = self.move_delta(input, i, ni);
        let ghost s = self.perm@;
        let ghost inv0 = self.inv@;
        let mut next: Vec<usize> = Vec::new();
        let mut x: usize = 0;
        while x < STOPS + 2
            invariant
                self.wf(input),
                self.perm@ == s,
                1 <= i <= STOPS,
                1 <= ni <= STOPS,
                i != ni,
                x <= STOPS + 2,
                next@.len() == x,
                forall|y: int| 0 <= y < x ==> #[trigger] next@[y] == moved(s, i as int, ni as int)[y],
            decreases STOPS + 2 - x,
        {
            proof {
                lemma_move_positions(i as int, ni as int, x as int);
            }
            let e = self.perm[old_pos_of(i, ni, x)];
            next.push(e);
            x = x + 1;
        }
        assert(next@ =~= moved(s, i as int, ni as int));
        proof {
            lemma_move_cost(input, s, i as int, ni as int);
            assert(on_points(moved(s, i as int, ni as int))) by {
                assert forall|k: int| 0 <= k < STOPS + 2 implies #[trigger] moved(s, i as int, ni as int)[k]
                    <= POINTS by {
                    lemma_move_positions(i as int, ni as int, k);
                }
            }
            lemma_cost_bound(input, moved(s, i as int, ni as int));
            assert(on_points(s));
            lemma_cost_bound(input, s);
        }
        self.perm = next;
        let lo = if i < ni { i } else { ni };
        let hi = if i < ni { ni } else { i };
        let mut y = lo;
        while y <= hi
            invariant
                input.wf(),
                self.perm@ == moved(s, i as int, ni as int),
                1 <= i <= STOPS,
                1 <= ni <= STOPS,
                i != ni,
                lo == (if i < ni { i } else { ni }),
                hi == (if i < ni { ni } else { i }),
                lo <= y <= hi + 1,
                tour_ok(s, inv0),
                self.inv@.len() == POINTS,
                self.score == tour_cost(input, s),
                forall|v: int|
                    0 <= v < POINTS ==> #[trigger] self.inv@[v] == if inv0[v] != NONE && lo <= new_pos(
                        i as int,
                        ni as int,
                        inv0[v] as int,
                    ) < y {
                        new_pos(i as int, ni as int, inv0[v] as int) as usize
                    } else {
                        inv0[v]
                    },
            decreases hi + 1 - y,
        {
            let e = self.perm[y];
            proof {
                lemma_move_positions(i as int, ni as int, y as int);
                let a = old_pos(i as int, ni as int, y as int);
                assert(e == s[a]);
                assert(inv0[e as int] == a);
                assert forall|v: int| 0 <= v < POINTS && v != e && inv0[v] != NONE implies new_pos(
                    i as int,
                    ni as int,
                    #[trigger] inv0[v] as int,
                ) != y by {
                    lemma_move_positions(i as int, ni as int, inv0[v] as int);
                    assert(s[inv0[v] as int] == v);
                }
            }
            self.inv.set(e, y);
            y = y + 1;
        }
        self.score = self.score + delta;
        proof {
            assert forall|v: int| 0 <= v < POINTS implies #[trigger] self.inv@[v] == if inv0[v] == NONE {
                NONE
            } else {
                new_pos(i as int, ni as int, inv0[v] as int) as usize
            } by {
                if inv0[v] != NONE {
                    lemma_move_positions(i as int, ni as int, inv0[v] as int);
                }
            }
            lemma_move_tour_ok(s, inv0, self.inv@, i as int, ni as int);
        }
    }
}

} // verus!
