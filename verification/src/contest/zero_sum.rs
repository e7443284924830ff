use vstd::prelude::*;
use crate::random::pcg::{new_mt, gen_word};
use crate::beam::leaf::BeamState;

verus! {

/// The number of counters.
pub const N: usize = 20;

/// The number of turns.
pub const TURN: usize = 100;

/// The counters that turn `t` moves together.
pub type Query = [usize; 3];

/// Turn `i` moves counter `j`.
pub open spec fn touches(q: Query, j: int) -> bool {
    q[0] as int == j || q[1] as int == j || q[2] as int == j
}

/// The most turns from `i` on at which counter `j` can be zero, starting at
/// absolute value `k` and moving toward zero whenever the counter is moved.
pub open spec fn future_zeros(qs: Seq<Query>, i: int, j: int, k: int) -> int
    decreases TURN - i,
{
    if i >= TURN || i < 0 {
        0
    } else if touches(qs[i], j) {
        if k == 0 {
            future_zeros(qs, i + 1, j, 1)
        } else {
            future_zeros(qs, i + 1, j, k - 1) + if k == 1 { 1int } else { 0int }
        }
    } else {
        future_zeros(qs, i + 1, j, k) + if k == 0 { 1int } else { 0int }
    }
}

/// A turn can make a counter zero at most once.
pub proof fn lemma_future_zeros_bound(qs: Seq<Query>, i: int, j: int, k: int)
    ensures
        0 <= future_zeros(qs, i, j, k) <= if i < 0 { 0 } else if i > TURN { 0 } else { TURN - i },
    decreases TURN - i,
{
    if 0 <= i < TURN {
        if touches(qs[i], j) {
            if k == 0 {
                lemma_future_zeros_bound(qs, i + 1, j, 1);
            } else {
                lemma_future_zeros_bound(qs, i + 1, j, k - 1);
            }
        } else {
            lemma_future_zeros_bound(qs, i + 1, j, k);
        }
    }
}

/// The most turns from `i` on at which counter `j` can be zero, starting at
/// absolute value `k`, over every way of moving it: each turn that moves it
/// takes it one step toward zero or one step away (from zero, always to one).
pub open spec fn best_zeros(qs: Seq<Query>, i: int, j: int, k: int) -> int
    decreases TURN - i,
{
    if i >= TURN || i < 0 {
        0
    } else if touches(qs[i], j) {
        if k == 0 {
            best_zeros(qs, i + 1, j, 1)
        } else {
            let toward = best_zeros(qs, i + 1, j, k - 1) + if k == 1 { 1int } else { 0int };
            let away = best_zeros(qs, i + 1, j, k + 1);
            if toward >= away { toward } else { away }
        }
    } else {
        best_zeros(qs, i + 1, j, k) + if k == 0 { 1int } else { 0int }
    }
}

/// Two steps nearer zero never scores less.
pub proof fn lemma_future_zeros_nearer(qs: Seq<Query>, i: int, j: int, k: int)
    requires
        k >= 0,
    ensures
        future_zeros(qs, i, j, k) >= future_zeros(qs, i, j, k + 2),
    decreases TURN - i,
{
    if 0 <= i < TURN {
        if touches(qs[i], j) {
            if k >= 1 {
                lemma_future_zeros_nearer(qs, i + 1, j, k - 1);
            }
        } else {
            lemma_future_zeros_nearer(qs, i + 1, j, k);
        }
    }
}

/// Moving toward zero is always best: the table's count is the most zeros
/// that any way of moving the counter attains.
pub proof fn lemma_future_zeros_best(qs: Seq<Query>, i: int, j: int, k: int)
    requires
        k >= 0,
    ensures
        future_zeros(qs, i, j, k) == best_zeros(qs, i, j, k),
    decreases TURN - i,
{
    if 0 <= i < TURN {
        if touches(qs[i], j) {
            if k == 0 {
                lemma_future_zeros_best(qs, i + 1, j, 1);
            } else {
                lemma_future_zeros_best(qs, i + 1, j, k - 1);
                lemma_future_zeros_best(qs, i + 1, j, k + 1);
                lemma_future_zeros_nearer(qs, i + 1, j, k - 1);
            }
        } else {
            lemma_future_zeros_best(qs, i + 1, j, k);
        }
    }
}

/// The queries name counters, three different ones per turn.
pub open spec fn queries_ok(qs: Seq<Query>) -> bool {
    &&& qs.len() == TURN
    &&& forall|i: int|
        0 <= i < TURN ==> {
            let q = #[trigger] qs[i];
            &&& q[0] < N && q[1] < N && q[2] < N
            &&& q[0] != q[1] && q[0] != q[2] && q[1] != q[2]
        }
}

/// The absolute value of a counter.
pub open spec fn abs_of(v: int) -> int {
    if v < 0 {
        -v
    } else {
        v
    }
}

/// Each counter of `q` can move by one and still index the table.
pub open spec fn query_has_room(x: Seq<int>, q: Query) -> bool {
    &&& abs_of(x[q[0] as int]) + 1 < TURN
    &&& abs_of(x[q[1] as int]) + 1 < TURN
    &&& abs_of(x[q[2] as int]) + 1 < TURN
}

/// One zobrist step: adds `a` times the key to the hash, modulo 2^64.
pub open spec fn hash_step(h: u64, key: u64, a: int) -> u64 {
    ((h as int + a * key as int) % 0x1_0000_0000_0000_0000) as u64
}

/// What a turn changes: the turn number, the counters, the count of zeros,
/// the score and the hash.
pub struct ZeroSumView {
    pub t: int,
    pub x: Seq<int>,
    pub zeros: int,
    pub score: int,
    pub hash: u64,
}

/// Moves one counter by `a` at turn `t`, as a step of a turn does.
pub open spec fn step_counter(
    qs: Seq<Query>,
    zob: Seq<u64>,
    v: ZeroSumView,
    j: int,
    a: int,
    from_t: int,
    to_t: int,
) -> ZeroSumView {
    let old = v.x[j];
    let new = old + a;
    ZeroSumView {
        t: v.t,
        x: v.x.update(j, new),
        zeros: v.zeros - (if old == 0 { 1int } else { 0int }) + (if new == 0 { 1int } else { 0int }),
        score: v.score - future_zeros(qs, from_t, j, abs_of(old)) + future_zeros(qs, to_t, j, abs_of(new)),
        hash: hash_step(v.hash, zob[j], a),
    }
}

/// Turn `v.t` played with `act`: its counters move by one, up for `true`,
/// then the zeros are counted into the score.
pub open spec fn forward_view(qs: Seq<Query>, zob: Seq<u64>, v: ZeroSumView, act: bool) -> ZeroSumView {
    let a = if act { 1int } else { -1int };
    let q = qs[v.t];
    let v1 = step_counter(qs, zob, v, q[0] as int, a, v.t, v.t + 1);
    let v2 = step_counter(qs, zob, v1, q[1] as int, a, v.t, v.t + 1);
    let v3 = step_counter(qs, zob, v2, q[2] as int, a, v.t, v.t + 1);
    ZeroSumView { t: v.t + 1, score: v3.score + v3.zeros, ..v3 }
}

/// Turn `v.t - 1` taken back: the score loses the zeros, then its counters
/// move back.
pub open spec fn backward_view(qs: Seq<Query>, zob: Seq<u64>, v: ZeroSumView, act: bool) -> ZeroSumView {
    let a = if act { -1int } else { 1int };
    let t = v.t - 1;
    let q = qs[t];
    let v0 = ZeroSumView { t, score: v.score - v.zeros, ..v };
    let v1 = step_counter(qs, zob, v0, q[0] as int, a, t + 1, t);
    let v2 = step_counter(qs, zob, v1, q[1] as int, a, t + 1, t);
    step_counter(qs, zob, v2, q[2] as int, a, t + 1, t)
}

/// How many of the first `n` counters of `x` are zero.
pub open spec fn zero_count(x: Seq<int>, n: int) -> int
    decreases n,
{
    if n <= 0 {
        0
    } else {
        zero_count(x, n - 1) + if x[n - 1] == 0 { 1int } else { 0int }
    }
}

/// The counters `x` with each counter of `q` moved by `a`.
pub open spec fn moved_by(x: Seq<int>, q: Query, a: int) -> Seq<int> {
    Seq::new(x.len(), |j: int| if touches(q, j) { x[j] + a } else { x[j] })
}

/// The table's future zeros at turn `t` of the three counters of `q`, at
/// their values in `x`.
pub open spec fn query_terms(qs: Seq<Query>, t: int, q: Query, x: Seq<int>) -> int {
    future_zeros(qs, t, q[0] as int, abs_of(x[q[0] as int])) + future_zeros(qs, t, q[1] as int, abs_of(
        x[q[1] as int],
    )) + future_zeros(qs, t, q[2] as int, abs_of(x[q[2] as int]))
}

/// Counters all at zero count as zeros, every one: so the starting state
/// keeps its zeros equal to `zero_count`, and `lemma_forward_score` and
/// `lemma_backward_score` apply along every run of turns.
pub proof fn lemma_all_zero_count(n: int)
    requires
        0 <= n,
    ensures
        zero_count(Seq::new(n as nat, |j: int| 0int), n) == n,
    decreases n,
{
    if n > 0 {
        let x = Seq::new(n as nat, |j: int| 0int);
        let y = Seq::new((n - 1) as nat, |j: int| 0int);
        lemma_all_zero_count(n - 1);
        lemma_zero_count_prefix(x, y, n - 1);
    }
}

/// The count over the first `n` counters depends only on those counters.
pub proof fn lemma_zero_count_prefix(x: Seq<int>, y: Seq<int>, n: int)
    requires
        0 <= n <= x.len(),
        n <= y.len(),
        forall|j: int| 0 <= j < n ==> x[j] == y[j],
    ensures
        zero_count(x, n) == zero_count(y, n),
    decreases n,
{
    if n > 0 {
        lemma_zero_count_prefix(x, y, n - 1);
    }
}

/// Setting one counter changes the count of zeros by whether it was and
/// is zero.
pub proof fn lemma_zero_count_update(x: Seq<int>, n: int, j: int, v: int)
    requires
        0 <= j < x.len(),
        n <= x.len(),
    ensures
        zero_count(x.update(j, v), n) == zero_count(x, n) - (if j < n && x[j] == 0 { 1int } else { 0int }) + (
        if j < n && v == 0 { 1int } else { 0int }),
    decreases n,
{
    if n > 0 {
        lemma_zero_count_update(x, n - 1, j, v);
    }
}

/// A turn moves exactly its three counters by one, each from the value it
/// had; the zeros then counted are those of the moved counters; and the
/// score rises by that count of zeros, beyond trading the three counters'
/// table terms at this turn for their terms at the next.
pub proof fn lemma_forward_score(qs: Seq<Query>, zob: Seq<u64>, v: ZeroSumView, act: bool)
    requires
        queries_ok(qs),
        0 <= v.t < TURN,
        v.x.len() == N,
        v.zeros == zero_count(v.x, N as int),
    ensures
        ({
            let a = if act { 1int } else { -1int };
            let q = qs[v.t];
            let f = forward_view(qs, zob, v, act);
            let x2 = moved_by(v.x, q, a);
            &&& f.t == v.t + 1
            &&& f.x == x2
            &&& f.zeros == zero_count(x2, N as int)
            &&& f.score == v.score - query_terms(qs, v.t, q, v.x) + query_terms(qs, v.t + 1, q, x2) + zero_count(
                x2,
                N as int,
            )
        }),
{
    let a = if act { 1int } else { -1int };
    let t = v.t;
    let q = qs[t];
    assert(q[0] < N && q[1] < N && q[2] < N && q[0] != q[1] && q[0] != q[2] && q[1] != q[2]);
    let (j0, j1, j2) = (q[0] as int, q[1] as int, q[2] as int);
    let v1 = step_counter(qs, zob, v, j0, a, t, t + 1);
    let v2 = step_counter(qs, zob, v1, j1, a, t, t + 1);
    let v3 = step_counter(qs, zob, v2, j2, a, t, t + 1);
    lemma_zero_count_update(v.x, N as int, j0, v.x[j0] + a);
    lemma_zero_count_update(v1.x, N as int, j1, v1.x[j1] + a);
    lemma_zero_count_update(v2.x, N as int, j2, v2.x[j2] + a);
    let x2 = moved_by(v.x, q, a);
    assert(v3.x =~= x2);
    assert(v1.x[j1] == v.x[j1] && v1.x[j2] == v.x[j2] && v2.x[j2] == v.x[j2]);
    assert(x2[j0] == v.x[j0] + a && x2[j1] == v.x[j1] + a && x2[j2] == v.x[j2] + a);
}

/// Taking back turn `t` removes the zeros counted after it and trades the
/// three counters' table terms at turn `t + 1` back for their terms at `t`,
/// each counter moved back by one.
pub proof fn lemma_backward_score(qs: Seq<Query>, zob: Seq<u64>, w: ZeroSumView, act: bool)
    requires
        queries_ok(qs),
        1 <= w.t <= TURN,
        w.x.len() == N,
        w.zeros == zero_count(w.x, N as int),
    ensures
        ({
            let a = if act { -1int } else { 1int };
            let q = qs[w.t - 1];
            let b = backward_view(qs, zob, w, act);
            let x0 = moved_by(w.x, q, a);
            &&& b.t == w.t - 1
            &&& b.x == x0
            &&& b.zeros == zero_count(x0, N as int)
            &&& b.score == w.score - zero_count(w.x, N as int) - query_terms(qs, w.t, q, w.x) + query_terms(
                qs,
                w.t - 1,
                q,
                x0,
            )
        }),
{
    let a = if act { -1int } else { 1int };
    let t = w.t - 1;
    let q = qs[t];
    assert(q[0] < N && q[1] < N && q[2] < N && q[0] != q[1] && q[0] != q[2] && q[1] != q[2]);
    let (j0, j1, j2) = (q[0] as int, q[1] as int, q[2] as int);
    let v0 = ZeroSumView { t, score: w.score - w.zeros, ..w };
    let v1 = step_counter(qs, zob, v0, j0, a, t + 1, t);
    let v2 = step_counter(qs, zob, v1, j1, a, t + 1, t);
    lemma_zero_count_update(v0.x, N as int, j0, v0.x[j0] + a);
    lemma_zero_count_update(v1.x, N as int, j1, v1.x[j1] + a);
    lemma_zero_count_update(v2.x, N as int, j2, v2.x[j2] + a);
    let x0 = moved_by(w.x, q, a);
    let v3 = step_counter(qs, zob, v2, j2, a, t + 1, t);
    assert(v3.x =~= x0);
    assert(v1.x[j1] == w.x[j1] && v1.x[j2] == w.x[j2] && v2.x[j2] == w.x[j2]);
}

/// Two hash steps add up: the hash moves by the sum of both, modulo 2^64.
pub proof fn lemma_hash_compose(h: u64, k1: u64, a1: int, k2: u64, a2: int)
    ensures
        hash_step(hash_step(h, k1, a1), k2, a2) as int == (h as int + a1 * k1 as int + a2 * k2 as int)
            % 0x1_0000_0000_0000_0000,
{
    let m = 0x1_0000_0000_0000_0000int;
    let x = h as int + a1 * k1 as int;
    vstd::arithmetic::div_mod::lemma_add_mod_noop(x, a2 * k2 as int, m);
    vstd::arithmetic::div_mod::lemma_mod_twice(a2 * k2 as int, m);
    vstd::arithmetic::div_mod::lemma_add_mod_noop(x % m, a2 * k2 as int, m);
}

/// Taking back a turn right after playing it restores what it changed.
#[verifier::spinoff_prover]
#[verifier::rlimit(60)]
pub proof fn lemma_backward_undoes_forward(qs: Seq<Query>, zob: Seq<u64>, v: ZeroSumView, act: bool)
    requires
        queries_ok(qs),
        0 <= v.t < TURN,
        v.x.len() == N,
        zob.len() == N,
    ensures
        backward_view(qs, zob, forward_view(qs, zob, v, act), act) == v,
{
    let a = if act { 1int } else { -1int };
    let q = qs[v.t];
    let f = forward_view(qs, zob, v, act);
    let b = backward_view(qs, zob, f, act);
    let m = 0x1_0000_0000_0000_0000int;
    assert(q[0] < N && q[1] < N && q[2] < N);
    let (k0, k1, k2) = (zob[q[0] as int], zob[q[1] as int], zob[q[2] as int]);
    let h1 = hash_step(v.hash, k0, a);
    let h2 = hash_step(h1, k1, a);
    lemma_hash_compose(v.hash, k0, a, k1, a);
    let s2 = v.hash as int + a * k0 as int + a * k1 as int;
    assert(h2 as int == s2 % m);
    vstd::arithmetic::div_mod::lemma_add_mod_noop(s2, a * k2 as int, m);
    vstd::arithmetic::div_mod::lemma_mod_twice(a * k2 as int, m);
    vstd::arithmetic::div_mod::lemma_add_mod_noop(s2 % m, a * k2 as int, m);
    let s3 = s2 + a * k2 as int;
    assert(f.hash as int == s3 % m);
    lemma_hash_compose(f.hash, k0, -a, k1, -a);
    assert((-a) * k0 as int == -(a * k0 as int)) by (nonlinear_arith);
    assert((-a) * k1 as int == -(a * k1 as int)) by (nonlinear_arith);
    assert((-a) * k2 as int == -(a * k2 as int)) by (nonlinear_arith);
    let g2 = hash_step(hash_step(f.hash, k0, -a), k1, -a);
    let r2 = f.hash as int - a * k0 as int - a * k1 as int;
    assert(g2 as int == r2 % m);
    let y = -a * k2 as int;
    vstd::arithmetic::div_mod::lemma_add_mod_noop(r2, y, m);
    vstd::arithmetic::div_mod::lemma_add_mod_noop(r2 % m, y, m);
    vstd::arithmetic::div_mod::lemma_mod_twice(r2, m);
    assert(b.hash as int == (r2 % m + y) % m);
    assert(b.hash as int == (r2 + y) % m);
    let big_a = a * k0 as int + a * k1 as int + a * k2 as int;
    assert(r2 + y == f.hash as int - big_a);
    vstd::arithmetic::div_mod::lemma_add_mod_noop(s3, -big_a, m);
    vstd::arithmetic::div_mod::lemma_add_mod_noop(s3 % m, -big_a, m);
    vstd::arithmetic::div_mod::lemma_mod_twice(s3, m);
    assert((f.hash as int - big_a) % m == (s3 - big_a) % m);
    assert(s3 - big_a == v.hash as int);
    vstd::arithmetic::div_mod::lemma_small_mod(v.hash as nat, m as nat);
    assert(b.hash == v.hash);
    assert(b.x =~= v.x);
    assert(b.zeros == v.zeros);
    assert(b.score == v.score);
    assert(b.t == v.t);
}

/// The beam-search state of the zero-sum game: counters moved by the queries
/// of the turns played, the zeros among them, and an incrementally kept
/// score and hash.
#[derive(Clone)]
pub struct ZeroSumState {
    queries: Vec<Query>,
    t: usize,
    x: Vec<i16>,
    zeros: i32,
    table: Vec<Vec<Vec<i16>>>,
    zob: Vec<u64>,
    now_score: i32,
    now_hash: u64,
}

impl ZeroSumState {
    /// The queries.
    pub closed spec fn spec_queries(&self) -> Seq<Query> {
        self.queries@
    }

    /// The hash keys of the counters.
    pub closed spec fn spec_zob(&self) -> Seq<u64> {
        self.zob@
    }

    /// What the turns change.
    pub closed spec fn view(&self) -> ZeroSumView {
        ZeroSumView {
            t: self.t as int,
            x: self.x@.map_values(|v: i16| v as int),
            zeros: self.zeros as int,
            score: self.now_score as int,
            hash: self.now_hash,
        }
    }

    /// The table's entry for turn `i`, counter `j` and absolute value `k`.
    pub closed spec fn table_at(&self, i: int, j: int, k: int) -> int {
        self.table@[i]@[j]@[k] as int
    }

    /// The table of a well-formed state holds `future_zeros` for every
    /// turn, counter and absolute value below the number of turns.
    pub proof fn lemma_table(&self)
        requires
            self.wf(),
        ensures
            forall|i: int, j: int, k: int|
                0 <= i <= TURN && 0 <= j < N && 0 <= k < TURN ==> #[trigger] self.table_at(i, j, k) == future_zeros(
                    self.spec_queries(),
                    i,
                    j,
                    k,
                ),
    {
    }

    /// The table holds `future_zeros` and the shapes fit.
    pub closed spec fn wf(&self) -> bool {
        &&& queries_ok(self.queries@)
        &&& self.t <= TURN
        &&& self.x@.len() == N
        &&& self.zob@.len() == N
        &&& self.table@.len() == TURN + 1
        &&& forall|i: int| 0 <= i <= TURN ==> (#[trigger] self.table@[i])@.len() == N
        &&& forall|i: int, j: int|
            0 <= i <= TURN && 0 <= j < N ==> (#[trigger] self.table@[i]@[j])@.len() == TURN
        &&& forall|i: int, j: int, k: int|
            0 <= i <= TURN && 0 <= j < N && 0 <= k < TURN ==> (#[trigger] self.table@[i]@[j]@[k]) as int
                == future_zeros(self.queries@, i, j, k)
    }

    /// The values a turn may change stay far from the integer limits.
    pub open spec fn small(v: ZeroSumView) -> bool {
        &&& -1_000_000 <= v.zeros <= 1_000_000
        &&& -1_000_000_000 <= v.score <= 1_000_000_000
        &&& forall|j: int| 0 <= j < v.x.len() ==> -1000 <= #[trigger] v.x[j] <= 1000
    }

    /// Moves counter `j` by `a`, reading the table at turns `from` and `to`.
    fn step_counter(&mut self, j: usize, a: i16, from: usize, to: usize)
        requires
            old(self).wf(),
            j < N,
            a == 1 || a == -1,
            from <= TURN,
            to <= TURN,
            abs_of(old(self)@.x[j as int]) < TURN,
            abs_of(old(self)@.x[j as int] + a) < TURN,
            -3_000_000 <= old(self)@.score <= 3_000_000,
            -1_000_010 <= old(self)@.zeros <= 1_000_010,
        ensures
            final(self).wf(),
            final(self).spec_queries() == old(self).spec_queries(),
            final(self).spec_zob() == old(self).spec_zob(),
            final(self)@ == step_counter(old(self).spec_queries(), old(self).spec_zob(), old(self)@, j as int, a as int, from as int, to as int),
            final(self)@.score <= old(self)@.score + 200,
            final(self)@.score >= old(self)@.score - 200,
            final(self)@.zeros <= old(self)@.zeros + 1,
            final(self)@.zeros >= old(self)@.zeros - 1,
    {
        let v = self.x[j];
        let av: usize = if v < 0 { (-v) as usize } else { v as usize };
        proof {
            lemma_future_zeros_bound(self.queries@, from as int, j as int, av as int);
            lemma_future_zeros_bound(self.queries@, to as int, j as int, abs_of(v + a));
        }
        self.now_score = self.now_score - self.table[from][j][av] as i32;
        if v == 0 {
            self.zeros = self.zeros - 1;
        }
        let nv = v + a;
        self.x.set(j, nv);
        let key = self.zob[j];
        let step = if a == 1 { key } else { 0u64.wrapping_sub(key) };
        self.now_hash = self.now_hash.wrapping_add(step);
        let an: usize = if nv < 0 { (-nv) as usize } else { nv as usize };
        self.now_score = self.now_score + self.table[to][j][an] as i32;
        if nv == 0 {
            self.zeros = self.zeros + 1;
        }
        proof {
            assert(self.x@.map_values(|w: i16| w as int) =~= old(self)@.x.update(j as int, v + a));
            let m = 0x1_0000_0000_0000_0000int;
            let h0 = old(self).now_hash;
            if a == 1 {
                assert(self.now_hash == hash_step(old(self).now_hash, key, 1));
            } else {
                assert(step as int == (m - key as int) % m);
                assert(self.now_hash as int == (h0 as int + step as int) % m);
                assert((h0 as int + (m - key as int) % m) % m == (h0 as int - key as int) % m) by {
                    vstd::arithmetic::div_mod::lemma_add_mod_noop(h0 as int, m - key as int, m);
                    vstd::arithmetic::div_mod::lemma_mod_twice(h0 as int + m - key as int, m);
                    vstd::arithmetic::div_mod::lemma_mod_add_multiples_vanish(h0 as int - key as int, m);
                }
                assert(self.now_hash == hash_step(old(self).now_hash, key, -1));
            }
        }
    }

    /// The counters that turn `t` moves.
    pub open spec fn turn_query(&self) -> Query {
        self.spec_queries()[self@.t]
    }

    /// Plays the current turn with `act`: its counters go up for `true`, down
    /// for `false`.
    pub fn forward(&mut self, act: bool)
        requires
            old(self).wf(),
            old(self)@.t < TURN,
            query_has_room(old(self)@.x, old(self).turn_query()),
            -1_000_000 <= old(self)@.zeros <= 1_000_000,
            -1_000_000 <= old(self)@.score <= 1_000_000,
        ensures
            final(self).wf(),
            final(self).spec_queries() == old(self).spec_queries(),
            final(self).spec_zob() == old(self).spec_zob(),
            final(self)@ == forward_view(old(self).spec_queries(), old(self).spec_zob(), old(self)@, act),
    {
        let t = self.t;
        let q = self.queries[t];
        proof {
            assert(q[0] < N && q[1] < N && q[2] < N);
        }
        let a: i16 = if act { 1 } else { -1 };
        self.step_counter(q[0], a, t, t + 1);
        self.step_counter(q[1], a, t, t + 1);
        self.step_counter(q[2], a, t, t + 1);
        self.now_score = self.now_score + self.zeros;
        self.t = t + 1;
        proof {
            assert(self.x@.map_values(|w: i16| w as int) =~= forward_view(old(self).spec_queries(), old(self).spec_zob(), old(self)@, act).x);
        }
    }

    /// Takes back the last turn played, which was played with `act`.
    pub fn backward(&mut self, act: bool)
        requires
            old(self).wf(),
            old(self)@.t >= 1,
            query_has_room(old(self)@.x, old(self).spec_queries()[old(self)@.t - 1]),
            -1_000_000 <= old(self)@.zeros <= 1_000_000,
            -1_000_000 <= old(self)@.score <= 1_000_000,
        ensures
            final(self).wf(),
            final(self).spec_queries() == old(self).spec_queries(),
            final(self).spec_zob() == old(self).spec_zob(),
            final(self)@ == backward_view(old(self).spec_queries(), old(self).spec_zob(), old(self)@, act),
    {
        let t = self.t - 1;
        let q = self.queries[t];
        proof {
            assert(q[0] < N && q[1] < N && q[2] < N);
        }
        let a: i16 = if act { -1 } else { 1 };
        self.t = t;
        self.now_score = self.now_score - self.zeros;
        self.step_counter(q[0], a, t + 1, t);
        self.step_counter(q[1], a, t + 1, t);
        self.step_counter(q[2], a, t + 1, t);
        proof {
            assert(self.x@.map_values(|w: i16| w as int) =~= backward_view(old(self).spec_queries(), old(self).spec_zob(), old(self)@, act).x);
        }
    }

    /// The moves available: only `true` on the first turn, else both.
    pub fn next_acts(&self) -> (r: Vec<bool>)
        ensures
            r@ == if self@.t == 0 { seq![true] } else { seq![false, true] },
    {
        if self.t == 0 {
            vec![true]
        } else {
            vec![false, true]
        }
    }

    /// The score kept so far.
    pub fn score(&self) -> (r: i32)
        ensures
            r == self@.score,
    {
        self.now_score
    }

    /// The hash kept so far.
    pub fn hash(&self) -> (r: u64)
        ensures
            r == self@.hash,
    {
        self.now_hash
    }

    /// The number of turns played.
    pub fn turn(&self) -> (r: usize)
        ensures
            r == self@.t,
    {
        self.t
    }
}

/// The score a state starts from: for each of the first `n` counters, the most
/// zeros it can still reach plus one if it is zero now.
pub open spec fn fresh_score(qs: Seq<Query>, t: int, x: Seq<int>, n: int) -> int
    decreases n,
{
    if n <= 0 {
        0
    } else {
        fresh_score(qs, t, x, n - 1) + future_zeros(qs, t, n - 1, abs_of(x[n - 1])) + if x[n - 1] == 0 {
            1int
        } else {
            0int
        }
    }
}

impl ZeroSumState {
    /// The score recomputed from the counters.
    fn calc_score(&self) -> (s: i32)
        requires
            self.wf(),
            forall|j: int| 0 <= j < N ==> abs_of(#[trigger] self@.x[j]) < TURN,
        ensures
            s == fresh_score(self.spec_queries(), self@.t, self@.x, N as int),
    {
        let mut s: i32 = 0;
        let mut i: usize = 0;
        while i < N
            invariant
                self.wf(),
                forall|j: int| 0 <= j < N ==> abs_of(#[trigger] self@.x[j]) < TURN,
                i <= N,
                s == fresh_score(self.spec_queries(), self@.t, self@.x, i as int),
                0 <= s <= 101 * i,
            decreases N - i,
        {
            let v = self.x[i];
            proof {
                assert(self@.x[i as int] == v as int);
                assert(abs_of(self@.x[i as int]) < TURN);
            }
            let av: usize = if v < 0 { (-v) as usize } else { v as usize };
            proof {
                lemma_future_zeros_bound(self.queries@, self.t as int, i as int, av as int);
            }
            s = s + self.table[self.t][i][av] as i32;
            if v == 0 {
                s = s + 1;
            }
            i = i + 1;
        }
        s
    }

    /// The starting state for `queries`: no turn played, every counter zero,
    /// with hash keys drawn from a generator seeded with 768.
    pub fn new(queries: Vec<Query>) -> (st: Self)
        requires
            queries_ok(queries@),
        ensures
            st.wf(),
            st.spec_queries() == queries@,
            forall|i: int, j: int, k: int|
                0 <= i <= TURN && 0 <= j < N && 0 <= k < TURN ==> #[trigger] st.table_at(i, j, k) == future_zeros(
                    queries@,
                    i,
                    j,
                    k,
                ),
            st@.t == 0,
            st@.x == Seq::new(N as nat, |j: int| 0int),
            st@.zeros == N,
            st@.score == fresh_score(queries@, 0, Seq::new(N as nat, |j: int| 0int), N as int),
            st@.hash == 0,
    {
        let mut table: Vec<Vec<Vec<i16>>> = Vec::new();
        let mut i: usize = 0;
        while i <= TURN
            invariant
                i <= TURN + 1,
                table@.len() == i,
                forall|a: int| 0 <= a < i ==> (#[trigger] table@[a])@.len() == N,
                forall|a: int, b: int| 0 <= a < i && 0 <= b < N ==> (#[trigger] table@[a]@[b])@.len() == TURN,
                forall|a: int, b: int, c: int|
                    0 <= a < i && 0 <= b < N && 0 <= c < TURN ==> (#[trigger] table@[a]@[b]@[c]) == 0,
            decreases TURN + 1 - i,
        {
            let mut row: Vec<Vec<i16>> = Vec::new();
            let mut j: usize = 0;
            while j < N
                invariant
                    j <= N,
                    row@.len() == j,
                    forall|b: int| 0 <= b < j ==> (#[trigger] row@[b])@.len() == TURN,
                    forall|b: int, c: int| 0 <= b < j && 0 <= c < TURN ==> (#[trigger] row@[b]@[c]) == 0,
                decreases N - j,
            {
                let cell: Vec<i16> = vec![0i16; TURN];
                row.push(cell);
                j = j + 1;
            }
            table.push(row);
            i = i + 1;
        }
        let mut i: usize = TURN;
        while i > 0
            invariant
                queries_ok(queries@),
                i <= TURN,
                table@.len() == TURN + 1,
                forall|a: int| 0 <= a <= TURN ==> (#[trigger] table@[a])@.len() == N,
                forall|a: int, b: int| 0 <= a <= TURN && 0 <= b < N ==> (#[trigger] table@[a]@[b])@.len() == TURN,
                forall|a: int, b: int, c: int|
                    i <= a <= TURN && 0 <= b < N && 0 <= c < TURN ==> (#[trigger] table@[a]@[b]@[c]) as int
                        == future_zeros(queries@, a, b, c),
            decreases i,
        {
            i = i - 1;
            let q = queries[i];
            let mut j: usize = 0;
            while j < N
                invariant
                    queries_ok(queries@),
                    i < TURN,
                    q == queries@[i as int],
                    j <= N,
                    table@.len() == TURN + 1,
                    forall|a: int| 0 <= a <= TURN ==> (#[trigger] table@[a])@.len() == N,
                    forall|a: int, b: int| 0 <= a <= TURN && 0 <= b < N ==> (#[trigger] table@[a]@[b])@.len() == TURN,
                    forall|a: int, b: int, c: int|
                        i < a <= TURN && 0 <= b < N && 0 <= c < TURN ==> (#[trigger] table@[a]@[b]@[c]) as int
                            == future_zeros(queries@, a, b, c),
                    forall|b: int, c: int|
                        0 <= b < j && 0 <= c < TURN ==> (#[trigger] table@[i as int]@[b]@[c]) as int
                            == future_zeros(queries@, i as int, b, c),
                decreases N - j,
            {
                let hit = q[0] == j || q[1] == j || q[2] == j;
                let mut k: usize = 0;
                while k < TURN
                    invariant
                        queries_ok(queries@),
                        i < TURN,
                        q == queries@[i as int],
                        j < N,
                        hit == touches(q, j as int),
                        k <= TURN,
                        table@.len() == TURN + 1,
                        forall|a: int| 0 <= a <= TURN ==> (#[trigger] table@[a])@.len() == N,
                        forall|a: int, b: int| 0 <= a <= TURN && 0 <= b < N ==> (#[trigger] table@[a]@[b])@.len() == TURN,
                        forall|a: int, b: int, c: int|
                            i < a <= TURN && 0 <= b < N && 0 <= c < TURN ==> (#[trigger] table@[a]@[b]@[c]) as int
                                == future_zeros(queries@, a, b, c),
                        forall|b: int, c: int|
                            0 <= b < j && 0 <= c < TURN ==> (#[trigger] table@[i as int]@[b]@[c]) as int
                                == future_zeros(queries@, i as int, b, c),
                        forall|c: int|
                            0 <= c < k ==> (#[trigger] table@[i as int]@[j as int]@[c]) as int
                                == future_zeros(queries@, i as int, j as int, c),
                    decreases TURN - k,
                {
                    proof {
                        lemma_future_zeros_bound(queries@, i + 1, j as int, if hit { if k == 0 { 1int } else { k - 1 } } else { k as int });
                        if hit && k > 0 {
                            assert(table@[i + 1]@[j as int]@[k - 1] as int == future_zeros(queries@, i + 1, j as int, k - 1));
                        }
                        if !hit {
                            assert(table@[i + 1]@[j as int]@[k as int] as int == future_zeros(queries@, i + 1, j as int, k as int));
                        }
                    }
                    let v: i16 = if hit {
                        if k == 0 {
                            table[i + 1][j][1]
                        } else {
                            table[i + 1][j][k - 1] + if k == 1 { 1i16 } else { 0i16 }
                        }
                    } else {
                        table[i + 1][j][k] + if k == 0 { 1i16 } else { 0i16 }
                    };
                    proof {
                        lemma_future_zeros_bound(queries@, i + 1, j as int, if hit { if k == 0 { 1int } else { k - 1 } } else { k as int });
                    }
                    let ghost before = table@;
                    table[i][j].set(k, v);
                    proof {
                        assert forall|a: int, b: int, c: int|
                            i < a <= TURN && 0 <= b < N && 0 <= c < TURN implies (#[trigger] table@[a]@[b]@[c]) as int
                                == future_zeros(queries@, a, b, c) by {
                            assert(table@[a] == before[a]);
                        }
                    }
                    k = k + 1;
                }
                j = j + 1;
            }
        }
        let mut mt = new_mt(768);
        let mut zob: Vec<u64> = Vec::new();
        let mut j: usize = 0;
        while j < N
            invariant
                j <= N,
                zob@.len() == j,
            decreases N - j,
        {
            zob.push(gen_word(&mut mt));
            j = j + 1;
        }
        let x: Vec<i16> = vec![0i16; N];
        let mut st = ZeroSumState {
            queries,
            t: 0,
            x,
            zeros: N as i32,
            table,
            zob,
            now_score: 0,
            now_hash: 0,
        };
        proof {
            assert(st.x@.map_values(|w: i16| w as int) =~= Seq::new(N as nat, |j: int| 0int));
        }
        st.now_score = st.calc_score();
        st
    }
}

/// Turn `v.t` can be played and taken back within the table and the
/// bounds the game keeps: the turn exists, each counter it moves stays two
/// short of the table's edge, and the zeros and the score are in range.
pub open spec fn turn_fits(qs: Seq<Query>, zob: Seq<u64>, v: ZeroSumView) -> bool {
    &&& queries_ok(qs)
    &&& zob.len() == N
    &&& v.x.len() == N
    &&& 0 <= v.t < TURN
    &&& abs_of(v.x[qs[v.t][0] as int]) + 2 < TURN
    &&& abs_of(v.x[qs[v.t][1] as int]) + 2 < TURN
    &&& abs_of(v.x[qs[v.t][2] as int]) + 2 < TURN
    &&& 0 <= v.zeros <= 1000
    &&& 0 <= v.score <= 100_000
}

/// The last turn played can be taken back within the table and bounds.
pub open spec fn back_fits(qs: Seq<Query>, v: ZeroSumView) -> bool {
    &&& 1 <= v.t <= TURN
    &&& query_has_room(v.x, qs[v.t - 1])
    &&& -1_000_000 <= v.zeros <= 1_000_000
    &&& -1_000_000 <= v.score <= 1_000_000
}

/// A turn that fits can be taken back once played.
pub proof fn lemma_forward_fits_back(qs: Seq<Query>, zob: Seq<u64>, v: ZeroSumView, act: bool)
    requires
        turn_fits(qs, zob, v),
    ensures
        back_fits(qs, forward_view(qs, zob, v, act)),
{
    let a = if act { 1int } else { -1int };
    let t = v.t;
    let q = qs[t];
    assert(q[0] < N && q[1] < N && q[2] < N && q[0] != q[1] && q[0] != q[2] && q[1] != q[2]);
    let (j0, j1, j2) = (q[0] as int, q[1] as int, q[2] as int);
    lemma_future_zeros_bound(qs, t, j0, abs_of(v.x[j0]));
    lemma_future_zeros_bound(qs, t + 1, j0, abs_of(v.x[j0] + a));
    let v1 = step_counter(qs, zob, v, j0, a, t, t + 1);
    lemma_future_zeros_bound(qs, t, j1, abs_of(v1.x[j1]));
    lemma_future_zeros_bound(qs, t + 1, j1, abs_of(v1.x[j1] + a));
    let v2 = step_counter(qs, zob, v1, j1, a, t, t + 1);
    lemma_future_zeros_bound(qs, t, j2, abs_of(v2.x[j2]));
    lemma_future_zeros_bound(qs, t + 1, j2, abs_of(v2.x[j2] + a));
    let v3 = step_counter(qs, zob, v2, j2, a, t, t + 1);
    assert(v1.x[j1] == v.x[j1] && v1.x[j2] == v.x[j2]);
    assert(v2.x[j2] == v.x[j2]);
    assert(v3.x[j0] == v.x[j0] + a);
    assert(v3.x[j1] == v.x[j1] + a);
    assert(v3.x[j2] == v.x[j2] + a);
    let f = forward_view(qs, zob, v, act);
    assert(f.x == v3.x);
    assert(qs[f.t - 1] == q);
}

/// The game as a search state: the game itself, and for each turn played
/// through the search whether it fitted (`turn_fits`) and so was played.
pub struct ZeroSumSearch {
    pub game: ZeroSumState,
    pub played: Vec<bool>,
}

impl ZeroSumSearch {
    /// A search from `game`, with no turn played through it yet.
    pub fn new(game: ZeroSumState) -> (r: Self)
        requires
            game.wf(),
        ensures
            r.ready(),
            r.model() == (game.spec_queries(), game.spec_zob(), game@, Seq::<bool>::empty()),
    {
        ZeroSumSearch { game, played: Vec::new() }
    }
}

impl ZeroSumState {
    /// Whether the current turn fits (`turn_fits`).
    pub fn turn_fits_now(&self) -> (r: bool)
        requires
            self.wf(),
        ensures
            r == turn_fits(self.spec_queries(), self.spec_zob(), self@),
    {
        if self.t >= TURN {
            return false;
        }
        let q = self.queries[self.t];
        proof {
            assert(q[0] < N && q[1] < N && q[2] < N);
        }
        let mut k: usize = 0;
        while k < 3
            invariant
                self.wf(),
                self.t < TURN,
                q == self.queries@[self.t as int],
                q[0] < N && q[1] < N && q[2] < N,
                k <= 3,
                forall|m: int| 0 <= m < k ==> abs_of(self@.x[#[trigger] q[m] as int]) + 2 < TURN,
            decreases 3 - k,
        {
            let v = self.x[q[k]];
            let av: i32 = if v < 0 { -(v as i32) } else { v as i32 };
            if av + 2 >= TURN as i32 {
                return false;
            }
            k = k + 1;
        }
        0 <= self.zeros && self.zeros <= 1000 && 0 <= self.now_score && self.now_score <= 100_000
    }

    /// Whether the last turn can be taken back (`back_fits`).
    pub fn back_fits_now(&self) -> (r: bool)
        requires
            self.wf(),
        ensures
            r == back_fits(self.spec_queries(), self@),
    {
        if self.t < 1 {
            return false;
        }
        let q = self.queries[self.t - 1];
        proof {
            assert(q[0] < N && q[1] < N && q[2] < N);
        }
        let mut k: usize = 0;
        while k < 3
            invariant
                self.wf(),
                1 <= self.t <= TURN,
                q == self.queries@[self.t - 1],
                q[0] < N && q[1] < N && q[2] < N,
                k <= 3,
                forall|m: int| 0 <= m < k ==> abs_of(self@.x[#[trigger] q[m] as int]) + 1 < TURN,
            decreases 3 - k,
        {
            let v = self.x[q[k]];
            let av: i32 = if v < 0 { -(v as i32) } else { v as i32 };
            if av + 1 >= TURN as i32 {
                return false;
            }
            k = k + 1;
        }
        -1_000_000 <= self.zeros && self.zeros <= 1_000_000 && -1_000_000 <= self.now_score && self.now_score <= 1_000_000
    }
}

impl BeamState for ZeroSumSearch {
    type Action = bool;
    type Model = (Seq<Query>, Seq<u64>, ZeroSumView, Seq<bool>);

    open spec fn model(&self) -> (Seq<Query>, Seq<u64>, ZeroSumView, Seq<bool>) {
        (self.game.spec_queries(), self.game.spec_zob(), self.game@, self.played@)
    }

    open spec fn ready(&self) -> bool {
        self.game.wf()
    }

    /// A turn that fits is played and recorded as played; any other is
    /// recorded as skipped.
    open spec fn model_forward(m: (Seq<Query>, Seq<u64>, ZeroSumView, Seq<bool>), act: bool) -> (Seq<Query>, Seq<u64>, ZeroSumView, Seq<bool>) {
        if turn_fits(m.0, m.1, m.2) {
            (m.0, m.1, forward_view(m.0, m.1, m.2, act), m.3.push(true))
        } else {
            (m.0, m.1, m.2, m.3.push(false))
        }
    }

    /// The last turn recorded is taken back where it was played and fits
    /// back; the record shrinks.
    open spec fn model_backward(m: (Seq<Query>, Seq<u64>, ZeroSumView, Seq<bool>), act: bool) -> (Seq<Query>, Seq<u64>, ZeroSumView, Seq<bool>) {
        if m.3.len() == 0 {
            m
        } else if m.3.last() && back_fits(m.0, m.2) {
            (m.0, m.1, backward_view(m.0, m.1, m.2, act), m.3.drop_last())
        } else {
            (m.0, m.1, m.2, m.3.drop_last())
        }
    }

    open spec fn acts_of(m: (Seq<Query>, Seq<u64>, ZeroSumView, Seq<bool>), acts: Vec<bool>) -> bool {
        acts@ == if m.2.t == 0 { seq![true] } else { seq![false, true] }
    }

    /// The search keeps the least score and the game the most zeros, so
    /// the score is negated.
    open spec fn model_score(m: (Seq<Query>, Seq<u64>, ZeroSumView, Seq<bool>)) -> i64 {
        (-m.2.score) as i64
    }

    open spec fn spec_hash(&self) -> u64 {
        self.game@.hash
    }

    proof fn lemma_backward_undoes(m: (Seq<Query>, Seq<u64>, ZeroSumView, Seq<bool>), act: bool) {
        if turn_fits(m.0, m.1, m.2) {
            lemma_forward_fits_back(m.0, m.1, m.2, act);
            lemma_backward_undoes_forward(m.0, m.1, m.2, act);
            assert(m.3.push(true).drop_last() =~= m.3);
        } else {
            assert(m.3.push(false).drop_last() =~= m.3);
        }
    }

    fn forward(&mut self, act: &bool) {
        if self.game.turn_fits_now() {
            self.game.forward(*act);
            self.played.push(true);
        } else {
            self.played.push(false);
        }
    }

    fn backward(&mut self, act: &bool) {
        match self.played.pop() {
            Some(p) => {
                if p && self.game.back_fits_now() {
                    self.game.backward(*act);
                }
            },
            None => {},
        }
    }

    fn next_acts(&self) -> (r: Vec<bool>) {
        self.game.next_acts()
    }

    fn score(&self) -> (r: i64) {
        -(self.game.score() as i64)
    }

    fn hash(&self) -> (r: u64) {
        self.game.hash()
    }
}

} // verus!
