use vstd::prelude::*;
use crate::ds::union_find::{relabel, UnionFind};

verus! {

/// What a case counts when its edges never join the two ends.
pub const UNJOINED: i64 = 1_000_000_000_000_000_000;

/// The longest edge length a case may hold.
pub const MAX_LEN: i64 = 1_000_000_000;

/// The most cases taken.
pub const MAX_CASES: usize = 1000;

/// A simulated future: edges `(length, turn, u, v)` in the order they are
/// tried.
pub type Case = Vec<(i64, usize, usize, usize)>;

/// The groups of the sets of `uf`, labelled by their roots.
pub open spec fn root_labels(uf: &UnionFind) -> Seq<int> {
    Seq::new(uf.spec_len(), |u: int| uf.find(u))
}

/// The length of the first edge of `case` from a turn after `i` that, added
/// in order to the groups `lab` wherever it joins two groups, puts `a` and
/// `b` together; `None` where no edge does.
pub open spec fn join_len(lab: Seq<int>, case: Seq<(i64, usize, usize, usize)>, i: int, a: int, b: int) -> Option<int>
    decreases case.len(),
{
    if case.len() == 0 {
        None
    } else {
        let (d, ei, u, v) = case[0];
        if ei > i && lab[u as int] != lab[v as int] {
            let lab2 = relabel(lab, u as int, v as int);
            if lab2[a] == lab2[b] {
                Some(d as int)
            } else {
                join_len(lab2, case.drop_first(), i, a, b)
            }
        } else {
            join_len(lab, case.drop_first(), i, a, b)
        }
    }
}

/// The running total over the first `c` cases: each case adds the length
/// of its joining edge, and a case that never joins sets the total to
/// `UNJOINED`.
pub open spec fn case_sum(lab: Seq<int>, cases: Seq<Case>, i: int, a: int, b: int, c: int) -> int
    decreases c,
{
    if c <= 0 {
        0
    } else {
        let s = case_sum(lab, cases, i, a, b, c - 1);
        match join_len(lab, cases[c - 1]@, i, a, b) {
            Some(d) => s + d,
            None => UNJOINED as int,
        }
    }
}

/// A joining length, where there is one, is a length a case may hold.
pub open spec fn len_ok(o: Option<int>) -> bool {
    match o {
        Some(d) => 0 <= d <= MAX_LEN,
        None => true,
    }
}

/// Every edge of every case has ends below `n` and a length up to `MAX_LEN`.
pub open spec fn cases_ok(cases: Seq<Case>, n: int) -> bool {
    &&& cases.len() <= MAX_CASES
    &&& forall|c: int, k: int|
        0 <= c < cases.len() && 0 <= k < cases[c]@.len() ==> {
            let (d, ei, u, v) = #[trigger] cases[c]@[k];
            &&& 0 <= d <= MAX_LEN
            &&& u < n
            &&& v < n
        }
}

pub proof fn lemma_case_sum_bound(lab: Seq<int>, cases: Seq<Case>, i: int, a: int, b: int, c: int)
    requires
        cases_ok(cases, lab.len() as int),
        0 <= c <= cases.len(),
        forall|c2: int| 0 <= c2 < cases.len() ==> len_ok(#[trigger] join_len(lab, cases[c2]@, i, a, b)),
    ensures
        0 <= case_sum(lab, cases, i, a, b, c) <= UNJOINED + c * MAX_LEN,
    decreases c,
{
    if c > 0 {
        lemma_case_sum_bound(lab, cases, i, a, b, c - 1);
        let _ = join_len(lab, cases[c - 1]@, i, a, b);
    }
}

/// A joining edge comes from the case.
pub proof fn lemma_join_len_bound(lab: Seq<int>, case: Seq<(i64, usize, usize, usize)>, i: int, a: int, b: int)
    requires
        forall|k: int| 0 <= k < case.len() ==> 0 <= (#[trigger] case[k]).0 <= MAX_LEN,
    ensures
        len_ok(join_len(lab, case, i, a, b)),
    decreases case.len(),
{
    if case.len() > 0 {
        let (d, ei, u, v) = case[0];
        assert forall|k: int| 0 <= k < case.drop_first().len() implies 0 <= (#[trigger] case.drop_first()[k]).0 <= MAX_LEN by {
            assert(case.drop_first()[k] == case[k + 1]);
        }
        if ei > i && lab[u as int] != lab[v as int] {
            lemma_join_len_bound(relabel(lab, u as int, v as int), case.drop_first(), i, a, b);
        } else {
            lemma_join_len_bound(lab, case.drop_first(), i, a, b);
        }
    }
}

/// The length of the edge of `case` that first joins `a` and `b` when the
/// case's later edges join the sets of `uf` in order, or `None`.
fn case_join(uf: &UnionFind, case: &Case, i: usize, a: usize, b: usize) -> (r: Option<i64>)
    requires
        uf.wf(),
        a < uf.spec_len(),
        b < uf.spec_len(),
        !uf.same(a as int, b as int),
        forall|k: int| 0 <= k < case@.len() ==> (#[trigger] case@[k]).2 < uf.spec_len() && case@[k].3 < uf.spec_len(),
    ensures
        r matches Some(d) ==> join_len(root_labels(uf), case@, i as int, a as int, b as int) == Some(d as int),
        r is None ==> join_len(root_labels(uf), case@, i as int, a as int, b as int) is None,
{
    let ghost n = uf.spec_len();
    let mut uf2 = uf.copy();
    let ghost mut lab = root_labels(uf);
    assert(case@.subrange(0, case@.len() as int) =~= case@);
    let mut k: usize = 0;
    while k < case.len()
        invariant
            uf2.wf(),
            uf2.spec_len() == n,
            n == uf.spec_len(),
            a < n,
            b < n,
            forall|k2: int| 0 <= k2 < case@.len() ==> (#[trigger] case@[k2]).2 < n && case@[k2].3 < n,
            k <= case@.len(),
            lab.len() == n,
            forall|x: int, y: int| 0 <= x < n && 0 <= y < n ==> (#[trigger] uf2.find(x) == #[trigger] uf2.find(y) <==> lab[x] == lab[y]),
            lab[a as int] != lab[b as int],
            join_len(root_labels(uf), case@, i as int, a as int, b as int) == join_len(lab, case@.subrange(k as int, case@.len() as int), i as int, a as int, b as int),
        decreases case@.len() - k,
    {
        let (d, ei, u, v) = case[k];
        let ghost rest = case@.subrange(k as int, case@.len() as int);
        assert(rest[0] == (d, ei, u, v));
        assert(rest.drop_first() =~= case@.subrange(k + 1, case@.len() as int));
        if ei > i {
            let ghost uf0 = uf2;
            let res = uf2.unite(u, v);
            if res.is_some() {
                proof {
                    let lab2 = relabel(lab, u as int, v as int);
                    assert forall|x: int, y: int| 0 <= x < n && 0 <= y < n implies (#[trigger] uf2.find(x) == #[trigger] uf2.find(y) <==> lab2[x] == lab2[y]) by {
                        assert(uf0.find(x) == uf0.find(u as int) <==> lab[x] == lab[u as int]);
                        assert(uf0.find(x) == uf0.find(v as int) <==> lab[x] == lab[v as int]);
                        assert(uf0.find(y) == uf0.find(u as int) <==> lab[y] == lab[u as int]);
                        assert(uf0.find(y) == uf0.find(v as int) <==> lab[y] == lab[v as int]);
                        assert(uf0.find(x) == uf0.find(y) <==> lab[x] == lab[y]);
                    }
                    lab = lab2;
                }
                let ra = uf2.root(a);
                let rb = uf2.root(b);
                if ra == rb {
                    return Some(d);
                }
            }
        }
        k = k + 1;
    }
    assert(case@.subrange(k as int, case@.len() as int).len() == 0);
    None
}

/// Whether to take edge `i` between `es[i].0` and `es[i].1`, offered at
/// length `l`: where its ends are apart, each case tells the length of the
/// first of its later edges that would join them (taken in order, each
/// where it joins two groups), and the edge is taken where those lengths
/// add up to at least `l` times the number of cases.
pub fn take_edge(uf: &UnionFind, es: &Vec<(usize, usize)>, cases: &Vec<Case>, i: usize, l: i64) -> (r: bool)
    requires
        uf.wf(),
        i < es@.len(),
        es@[i as int].0 < uf.spec_len(),
        es@[i as int].1 < uf.spec_len(),
        cases_ok(cases@, uf.spec_len() as int),
        0 <= l <= MAX_LEN,
    ensures
        r == (!uf.same(es@[i as int].0 as int, es@[i as int].1 as int) && case_sum(
            root_labels(uf),
            cases@,
            i as int,
            es@[i as int].0 as int,
            es@[i as int].1 as int,
            cases@.len() as int,
        ) >= l * cases@.len()),
{
    let (a, b) = es[i];
    let mut copy = uf.copy();
    let ra = copy.root(a);
    let rb = copy.root(b);
    if ra == rb {
        return false;
    }
    let ghost lab = root_labels(uf);
    let mut sum: i64 = 0;
    let mut c: usize = 0;
    proof {
        assert forall|c2: int| 0 <= c2 < cases@.len() implies len_ok(#[trigger] join_len(lab, cases@[c2]@, i as int, a as int, b as int)) by {
            assert forall|k: int| 0 <= k < cases@[c2]@.len() implies 0 <= (#[trigger] cases@[c2]@[k]).0 <= MAX_LEN by {
                let _ = cases@[c2]@[k];
            }
            lemma_join_len_bound(lab, cases@[c2]@, i as int, a as int, b as int);
        }
    }
    while c < cases.len()
        invariant
            uf.wf(),
            lab == root_labels(uf),
            !uf.same(a as int, b as int),
            a < uf.spec_len(),
            b < uf.spec_len(),
            cases_ok(cases@, uf.spec_len() as int),
            forall|c2: int| 0 <= c2 < cases@.len() ==> len_ok(#[trigger] join_len(lab, cases@[c2]@, i as int, a as int, b as int)),
            c <= cases@.len(),
            sum == case_sum(lab, cases@, i as int, a as int, b as int, c as int),
        decreases cases@.len() - c,
    {
        proof {
            lemma_case_sum_bound(lab, cases@, i as int, a as int, b as int, c as int);
            assert(c * MAX_LEN <= 1000 * MAX_LEN) by (nonlinear_arith)
                requires
                    c <= 1000,
            ;
            assert forall|k: int| 0 <= k < cases@[c as int]@.len() implies (#[trigger] cases@[c as int]@[k]).2 < uf.spec_len() && cases@[c as int]@[k].3 < uf.spec_len() by {
                let _ = cases@[c as int]@[k];
            }
        }
        match case_join(uf, &cases[c], i, a, b) {
            Some(d) => {
                sum = sum + d;
            },
            None => {
                sum = UNJOINED;
            },
        }
        c = c + 1;
    }
    let n = cases.len() as i64;
    proof {
        assert(l * cases@.len() <= MAX_LEN * 1000) by (nonlinear_arith)
            requires
                0 <= l <= MAX_LEN,
                cases@.len() <= 1000,
        ;
        assert(0 <= l * cases@.len()) by (nonlinear_arith)
            requires
                0 <= l,
        ;
    }
    sum >= l * n
}

} // verus!
