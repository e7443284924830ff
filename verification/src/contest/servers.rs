use vstd::prelude::*;

verus! {

/// The distance of cell `(i, j)` from the centre `(c, c)`, by rows and columns.
pub open spec fn centre_dist(i: int, j: int, c: int) -> int {
    (if i < c { c - i } else { i - c }) + (if j < c { c - j } else { j - c })
}

/// `(d, v)` comes before `(d2, v2)`: nearer, then the smaller index.
pub open spec fn pair_lt(d: int, v: int, d2: int, v2: int) -> bool {
    d < d2 || (d == d2 && v < v2)
}

/// The cell holding `kind` nearest the centre of the `n` by `n` board `c`,
/// the smallest index on a tie; `usize::MAX` where no cell holds it.
pub fn get_start(n: usize, c: &Vec<u8>, kind: u8) -> (r: usize)
    requires
        c@.len() == n * n,
    ensures
        r == usize::MAX <==> forall|v: int| 0 <= v < n * n ==> c@[v] != kind,
        r != usize::MAX ==> {
            &&& r < n * n
            &&& c@[r as int] == kind
            &&& forall|i: int, j: int|
                0 <= i < n && 0 <= j < n && #[trigger] c@[i * n + j] == kind ==> !pair_lt(
                    centre_dist(i, j, n as int / 2),
                    i * n + j,
                    centre_dist(r as int / n as int, r as int % n as int, n as int / 2),
                    r as int,
                )
        },
{
    let mut best: (usize, usize) = (usize::MAX, usize::MAX);
    let mut i: usize = 0;
    let cells: usize = c.len();
    assert(cells == n * n);
    assert(n <= n * n) by (nonlinear_arith);
    while i < n
        invariant
            c@.len() == n * n,
            n * n <= usize::MAX,
            n <= n * n,
            i <= n,
            best.1 == usize::MAX ==> best.0 == usize::MAX && forall|i2: int, j2: int| 0 <= i2 < i && 0 <= j2 < n ==> #[trigger] c@[i2 * n + j2] != kind,
            best.1 != usize::MAX ==> {
                &&& best.1 < n * n
                &&& c@[best.1 as int] == kind
                &&& best.0 == centre_dist(best.1 as int / n as int, best.1 as int % n as int, n as int / 2)
                &&& forall|i2: int, j2: int|
                    0 <= i2 < i && 0 <= j2 < n && #[trigger] c@[i2 * n + j2] == kind ==> !pair_lt(
                        centre_dist(i2, j2, n as int / 2),
                        i2 * n + j2,
                        best.0 as int,
                        best.1 as int,
                    )
            },
        decreases n - i,
    {
        let mut j: usize = 0;
        while j < n
            invariant
                c@.len() == n * n,
                n * n <= usize::MAX,
                n <= n * n,
                i < n,
                j <= n,
                best.1 == usize::MAX ==> best.0 == usize::MAX && forall|i2: int, j2: int| ((0 <= i2 < i && 0 <= j2 < n) || (i2 == i && 0 <= j2 < j)) ==> #[trigger] c@[i2 * n + j2] != kind,
                best.1 != usize::MAX ==> {
                    &&& best.1 < n * n
                    &&& c@[best.1 as int] == kind
                    &&& best.0 == centre_dist(best.1 as int / n as int, best.1 as int % n as int, n as int / 2)
                    &&& forall|i2: int, j2: int|
                        ((0 <= i2 < i && 0 <= j2 < n) || (i2 == i && 0 <= j2 < j)) && #[trigger] c@[i2 * n + j2] == kind ==> !pair_lt(
                            centre_dist(i2, j2, n as int / 2),
                            i2 * n + j2,
                            best.0 as int,
                            best.1 as int,
                        )
                },
            decreases n - j,
        {
            assert(i * n + j < n * n) by (nonlinear_arith)
                requires
                    i < n,
                    j < n,
            ;
            let v = i * n + j;
            assert(v < n * n && v / n == i && v % n == j) by (nonlinear_arith)
                requires
                    v == i * n + j,
                    i < n,
                    j < n,
            ;
            if c[v] == kind {
                let h = n / 2;
                let d = (if i < h { h - i } else { i - h }) + (if j < h { h - j } else { j - h });
                if d < best.0 || (d == best.0 && v < best.1) {
                    best = (d, v);
                }
            }
            j = j + 1;
        }
        i = i + 1;
    }
    proof {
        if best.1 == usize::MAX {
            assert forall|v: int| 0 <= v < n * n implies c@[v] != kind by {
                let i2 = v / n as int;
                let j2 = v % n as int;
                assert(v == i2 * n + j2 && 0 <= i2 < n && 0 <= j2 < n) by (nonlinear_arith)
                    requires
                        i2 == v / n as int,
                        j2 == v % n as int,
                        0 <= v < n * n,
                        n > 0,
                ;
            }
        } else {
            assert(c@[best.1 as int] == kind);
        }
    }
    best.1
}

} // verus!
