use vstd::prelude::*;
use vstd::set_lib::{set_int_range, lemma_int_range, lemma_len_subset, lemma_set_disjoint_lens};

verus! {

/// The root reached from `v` by following parent links upward. `rank`
/// strictly rises along each link and stays within `bound`, which is what
/// makes the walk end.
pub open spec fn find_root(par: Seq<usize>, rank: Seq<nat>, bound: nat, v: int) -> int
    decreases bound - (if 0 <= v < rank.len() { rank[v] as int } else { 0 }),
{
    if 0 <= v < par.len() && v < rank.len() {
        let p = par[v] as int;
        if p != v && 0 <= p < rank.len() && rank[v] < rank[p] && rank[p] <= bound {
            find_root(par, rank, bound, p)
        } else {
            v
        }
    } else {
        v
    }
}

/// Parent links stay inside, and rank rises strictly along every link.
pub open spec fn links_ok(par: Seq<usize>, rank: Seq<nat>, bound: nat) -> bool {
    &&& par.len() == rank.len()
    &&& forall|v: int| 0 <= v < par.len() ==> (#[trigger] par[v]) < par.len()
    &&& forall|v: int| 0 <= v < par.len() && par[v] != v ==> rank[v] < rank[#[trigger] par[v] as int]
    &&& forall|v: int| 0 <= v < par.len() ==> #[trigger] rank[v] <= bound
}

/// The elements whose root is `r`.
pub open spec fn members(par: Seq<usize>, rank: Seq<nat>, bound: nat, r: int) -> Set<int> {
    Set::new(|v: int| 0 <= v < par.len() && find_root(par, rank, bound, v) == r)
}

/// The root of `v` is a root, is reached from `v`'s parent too, and outranks `v`.
pub proof fn lemma_find_root(par: Seq<usize>, rank: Seq<nat>, bound: nat, v: int)
    requires
        links_ok(par, rank, bound),
        0 <= v < par.len(),
    ensures
        0 <= find_root(par, rank, bound, v) < par.len(),
        par[find_root(par, rank, bound, v)] == find_root(par, rank, bound, v),
        find_root(par, rank, bound, v) != v ==> rank[v] < rank[find_root(par, rank, bound, v)],
        find_root(par, rank, bound, par[v] as int) == find_root(par, rank, bound, v),
        par[v] == v ==> find_root(par, rank, bound, v) == v,
    decreases bound - rank[v],
{
    let p = par[v] as int;
    if p != v {
        assert(rank[v] < rank[p]);
        lemma_find_root(par, rank, bound, p);
    }
}

/// Pointing `v` straight at its root changes no element's root.
pub proof fn lemma_compress(par: Seq<usize>, rank: Seq<nat>, bound: nat, v: int, u: int)
    requires
        links_ok(par, rank, bound),
        0 <= v < par.len(),
        0 <= u < par.len(),
    ensures
        links_ok(par.update(v, find_root(par, rank, bound, v) as usize), rank, bound),
        find_root(par.update(v, find_root(par, rank, bound, v) as usize), rank, bound, u) == find_root(
            par,
            rank,
            bound,
            u,
        ),
    decreases bound - rank[u],
{
    let r = find_root(par, rank, bound, v);
    lemma_find_root(par, rank, bound, v);
    let np = par.update(v, r as usize);
    assert(links_ok(np, rank, bound));
    lemma_find_root(par, rank, bound, u);
    if u == v {
        if r != v {
            lemma_find_root(np, rank, bound, r);
            assert(np[r] == r);
        }
    } else if par[u] as int != u {
        lemma_compress(par, rank, bound, v, par[u] as int);
    }
}

/// Linking root `x` under root `y` sends the members of `x` to `y`.
pub proof fn lemma_link(par: Seq<usize>, rank: Seq<nat>, bound: nat, x: int, y: int, u: int)
    requires
        links_ok(par, rank, bound),
        0 <= x < par.len(),
        0 <= y < par.len(),
        x != y,
        par[x] == x,
        par[y] == y,
        0 <= u < par.len(),
    ensures
        ({
            let nr = rank.update(y, if rank[y] > rank[x] { rank[y] } else { rank[x] + 1 });
            let nb = if bound >= nr[y] { bound } else { nr[y] };
            &&& links_ok(par.update(x, y as usize), nr, nb)
            &&& find_root(par.update(x, y as usize), nr, nb, u) == if find_root(par, rank, bound, u) == x {
                y
            } else {
                find_root(par, rank, bound, u)
            }
        }),
    decreases bound - rank[u],
{
    let nr = rank.update(y, if rank[y] > rank[x] { rank[y] } else { rank[x] + 1 });
    let nb = if bound >= nr[y] { bound } else { nr[y] };
    let np = par.update(x, y as usize);
    assert(links_ok(np, nr, nb)) by {
        assert forall|v: int| 0 <= v < np.len() && np[v] != v implies nr[v] < nr[#[trigger] np[v] as int] by {
            if v != x {
                assert(par[v] != v);
                assert(rank[v] < rank[par[v] as int]);
            }
        }
    }
    lemma_find_root(par, rank, bound, u);
    if u == x {
        lemma_find_root(np, nr, nb, y);
    } else if par[u] as int == u {
    } else {
        lemma_link(par, rank, bound, x, y, par[u] as int);
    }
}

/// Disjoint sets over `0..n`, merged by size.
pub struct UnionFind {
    par: Vec<usize>,
    sz: Vec<usize>,
    rank: Ghost<Seq<nat>>,
    bound: Ghost<nat>,
}

impl UnionFind {
    /// The number of elements.
    pub closed spec fn spec_len(&self) -> nat {
        self.par@.len()
    }

    /// The root of the set holding `v`.
    pub closed spec fn find(&self, v: int) -> int {
        find_root(self.par@, self.rank@, self.bound@, v)
    }

    /// The links are sound and every root records the size of its set.
    pub closed spec fn wf(&self) -> bool {
        &&& links_ok(self.par@, self.rank@, self.bound@)
        &&& self.sz@.len() == self.par@.len()
        &&& forall|r: int|
            0 <= r < self.par@.len() && self.par@[r] == r ==> #[trigger] self.sz@[r] as int == members(
                self.par@,
                self.rank@,
                self.bound@,
                r,
            ).len()
    }

    /// How far `v` may still climb: what makes `root` end.
    pub closed spec fn height(&self, v: int) -> int {
        self.bound@ - self.rank@[v]
    }

    /// The root of a root is that root: `find` of what `find` gives is the
    /// same again.
    pub proof fn lemma_find_idempotent(&self, v: int)
        requires
            self.wf(),
            0 <= v < self.spec_len(),
        ensures
            0 <= self.find(v) < self.spec_len(),
            self.find(self.find(v)) == self.find(v),
    {
        lemma_find_root(self.par@, self.rank@, self.bound@, v);
        lemma_find_root(self.par@, self.rank@, self.bound@, self.find(v));
    }

    /// Whether `a` and `b` are in the same set.
    pub open spec fn same(&self, a: int, b: int) -> bool {
        self.find(a) == self.find(b)
    }

    /// Puts every element back alone in its own set.
    pub fn clear(&mut self)
        ensures
            final(self).wf(),
            final(self).spec_len() == old(self).spec_len(),
            forall|v: int| 0 <= v < old(self).spec_len() ==> #[trigger] final(self).find(v) == v,
    {
        let n = self.par.len();
        *self = UnionFind::new(n);
    }

    /// Every element alone in its own set.
    pub fn new(n: usize) -> (r: Self)
        ensures
            r.wf(),
            r.spec_len() == n,
            forall|v: int| 0 <= v < n ==> #[trigger] r.find(v) == v,
    {
        let mut par: Vec<usize> = Vec::new();
        let mut sz: Vec<usize> = Vec::new();
        let mut i: usize = 0;
        while i < n
            invariant
                i <= n,
                par@.len() == i,
                sz@.len() == i,
                forall|v: int| 0 <= v < i ==> #[trigger] par@[v] == v && sz@[v] == 1,
            decreases n - i,
        {
            par.push(i);
            sz.push(1);
            i = i + 1;
        }
        let ghost rank = Seq::new(n as nat, |v: int| 0nat);
        let r = UnionFind { par, sz, rank: Ghost(rank), bound: Ghost(0nat) };
        assert forall|v: int| 0 <= v < n implies #[trigger] r.find(v) == v by {
            assert(r.par@[v] == v);
        }
        assert forall|x: int|
            0 <= x < r.par@.len() && r.par@[x] == x implies #[trigger] r.sz@[x] as int == members(
                r.par@,
                r.rank@,
                r.bound@,
                x,
            ).len() by {
            let m = members(r.par@, r.rank@, r.bound@, x);
            assert forall|v: int| #[trigger] m.contains(v) <==> v == x by {
                if m.contains(v) {
                    assert(r.par@[v] == v);
                }
                if v == x {
                    assert(r.par@[v] == v);
                }
            }
            assert(m =~= Set::empty().insert(x));
        }
        r
    }

    /// The root of the set holding `v`; shortens the path from `v` on the way.
    pub fn root(&mut self, v: usize) -> (r: usize)
        requires
            old(self).wf(),
            v < old(self).spec_len(),
        ensures
            final(self).wf(),
            final(self).spec_len() == old(self).spec_len(),
            r == old(self).find(v as int),
            forall|u: int| 0 <= u < old(self).spec_len() ==> #[trigger] final(self).find(u) == old(self).find(u),
            r < old(self).spec_len(),
            old(self).find(r as int) == r,
            final(self).find(r as int) == r,
        decreases old(self).height(v as int),
    {
        proof {
            lemma_find_root(self.par@, self.rank@, self.bound@, v as int);
            let r0 = find_root(self.par@, self.rank@, self.bound@, v as int);
            lemma_find_root(self.par@, self.rank@, self.bound@, r0);
        }
        let p = self.par[v];
        if p == v {
            v
        } else {
            proof {
                assert(self.rank@[v as int] < self.rank@[p as int]);
            }
            let r = self.root(p);
            proof {
                lemma_find_root(old(self).par@, old(self).rank@, old(self).bound@, v as int);
                lemma_find_root(self.par@, self.rank@, self.bound@, v as int);
                assert(self.find(v as int) == r);
            }
            let ghost before = *self;
            self.par.set(v, r);
            proof {
                assert forall|u: int| 0 <= u < self.spec_len() implies #[trigger] self.find(u) == before.find(u) by {
                    lemma_compress(before.par@, before.rank@, before.bound@, v as int, u);
                }
                lemma_compress(before.par@, before.rank@, before.bound@, v as int, 0);
                assert forall|x: int|
                    0 <= x < self.par@.len() && self.par@[x] == x implies #[trigger] self.sz@[x] as int == members(
                        self.par@,
                        self.rank@,
                        self.bound@,
                        x,
                    ).len() by {
                    assert(x != v);
                    assert(before.par@[x] == x);
                    assert(before.sz@[x] as int == members(before.par@, before.rank@, before.bound@, x).len());
                    assert forall|w: int| 0 <= w < self.par@.len() implies #[trigger] find_root(self.par@, self.rank@, self.bound@, w)
                        == find_root(before.par@, before.rank@, before.bound@, w) by {
                        lemma_compress(before.par@, before.rank@, before.bound@, v as int, w);
                    }
                    assert(members(self.par@, self.rank@, self.bound@, x) =~= members(
                        before.par@,
                        before.rank@,
                        before.bound@,
                        x,
                    ));
                }
            }
            r
        }
    }

    /// A copy with the same sets.
    pub fn copy(&self) -> (r: Self)
        requires
            self.wf(),
        ensures
            r.wf(),
            r.spec_len() == self.spec_len(),
            forall|u: int| 0 <= u < self.spec_len() ==> #[trigger] r.find(u) == self.find(u),
    {
        let mut par: Vec<usize> = Vec::new();
        let mut sz: Vec<usize> = Vec::new();
        let mut i: usize = 0;
        while i < self.par.len()
            invariant
                self.sz@.len() == self.par@.len(),
                i <= self.par@.len(),
                par@ == self.par@.subrange(0, i as int),
                sz@ == self.sz@.subrange(0, i as int),
            decreases self.par@.len() - i,
        {
            par.push(self.par[i]);
            sz.push(self.sz[i]);
            i = i + 1;
        }
        assert(par@ =~= self.par@);
        assert(sz@ =~= self.sz@);
        UnionFind { par, sz, rank: Ghost(self.rank@), bound: Ghost(self.bound@) }
    }

    /// The number of elements in the set whose root is `r`.
    pub closed spec fn set_size(&self, r: int) -> nat {
        members(self.par@, self.rank@, self.bound@, r).len()
    }

    /// Hangs root `x` under root `y`.
    fn link(&mut self, x: usize, y: usize)
        requires
            old(self).wf(),
            x < old(self).spec_len(),
            y < old(self).spec_len(),
            x != y,
            old(self).find(x as int) == x,
            old(self).find(y as int) == y,
        ensures
            final(self).wf(),
            final(self).spec_len() == old(self).spec_len(),
            forall|u: int|
                0 <= u < old(self).spec_len() ==> #[trigger] final(self).find(u) == if old(self).find(u) == x {
                    y as int
                } else {
                    old(self).find(u)
                },
    {
        let ghost par0 = self.par@;
        let ghost rank0 = self.rank@;
        let ghost bound0 = self.bound@;
        let ghost n = par0.len();
        let ghost mx = members(par0, rank0, bound0, x as int);
        let ghost my = members(par0, rank0, bound0, y as int);
        proof {
            lemma_find_root(par0, rank0, bound0, x as int);
            lemma_find_root(par0, rank0, bound0, y as int);
            assert(par0[x as int] == x);
            assert(par0[y as int] == y);
            lemma_int_range(0, n as int);
            assert(mx.union(my).subset_of(set_int_range(0, n as int)));
            lemma_len_subset(mx.union(my), set_int_range(0, n as int));
            lemma_len_subset(mx, set_int_range(0, n as int));
            lemma_len_subset(my, set_int_range(0, n as int));
            assert(mx.disjoint(my));
            lemma_set_disjoint_lens(mx, my);
            assert(self.sz@[x as int] + self.sz@[y as int] <= n);
        }
        let total = self.par.len();
        assert(self.sz@[x as int] + self.sz@[y as int] <= total);
        let nsz = self.sz[y] + self.sz[x];
        self.par.set(x, y);
        self.sz.set(y, nsz);
        let ghost nr = rank0.update(y as int, if rank0[y as int] > rank0[x as int] { rank0[y as int] } else { rank0[x as int] + 1 });
        let ghost nb = if bound0 >= nr[y as int] { bound0 } else { nr[y as int] };
        self.rank = Ghost(nr);
        self.bound = Ghost(nb);
        proof {
            assert forall|u: int| 0 <= u < n implies #[trigger] find_root(self.par@, self.rank@, self.bound@, u)
                == if find_root(par0, rank0, bound0, u) == x { y as int } else { find_root(par0, rank0, bound0, u) } by {
                lemma_link(par0, rank0, bound0, x as int, y as int, u);
            }
            lemma_link(par0, rank0, bound0, x as int, y as int, 0);
            assert forall|u: int| 0 <= u < n implies #[trigger] self.find(u) == if old(self).find(u) == x {
                y as int
            } else {
                old(self).find(u)
            } by {
                assert(find_root(self.par@, self.rank@, self.bound@, u)
                    == if find_root(par0, rank0, bound0, u) == x { y as int } else { find_root(par0, rank0, bound0, u) });
            }
            assert forall|r: int|
                0 <= r < self.par@.len() && self.par@[r] == r implies #[trigger] self.sz@[r] as int == members(
                    self.par@,
                    self.rank@,
                    self.bound@,
                    r,
                ).len() by {
                let m = members(self.par@, self.rank@, self.bound@, r);
                assert(r != x);
                assert(par0[r] == r);
                assert(old(self).sz@[r] as int == members(par0, rank0, bound0, r).len());
                if r == y as int {
                    assert(m =~= mx.union(my));
                } else {
                    assert(m =~= members(par0, rank0, bound0, r));
                }
            }
        }
    }

    /// Merges the sets of `a` and `b`, the smaller under the larger (under
    /// `a`'s root on a tie). Returns the surviving root and the root hung under
    /// it, or `None` when `a` and `b` were already together.
    pub fn unite(&mut self, a: usize, b: usize) -> (res: Option<(usize, usize)>)
        requires
            old(self).wf(),
            a < old(self).spec_len(),
            b < old(self).spec_len(),
        ensures
            final(self).wf(),
            final(self).spec_len() == old(self).spec_len(),
            old(self).same(a as int, b as int) ==> res is None && forall|u: int|
                0 <= u < old(self).spec_len() ==> #[trigger] final(self).find(u) == old(self).find(u),
            !old(self).same(a as int, b as int) ==> (res matches Some((y, x)) && {
                let ra = old(self).find(a as int);
                let rb = old(self).find(b as int);
                &&& if old(self).set_size(ra) < old(self).set_size(rb) {
                    y == rb && x == ra
                } else {
                    y == ra && x == rb
                }
                &&& forall|u: int|
                    0 <= u < old(self).spec_len() ==> #[trigger] final(self).find(u) == if old(self).find(u) == x {
                        y as int
                    } else {
                        old(self).find(u)
                    }
            }),
    {
        let ra = self.root(a);
        let ghost mid = *self;
        let rb = self.root(b);
        proof {
            assert forall|w: int| 0 <= w < self.spec_len() implies #[trigger] find_root(self.par@, self.rank@, self.bound@, w)
                == find_root(old(self).par@, old(self).rank@, old(self).bound@, w) by {
                assert(self.find(w) == mid.find(w));
                assert(mid.find(w) == old(self).find(w));
            }
            lemma_find_root(old(self).par@, old(self).rank@, old(self).bound@, a as int);
            lemma_find_root(old(self).par@, old(self).rank@, old(self).bound@, b as int);
            lemma_find_root(self.par@, self.rank@, self.bound@, ra as int);
            lemma_find_root(self.par@, self.rank@, self.bound@, rb as int);
            assert(self.find(ra as int) == ra);
            assert(self.find(rb as int) == rb);
            assert(self.sz@[ra as int] as int == self.set_size(ra as int));
            assert(self.sz@[rb as int] as int == self.set_size(rb as int));
            assert(members(self.par@, self.rank@, self.bound@, ra as int) =~= members(old(self).par@, old(self).rank@, old(self).bound@, ra as int));
            assert(members(self.par@, self.rank@, self.bound@, rb as int) =~= members(old(self).par@, old(self).rank@, old(self).bound@, rb as int));
        }
        if ra == rb {
            return None;
        }
        if self.sz[ra] < self.sz[rb] {
            self.link(ra, rb);
            Some((rb, ra))
        } else {
            self.link(rb, ra);
            Some((ra, rb))
        }
    }
}

/// The labels after joining the groups of `a` and `b`: `b`'s group takes
/// `a`'s label.
pub open spec fn relabel(lab: Seq<int>, a: int, b: int) -> Seq<int> {
    if lab[a] == lab[b] {
        lab
    } else {
        Seq::new(lab.len(), |u: int| if lab[u] == lab[b] { lab[a] } else { lab[u] })
    }
}

/// The group labels of `n` cells after joining along the pairs `es` in order.
pub open spec fn grouped(n: int, es: Seq<(int, int)>) -> Seq<int>
    decreases es.len(),
{
    if es.len() == 0 {
        Seq::new(n as nat, |u: int| u)
    } else {
        let lab = grouped(n, es.drop_last());
        relabel(lab, es.last().0, es.last().1)
    }
}

/// The number of groups: the distinct labels.
pub open spec fn group_count(lab: Seq<int>) -> nat {
    lab.to_set().len()
}

pub proof fn lemma_identity_groups(n: int)
    requires
        n >= 0,
    ensures
        group_count(Seq::new(n as nat, |u: int| u)) == n,
    decreases n,
{
    broadcast use vstd::set::group_set_axioms, vstd::seq_lib::seq_to_set_is_finite;
    if n > 0 {
        let s = Seq::new(n as nat, |u: int| u);
        let t = Seq::new((n - 1) as nat, |u: int| u);
        lemma_identity_groups(n - 1);
        assert(s.to_set() =~= t.to_set().insert(n - 1)) by {
            assert forall|x: int| s.to_set().contains(x) <==> t.to_set().insert(n - 1).contains(x) by {
                if s.to_set().contains(x) {
                    let k = choose|k: int| 0 <= k < s.len() && s[k] == x;
                    if k < n - 1 {
                        assert(t[k] == x);
                    }
                }
                if t.to_set().contains(x) {
                    let k = choose|k: int| 0 <= k < t.len() && t[k] == x;
                    assert(s[k] == x);
                }
                if x == n - 1 {
                    assert(s[n - 1] == x);
                }
            }
        }
        assert(!t.to_set().contains(n - 1));
        assert(t.to_set().finite());
        assert(t.to_set().insert(n - 1).len() == t.to_set().len() + 1);
    } else {
        assert(Seq::new(n as nat, |u: int| u).to_set() =~= Set::<int>::empty());
    }
}

pub proof fn lemma_relabel_count(lab: Seq<int>, a: int, b: int)
    requires
        0 <= a < lab.len(),
        0 <= b < lab.len(),
        lab[a] != lab[b],
    ensures
        group_count(relabel(lab, a, b)) == group_count(lab) - 1,
{
    broadcast use vstd::set::group_set_axioms, vstd::seq_lib::seq_to_set_is_finite;
    let r = relabel(lab, a, b);
    assert(r.to_set() =~= lab.to_set().remove(lab[b])) by {
        assert forall|x: int| r.to_set().contains(x) <==> lab.to_set().remove(lab[b]).contains(x) by {
            if r.to_set().contains(x) {
                let k = choose|k: int| 0 <= k < r.len() && r[k] == x;
                if lab[k] == lab[b] {
                    assert(lab[a] == x);
                } else {
                    assert(lab[k] == x);
                }
            }
            if lab.to_set().remove(lab[b]).contains(x) {
                let k = choose|k: int| 0 <= k < lab.len() && lab[k] == x;
                assert(r[k] == x);
            }
        }
    }
    assert(lab.to_set().contains(lab[b])) by {
        assert(lab[b] == lab[b]);
    }
}

} // verus!
