use vstd::prelude::*;
use crate::random::pcg::gen_index;

verus! {

/// A store of backtracking entries, from which one is picked.
pub trait Tracker: Sized {
    type T;

    /// The entries held, in the order they are picked from.
    spec fn items(&self) -> Seq<Self::T>;

    /// A store with no entry.
    fn empty() -> (r: Self)
        ensures
            r.items() == Seq::<Self::T>::empty(),
    ;

    /// Drops every entry.
    fn clear(&mut self)
        ensures
            final(self).items() == Seq::<Self::T>::empty(),
    ;

    /// Records the entry `t`.
    fn push(&mut self, t: Self::T)
        ensures
            final(self).items().len() > 0,
            final(self).items().last() == t,
            forall|i: int|
                0 <= i < final(self).items().len() ==> #[trigger] final(self).items()[i] == t || old(
                    self,
                ).items().contains(final(self).items()[i]),
    ;

    /// The first entry, if any.
    fn pick(&self) -> (r: Option<&Self::T>)
        ensures
            self.items().len() == 0 ==> r is None,
            self.items().len() > 0 ==> r == Some(&self.items()[0]),
    ;

    /// One of the entries, drawn with `rng`, if any.
    fn random_pick(&self, rng: &mut rand_pcg::Mcg128Xsl64) -> (r: Option<&Self::T>)
        ensures
            self.items().len() == 0 <==> r is None,
            r matches Some(x) ==> self.items().contains(*x),
    ;
}

/// Keeps the last entry pushed.
pub struct OneTracker<T>(Option<T>);

impl<T> Tracker for OneTracker<T> {
    type T = T;

    closed spec fn items(&self) -> Seq<T> {
        match self.0 {
            Some(t) => seq![t],
            None => Seq::empty(),
        }
    }

    fn empty() -> (r: Self) {
        Self(None)
    }

    fn clear(&mut self) {
        self.0 = None;
    }

    fn push(&mut self, t: T)
        ensures
            final(self).items() == seq![t],
    {
        self.0 = Some(t);
    }

    fn pick(&self) -> (r: Option<&T>) {
        self.0.as_ref()
    }

    fn random_pick(&self, _rng: &mut rand_pcg::Mcg128Xsl64) -> (r: Option<&T>)
        ensures
            self.items().len() > 0 ==> r == Some(&self.items()[0]),
    {
        let r = self.0.as_ref();
        proof {
            if self.0 is Some {
                assert(self.items()[0] == self.0->0);
            }
        }
        r
    }
}

/// Keeps every entry pushed, in order.
pub struct MultiTracker<T>(Vec<T>);

impl<T> Tracker for MultiTracker<T> {
    type T = T;

    closed spec fn items(&self) -> Seq<T> {
        self.0@
    }

    fn empty() -> (r: Self) {
        Self(Vec::new())
    }

    fn clear(&mut self) {
        self.0.clear();
    }

    fn push(&mut self, t: T)
        ensures
            final(self).items() == old(self).items().push(t),
    {
        self.0.push(t);
    }

    fn pick(&self) -> (r: Option<&T>) {
        if self.0.len() > 0 {
            Some(&self.0[0])
        } else {
            None
        }
    }

    fn random_pick(&self, rng: &mut rand_pcg::Mcg128Xsl64) -> (r: Option<&T>) {
        if self.0.len() > 0 {
            let i = gen_index(rng, 0, self.0.len());
            assert(self.items()[i as int] == self.0@[i as int]);
            Some(&self.0[i])
        } else {
            None
        }
    }
}

} // verus!

verus! {

/// Backtracking records over vertices `0..n`: each vertex keeps the edges
/// `(predecessor, label)` that reached it.
#[verifier::reject_recursive_types(T)]
pub struct Tracking<T, Tr: Tracker<T = (usize, T)>> {
    trs: Vec<Tr>,
}

impl<T, Tr: Tracker<T = (usize, T)>> Tracking<T, Tr> {
    /// The number of vertices.
    pub closed spec fn spec_len(&self) -> nat {
        self.trs@.len()
    }

    /// The edges recorded for vertex `v`.
    pub closed spec fn edges(&self, v: int) -> Seq<(usize, T)> {
        self.trs@[v].items()
    }

    /// Every recorded predecessor is a vertex.
    pub open spec fn wf(&self) -> bool {
        forall|v: int, i: int|
            0 <= v < self.spec_len() && 0 <= i < self.edges(v).len() ==> #[trigger] self.edges(v)[i].0
                < self.spec_len()
    }

    /// The predecessor that `pick` gives at `v`, if any.
    pub open spec fn first_pred(&self, v: usize) -> Option<usize> {
        if self.edges(v as int).len() > 0 {
            Some(self.edges(v as int)[0].0)
        } else {
            None
        }
    }

    /// The vertex reached after `k` steps back from `to` along first picks.
    pub open spec fn walk(&self, to: usize, k: nat) -> Option<usize>
        decreases k,
    {
        if k == 0 {
            Some(to)
        } else {
            match self.walk(to, (k - 1) as nat) {
                Some(v) => self.first_pred(v),
                None => None,
            }
        }
    }

    /// The walk back from `to` stops: it reaches `from` or a vertex with no edge.
    pub open spec fn walk_stops(&self, from: usize, to: usize) -> bool {
        exists|k: nat| #[trigger] self.walk(to, k) == Some(from) || self.walk(to, k) is None
    }

    /// Tracking over `n` vertices, none with an edge.
    pub fn new(n: usize) -> (r: Self)
        ensures
            r.wf(),
            r.spec_len() == n,
            forall|v: int| 0 <= v < n ==> r.edges(v).len() == 0,
    {
        let mut trs: Vec<Tr> = Vec::new();
        let mut i: usize = 0;
        while i < n
            invariant
                i <= n,
                trs@.len() == i,
                forall|v: int| 0 <= v < i ==> trs@[v].items().len() == 0,
            decreases n - i,
        {
            trs.push(Tr::empty());
            i = i + 1;
        }
        Self { trs }
    }

    /// Forgets every edge into `v`.
    pub fn clear_backtrack(&mut self, v: usize)
        requires
            old(self).wf(),
            v < old(self).spec_len(),
        ensures
            final(self).wf(),
            final(self).spec_len() == old(self).spec_len(),
            final(self).edges(v as int).len() == 0,
            forall|u: int| 0 <= u < old(self).spec_len() && u != v ==> final(self).edges(u) == old(self).edges(u),
    {
        self.trs[v].clear();
        assert forall|u: int, i: int|
            0 <= u < self.spec_len() && 0 <= i < self.edges(u).len() implies #[trigger] self.edges(u)[i].0
                < self.spec_len() by {
            if u != v as int {
                assert(self.edges(u) == old(self).edges(u));
            }
        }
    }

    /// Records the edge `from -> to` labelled `t`.
    pub fn add_edge(&mut self, from: usize, to: usize, t: T)
        requires
            old(self).wf(),
            from < old(self).spec_len(),
            to < old(self).spec_len(),
        ensures
            final(self).wf(),
            final(self).spec_len() == old(self).spec_len(),
            final(self).edges(to as int).len() > 0,
            final(self).edges(to as int).last() == (from, t),
            forall|i: int|
                0 <= i < final(self).edges(to as int).len() ==> #[trigger] final(self).edges(to as int)[i] == (from, t)
                    || old(self).edges(to as int).contains(final(self).edges(to as int)[i]),
            forall|u: int| 0 <= u < old(self).spec_len() && u != to ==> final(self).edges(u) == old(self).edges(u),
    {
        self.trs[to].push((from, t));
        proof {
            assert forall|v: int, i: int|
                0 <= v < self.spec_len() && 0 <= i < self.edges(v).len() implies #[trigger] self.edges(v)[i].0
                    < self.spec_len() by {
                if v == to as int {
                    let e = self.edges(v)[i];
                    if e != (from, t) {
                        let j = choose|j: int| 0 <= j < old(self).edges(v).len() && old(self).edges(v)[j] == e;
                        assert(old(self).edges(v)[j].0 < old(self).spec_len());
                    }
                }
            }
        }
    }

    /// The walk back from `to` first meets `from` after exactly `n` steps.
    pub open spec fn reaches_in(&self, from: usize, to: usize, n: nat) -> bool {
        &&& self.walk(to, n) == Some(from)
        &&& forall|j: nat| j < n ==> #[trigger] self.walk(to, j) != Some(from)
    }

    /// Once the walk has stopped for want of an edge, it stays stopped.
    pub proof fn lemma_walk_stays_none(&self, to: usize, a: nat, b: nat)
        requires
            a <= b,
            self.walk(to, a) is None,
        ensures
            self.walk(to, b) is None,
        decreases b - a,
    {
        if a < b {
            self.lemma_walk_stays_none(to, a, (b - 1) as nat);
        }
    }

    /// The edges `(vertex, label)` from `from` to `to` along first picks, in the
    /// order they are walked forward; `None` where the walk back from `to`
    /// meets a vertex with no edge before it meets `from`.
    pub fn path(&self, from: usize, to: usize) -> (r: Option<Vec<(usize, &T)>>)
        requires
            self.wf(),
            to < self.spec_len() || to == from,
            self.walk_stops(from, to),
        ensures
            match r {
                Some(a) => {
                    &&& self.reaches_in(from, to, a@.len())
                    &&& forall|i: int|
                        #![trigger a@[i]]
                        0 <= i < a@.len() ==> a@[i].0 == self.walk(to, (a@.len() - i) as nat)->0
                            && *a@[i].1 == self.edges(self.walk(to, (a@.len() - 1 - i) as nat)->0 as int)[0].1
                },
                None => forall|n: nat| !#[trigger] self.reaches_in(from, to, n),
            },
    {
        let ghost k = choose|k: nat| #[trigger] self.walk(to, k) == Some(from) || self.walk(to, k) is None;
        let mut ans: Vec<(usize, &T)> = Vec::new();
        let mut v = to;
        let ghost mut s: nat = 0;
        while v != from
            invariant
                self.wf(),
                v < self.spec_len() || v == from,
                self.walk(to, s) == Some(v),
                self.walk(to, k) == Some(from) || self.walk(to, k) is None,
                s <= k,
                forall|j: nat| j < s ==> #[trigger] self.walk(to, j) != Some(from),
                ans@.len() == s,
                forall|j: int|
                    #![trigger ans@[j]]
                    0 <= j < s ==> ans@[j].0 == self.walk(to, (j + 1) as nat)->0
                        && *ans@[j].1 == self.edges(self.walk(to, j as nat)->0 as int)[0].1,
            decreases k - s,
        {
            assert(s != k);
            match self.trs[v].pick() {
                None => {
                    proof {
                        assert(self.walk(to, s + 1) is None);
                        assert forall|n: nat| !#[trigger] self.reaches_in(from, to, n) by {
                            if n > s {
                                self.lemma_walk_stays_none(to, s + 1, n);
                            }
                        }
                    }
                    return None;
                },
                Some(e) => {
                    let next = e.0;
                    let t = &e.1;
                    assert(self.edges(v as int)[0].0 < self.spec_len());
                    ans.push((next, t));
                    v = next;
                    proof {
                        s = s + 1;
                    }
                },
            }
        }
        let n = ans.len();
        let mut out: Vec<(usize, &T)> = Vec::new();
        let mut i: usize = 0;
        while i < n
            invariant
                n == ans@.len(),
                i <= n,
                out@.len() == i,
                forall|j: int| 0 <= j < i ==> #[trigger] out@[j] == ans@[n - 1 - j],
            decreases n - i,
        {
            out.push(ans[n - 1 - i]);
            i = i + 1;
        }
        proof {
            assert(self.reaches_in(from, to, n as nat));
            assert forall|i: int|
                #![trigger out@[i]]
                0 <= i < out@.len() implies out@[i].0 == self.walk(to, (out@.len() - i) as nat)->0
                    && *out@[i].1 == self.edges(self.walk(to, (out@.len() - 1 - i) as nat)->0 as int)[0].1 by {
                assert(out@[i] == ans@[n - 1 - i]);
            }
        }
        Some(out)
    }

    /// Every recorded edge goes down in `rank`: the records have no cycle.
    pub open spec fn ranked_by(&self, rank: spec_fn(usize) -> nat) -> bool {
        forall|v: usize, i: int|
            v < self.spec_len() && 0 <= i < self.edges(v as int).len() ==> rank(
                #[trigger] self.edges(v as int)[i].0,
            ) < rank(v)
    }

    /// `vs` walks back from `to` along recorded edges, passing `from` at
    /// most as its last vertex.
    pub open spec fn back_chain(&self, from: usize, to: usize, vs: Seq<usize>) -> bool {
        &&& vs.len() > 0
        &&& vs[0] == to
        &&& forall|i: int| 0 <= i < vs.len() - 1 ==> #[trigger] vs[i] != from
        &&& forall|i: int|
            #![trigger vs[i]]
            0 <= i < vs.len() - 1 ==> exists|k: int|
                0 <= k < self.edges(vs[i] as int).len() && #[trigger] self.edges(vs[i] as int)[k].0 == vs[i + 1]
    }

    /// A walk back that has not yet met `from` goes on along any edge of
    /// its last vertex.
    pub proof fn lemma_back_chain_push(&self, from: usize, to: usize, vs: Seq<usize>, k: int)
        requires
            self.back_chain(from, to, vs),
            vs.last() != from,
            0 <= k < self.edges(vs.last() as int).len(),
        ensures
            self.back_chain(from, to, vs.push(self.edges(vs.last() as int)[k].0)),
    {
        let v = vs.last();
        let next = self.edges(v as int)[k].0;
        let w = vs.push(next);
        assert forall|i: int| 0 <= i < w.len() - 1 implies #[trigger] w[i] != from by {
            assert(w[i] == vs[i]);
        }
        assert forall|i: int|
            #![trigger w[i]]
            0 <= i < w.len() - 1 implies exists|k2: int|
                0 <= k2 < self.edges(w[i] as int).len() && #[trigger] self.edges(w[i] as int)[k2].0 == w[i + 1] by {
            if i < vs.len() - 1 {
                assert(w[i] == vs[i] && w[i + 1] == vs[i + 1]);
                assert(vs[i] == vs[i]);
            } else {
                assert(w[i] == v && w[i + 1] == next);
                assert(self.edges(w[i] as int)[k].0 == w[i + 1]);
            }
        }
        assert(w[0] == to);
    }

    /// The `i`-th vertex of a walked path `a` that ends at `to`.
    pub open spec fn path_vertex(a: Seq<(usize, &T)>, to: usize, i: int) -> usize {
        if i < a.len() {
            a[i].0
        } else {
            to
        }
    }

    /// Some path of recorded edges from `from` to `to`, each step drawn with
    /// `rng` among the edges of the vertex reached; `None` where the walk back
    /// from `to` meets a vertex with no edge before it meets `from`.
    pub fn random_path(&self, from: usize, to: usize, rng: &mut rand_pcg::Mcg128Xsl64) -> (r: Option<Vec<(usize, &T)>>)
        requires
            self.wf(),
            to < self.spec_len() || to == from,
            exists|rank: spec_fn(usize) -> nat| self.ranked_by(rank),
        ensures
            match r {
                Some(a) => {
                    &&& a@.len() > 0 ==> a@[0].0 == from
                    &&& a@.len() == 0 ==> to == from
                    &&& forall|i: int| 0 < i <= a@.len() ==> #[trigger] Self::path_vertex(a@, to, i) != from
                    &&& forall|i: int|
                        #![trigger a@[i]]
                        0 <= i < a@.len() ==> self.edges(Self::path_vertex(a@, to, i + 1) as int).contains(
                            (a@[i].0, *a@[i].1),
                        )
                },
                None => exists|vs: Seq<usize>|
                    #[trigger] self.back_chain(from, to, vs) && vs.last() != from && self.edges(vs.last() as int).len() == 0,
            },
    {
        let ghost rank = choose|rank: spec_fn(usize) -> nat| self.ranked_by(rank);
        let mut ans: Vec<(usize, &T)> = Vec::new();
        let mut v = to;
        let ghost mut vs: Seq<usize> = seq![to];
        while v != from
            invariant
                self.wf(),
                self.ranked_by(rank),
                v < self.spec_len() || v == from,
                ans@.len() > 0 ==> v == ans@.last().0,
                ans@.len() == 0 ==> v == to,
                forall|j: int| 0 <= j < ans@.len() ==> #[trigger] ans@[j].0 != from || j == ans@.len() - 1,
                ans@.len() > 0 ==> to != from,
                forall|j: int|
                    #![trigger ans@[j]]
                    0 <= j < ans@.len() ==> self.edges((if j == 0 { to } else { ans@[j - 1].0 }) as int).contains(
                        (ans@[j].0, *ans@[j].1),
                    ),
                self.back_chain(from, to, vs),
                vs.last() == v,
            decreases rank(v),
        {
            match self.trs[v].random_pick(rng) {
                None => {
                    assert(self.edges(v as int).len() == 0);
                    assert(self.back_chain(from, to, vs));
                    return None;
                },
                Some(e) => {
                    let next = e.0;
                    let t = &e.1;
                    let ghost k = choose|k: int| 0 <= k < self.edges(v as int).len() && self.edges(v as int)[k] == *e;
                    assert(self.edges(v as int)[k].0 < self.spec_len());
                    assert(rank(self.edges(v as int)[k].0) < rank(v));
                    proof {
                        self.lemma_back_chain_push(from, to, vs, k);
                        vs = vs.push(next);
                    }
                    ans.push((next, t));
                    v = next;
                },
            }
        }
        let n = ans.len();
        let mut out: Vec<(usize, &T)> = Vec::new();
        let mut i: usize = 0;
        while i < n
            invariant
                n == ans@.len(),
                i <= n,
                out@.len() == i,
                forall|j: int| 0 <= j < i ==> #[trigger] out@[j] == ans@[n - 1 - j],
            decreases n - i,
        {
            out.push(ans[n - 1 - i]);
            i = i + 1;
        }
        proof {
            assert forall|i: int| 0 < i <= out@.len() implies #[trigger] Self::path_vertex(out@, to, i) != from by {
                if i < out@.len() {
                    assert(out@[i] == ans@[n - 1 - i]);
                }
            }
            assert forall|i: int|
                #![trigger out@[i]]
                0 <= i < out@.len() implies self.edges(Self::path_vertex(out@, to, i + 1) as int).contains(
                    (out@[i].0, *out@[i].1),
                ) by {
                assert(out@[i] == ans@[n - 1 - i]);
                if i + 1 < out@.len() {
                    assert(out@[i + 1] == ans@[n - 1 - (i + 1)]);
                }
            }
        }
        Some(out)
    }
}

} // verus!
