use vstd::prelude::*;

verus! {

/// A slot of the tree: whether it holds a score, the score, and its leaf.
pub type SegEntry = (bool, i64, usize);

/// The order on slots: unset before set, then by score, then by leaf.
pub open spec fn entry_le(a: SegEntry, b: SegEntry) -> bool {
    (!a.0 && b.0) || (a.0 == b.0 && (a.1 < b.1 || (a.1 == b.1 && a.2 <= b.2)))
}

/// The larger of two slots, the second one on a tie.
pub open spec fn entry_max(a: SegEntry, b: SegEntry) -> SegEntry {
    if entry_le(a, b) {
        b
    } else {
        a
    }
}

/// The order on slots is transitive.
pub proof fn lemma_entry_le_trans(a: SegEntry, b: SegEntry, c: SegEntry)
    requires
        entry_le(a, b),
        entry_le(b, c),
    ensures
        entry_le(a, c),
{
}

/// The order on slots is total.
pub proof fn lemma_entry_le_total(a: SegEntry, b: SegEntry)
    ensures
        entry_le(a, b) || entry_le(b, a),
{
}

/// The larger of two slots.
pub fn max_entry(a: SegEntry, b: SegEntry) -> (r: SegEntry)
    ensures
        r == entry_max(a, b),
{
    if (!a.0 && b.0) || (a.0 == b.0 && (a.1 < b.1 || (a.1 == b.1 && a.2 <= b.2))) {
        b
    } else {
        a
    }
}

/// The slot every unset leaf holds.
pub open spec fn unset_entry() -> SegEntry {
    (false, 0i64, usize::MAX)
}

/// A max segment tree over `n` leaves in heap order: node `j` has the
/// children `2j` and `2j + 1`, and the leaves are the nodes `n..2n`.
pub struct MaxSeg {
    n: usize,
    seg: Vec<SegEntry>,
}

impl MaxSeg {
    /// The number of leaves.
    pub closed spec fn spec_n(&self) -> nat {
        self.n as nat
    }

    /// Node `j` of the tree.
    pub closed spec fn node(&self, j: int) -> SegEntry {
        self.seg@[j]
    }

    /// The leaves, in order.
    pub open spec fn leaves(&self) -> Seq<SegEntry> {
        Seq::new(self.spec_n(), |i: int| self.node(self.spec_n() + i))
    }

    /// The shape of the tree: at least one leaf, two slots per leaf.
    pub closed spec fn wf(&self) -> bool {
        &&& self.n >= 1
        &&& self.seg@.len() == 2 * self.n
        &&& 2 * self.n <= usize::MAX
    }

    /// Every inner node holds the larger of its children.
    pub open spec fn consistent(&self) -> bool {
        forall|j: int|
            1 <= j < self.spec_n() ==> #[trigger] self.node(j) == entry_max(self.node(2 * j), self.node(2 * j + 1))
    }

    /// `e` is a leaf that no leaf exceeds.
    pub open spec fn is_max_leaf(&self, e: SegEntry) -> bool {
        &&& self.leaves().contains(e)
        &&& forall|i: int| 0 <= i < self.spec_n() ==> entry_le(#[trigger] self.leaves()[i], e)
    }

    /// A tree over the smallest power of two of leaves that is at least
    /// `width` (at least one), every leaf unset.
    pub fn new(width: usize) -> (r: Self)
        requires
            width <= usize::MAX / 4,
        ensures
            r.wf(),
            r.consistent(),
            r.spec_n() >= width,
            r.spec_n() < 2 * width || r.spec_n() == 1,
            forall|i: int| 0 <= i < r.spec_n() ==> #[trigger] r.leaves()[i] == unset_entry(),
    {
        let mut n: usize = 1;
        while n < width
            invariant
                1 <= n,
                n < 2 * width || n == 1,
                width <= usize::MAX / 4,
            decreases 2 * width - n,
        {
            assert(n * 2 > n);
            n = n * 2;
        }
        let mut seg: Vec<SegEntry> = Vec::new();
        let mut k: usize = 0;
        while k < n * 2
            invariant
                k <= n * 2,
                n * 2 <= usize::MAX,
                seg@.len() == k,
                forall|j: int| 0 <= j < k ==> #[trigger] seg@[j] == unset_entry(),
            decreases n * 2 - k,
        {
            seg.push((false, 0i64, usize::MAX));
            k = k + 1;
        }
        let r = Self { n, seg };
        assert forall|j: int| 1 <= j < r.spec_n() implies #[trigger] r.node(j) == entry_max(r.node(2 * j), r.node(2 * j + 1)) by {
            assert(r.node(j) == unset_entry());
            assert(r.node(2 * j) == unset_entry());
            assert(r.node(2 * j + 1) == unset_entry());
        }
        assert forall|i: int| 0 <= i < r.spec_n() implies #[trigger] r.leaves()[i] == unset_entry() by {
            assert(r.node(r.spec_n() + i) == unset_entry());
        }
        r
    }

    /// The score and leaf number held at leaf `i`.
    pub fn at(&self, i: usize) -> (r: (i64, usize))
        requires
            self.wf(),
            i < self.spec_n(),
        ensures
            r == (self.leaves()[i as int].1, self.leaves()[i as int].2),
    {
        (self.seg[i + self.n].1, self.seg[i + self.n].2)
    }

    /// Sets leaf `i` to `score` without updating the inner nodes.
    pub fn unfix_set(&mut self, i: usize, score: i64)
        requires
            old(self).wf(),
            i < old(self).spec_n(),
        ensures
            final(self).wf(),
            final(self).spec_n() == old(self).spec_n(),
            final(self).leaves() == old(self).leaves().update(i as int, (true, score, i)),
            forall|j: int| 1 <= j < old(self).spec_n() ==> #[trigger] final(self).node(j) == old(self).node(j),
    {
        let k = i + self.n;
        self.seg.set(k, (true, score, i));
        assert(self.leaves() =~= old(self).leaves().update(i as int, (true, score, i)));
    }

    /// Recomputes every inner node from the leaves.
    pub fn fix(&mut self)
        requires
            old(self).wf(),
        ensures
            final(self).wf(),
            final(self).consistent(),
            final(self).spec_n() == old(self).spec_n(),
            final(self).leaves() == old(self).leaves(),
    {
        let n = self.n;
        let mut i: usize = n;
        while i > 1
            invariant
                self.wf(),
                self.n == n,
                1 <= i <= n,
                self.leaves() == old(self).leaves(),
                forall|j: int| i <= j < n ==> #[trigger] self.node(j) == entry_max(self.node(2 * j), self.node(2 * j + 1)),
            decreases i,
        {
            i = i - 1;
            let m = max_entry(self.seg[2 * i], self.seg[2 * i + 1]);
            let ghost before = self.seg@;
            let ghost prev = *self;
            self.seg.set(i, m);
            assert(self.leaves() =~= old(self).leaves());
            assert forall|j: int| i <= j < n implies #[trigger] self.node(j) == entry_max(self.node(2 * j), self.node(2 * j + 1)) by {
                assert(self.node(2 * j) == before[2 * j]);
                assert(self.node(2 * j + 1) == before[2 * j + 1]);
                if j != i as int {
                    assert(self.node(j) == before[j]);
                    assert(prev.node(j) == entry_max(prev.node(2 * j), prev.node(2 * j + 1)));
                }
            }
        }
    }

    /// Sets leaf `i` to `score` and updates the nodes above it.
    pub fn update(&mut self, i: usize, score: i64)
        requires
            old(self).wf(),
            old(self).consistent(),
            i < old(self).spec_n(),
        ensures
            final(self).wf(),
            final(self).consistent(),
            final(self).spec_n() == old(self).spec_n(),
            final(self).leaves() == old(self).leaves().update(i as int, (true, score, i)),
    {
        let n = self.n;
        let mut c = i + n;
        self.seg.set(c, (true, score, i));
        assert(self.leaves() =~= old(self).leaves().update(i as int, (true, score, i)));
        assert forall|j: int|
            1 <= j < n && !is_ancestor(j, c as int) implies #[trigger] self.node(j) == entry_max(
                self.node(2 * j),
                self.node(2 * j + 1),
            ) by {
            assert(c > 1 ==> (c as int) / 2 != j || is_ancestor(j, c as int));
            assert(self.node(j) == old(self).node(j));
            if 2 * j == c as int || 2 * j + 1 == c as int {
                assert((c as int) / 2 == j);
            }
            assert(self.node(2 * j) == old(self).node(2 * j));
            assert(self.node(2 * j + 1) == old(self).node(2 * j + 1));
        }
        while c > 1
            invariant
                self.wf(),
                self.n == n,
                1 <= c < 2 * n,
                self.leaves() == old(self).leaves().update(i as int, (true, score, i)),
                forall|j: int|
                    1 <= j < n && !is_ancestor(j, c as int) ==> #[trigger] self.node(j) == entry_max(
                        self.node(2 * j),
                        self.node(2 * j + 1),
                    ),
            decreases c,
        {
            proof {
                lemma_shr_one(c);
            }
            c = c >> 1;
            let m = max_entry(self.seg[2 * c], self.seg[2 * c + 1]);
            let ghost before = self.seg@;
            let ghost prev = *self;
            self.seg.set(c, m);
            proof {
                assert(self.leaves() =~= old(self).leaves().update(i as int, (true, score, i)));
                assert forall|j: int|
                    1 <= j < n && !is_ancestor(j, c as int) implies #[trigger] self.node(j) == entry_max(
                        self.node(2 * j),
                        self.node(2 * j + 1),
                    ) by {
                    if j != c as int {
                        lemma_ancestor_of_child(j, c as int);
                        assert(self.node(j) == before[j]);
                        if 2 * j == c as int || 2 * j + 1 == c as int {
                            assert(is_ancestor(j, c as int));
                        }
                        assert(self.node(2 * j) == before[2 * j]);
                        assert(self.node(2 * j + 1) == before[2 * j + 1]);
                        assert(prev.node(j) == entry_max(prev.node(2 * j), prev.node(2 * j + 1)));
                    } else {
                        assert(self.node(2 * j) == before[2 * j]);
                        assert(self.node(2 * j + 1) == before[2 * j + 1]);
                    }
                }
            }
        }
    }

    /// The score and leaf number of the largest leaf.
    pub fn all(&self) -> (r: (i64, usize))
        requires
            self.wf(),
            self.consistent(),
        ensures
            exists|e: SegEntry| self.is_max_leaf(e) && r == (e.1, e.2),
    {
        proof {
            self.lemma_root_is_max_leaf();
        }
        (self.seg[1].1, self.seg[1].2)
    }

    /// No node exceeds the root of a consistent tree.
    pub proof fn lemma_root_dominates(&self, j: int)
        requires
            self.wf(),
            self.consistent(),
            1 <= j < 2 * self.spec_n(),
        ensures
            entry_le(self.node(j), self.node(1)),
        decreases j,
    {
        if j > 1 {
            let p = j / 2;
            self.lemma_root_dominates(p);
            assert(self.node(p) == entry_max(self.node(2 * p), self.node(2 * p + 1)));
            assert(entry_le(self.node(j), self.node(p)));
            lemma_entry_le_trans(self.node(j), self.node(p), self.node(1));
        }
    }

    /// Every node of a consistent tree holds the value of some leaf.
    pub proof fn lemma_node_is_leaf(&self, j: int)
        requires
            self.wf(),
            self.consistent(),
            1 <= j < 2 * self.spec_n(),
        ensures
            self.leaves().contains(self.node(j)),
        decreases 2 * self.spec_n() - j,
    {
        if j < self.spec_n() {
            if self.node(j) == self.node(2 * j) {
                self.lemma_node_is_leaf(2 * j);
            } else {
                self.lemma_node_is_leaf(2 * j + 1);
            }
        } else {
            assert(self.leaves()[j - self.spec_n()] == self.node(j));
        }
    }

    /// The root of a consistent tree is its largest leaf.
    pub proof fn lemma_root_is_max_leaf(&self)
        requires
            self.wf(),
            self.consistent(),
        ensures
            self.is_max_leaf(self.node(1)),
    {
        self.lemma_node_is_leaf(1);
        assert forall|i: int| 0 <= i < self.spec_n() implies entry_le(#[trigger] self.leaves()[i], self.node(1)) by {
            self.lemma_root_dominates(self.spec_n() + i);
        }
    }
}

/// `j` lies strictly above `c` in the heap order.
pub open spec fn is_ancestor(j: int, c: int) -> bool
    decreases c,
{
    if c <= 1 {
        false
    } else {
        c / 2 == j || is_ancestor(j, c / 2)
    }
}

/// An ancestor of a child other than its parent is an ancestor of the parent.
pub proof fn lemma_ancestor_of_child(j: int, p: int)
    requires
        p >= 1,
        j != p,
    ensures
        is_ancestor(j, 2 * p) ==> is_ancestor(j, p),
        is_ancestor(j, 2 * p + 1) ==> is_ancestor(j, p),
{
    assert((2 * p) / 2 == p);
    assert((2 * p + 1) / 2 == p);
}

/// Shifting right by one halves.
pub proof fn lemma_shr_one(c: usize)
    ensures
        c >> 1usize == c / 2,
{
    assert(c >> 1usize == c / 2) by (bit_vector);
}

} // verus!
