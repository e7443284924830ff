use vstd::prelude::*;
use std::collections::HashMap;
use crate::beam::max_seg::{MaxSeg, SegEntry, entry_le};

verus! {

broadcast use vstd::std_specs::hash::group_hash_axioms;

/// A move that a beam search may take, with the score it leads to (lower is
/// better) and a hash of the state it leads to.
pub trait BeamCandidate {
    type Action;

    /// The score of the state this candidate leads to.
    spec fn spec_score(&self) -> i64;

    /// The hash of the state this candidate leads to.
    spec fn spec_hash(&self) -> u64;

    /// The move this candidate stands for.
    spec fn spec_action(&self) -> Self::Action;

    /// The move itself.
    fn into_action(self) -> (a: Self::Action)
        ensures
            a == self.spec_action(),
    ;

    /// The score of the state this candidate leads to.
    fn score(&self) -> (r: i64)
        ensures
            r == self.spec_score(),
    ;

    /// The hash of the state this candidate leads to.
    fn hash(&self) -> (r: u64)
        ensures
            r == self.spec_hash(),
    ;
}

/// `w` holds the worst kept candidate: the largest score, the later index on a tie.
pub open spec fn is_worst<C: BeamCandidate>(sel: Seq<(C, usize)>, w: int) -> bool {
    &&& 0 <= w < sel.len()
    &&& forall|j: int|
        0 <= j < sel.len() ==> (#[trigger] sel[j].0.spec_score() < sel[w].0.spec_score() || (
        sel[j].0.spec_score() == sel[w].0.spec_score() && j <= w))
}

/// The index of the kept candidate whose state has hash `h`, if any.
pub open spec fn index_of_hash<C: BeamCandidate>(sel: Seq<(C, usize)>, h: u64, i: int) -> bool {
    0 <= i < sel.len() && sel[i].0.spec_hash() == h
}

/// Offering `cand` with parent `parent` to the kept candidates `o` (full
/// or not, of width `width`) leaves `f` (full or not): where full and no
/// kept candidate scores worse, nothing changes; where a kept candidate's
/// state has the same hash, it gives way if the new one scores better;
/// where full, the new one takes the worst one's place; else it joins.
pub open spec fn pushed<C: BeamCandidate>(
    o: Seq<(C, usize)>,
    ofull: bool,
    width: nat,
    cand: C,
    parent: usize,
    f: Seq<(C, usize)>,
    ffull: bool,
) -> bool {
    let s = cand.spec_score();
    let h = cand.spec_hash();
    if ofull && forall|j: int| 0 <= j < o.len() ==> #[trigger] o[j].0.spec_score() <= s {
        f == o && ffull
    } else if exists|i: int| index_of_hash(o, h, i) {
        let i = choose|i: int| index_of_hash(o, h, i);
        &&& ffull == ofull
        &&& if s < o[i].0.spec_score() {
            f == o.update(i, (cand, parent))
        } else {
            f == o
        }
    } else if ofull {
        &&& ffull
        &&& exists|w: int| is_worst(o, w) && f == o.update(w, (cand, parent))
    } else {
        &&& f == o.push((cand, parent))
        &&& ffull == (f.len() == width)
    }
}

/// Some kept candidate's state has hash `h`.
pub open spec fn has_hash<C: BeamCandidate>(kept: Seq<(C, usize)>, h: u64) -> bool {
    exists|j: int| index_of_hash(kept, h, j)
}

/// No two kept candidates' states share a hash.
pub open spec fn hashes_distinct<C: BeamCandidate>(kept: Seq<(C, usize)>) -> bool {
    forall|a: int, b: int|
        0 <= a < kept.len() && 0 <= b < kept.len() && a != b ==> #[trigger] kept[a].0.spec_hash()
            != #[trigger] kept[b].0.spec_hash()
}

/// The kept candidates are the best of those offered (`log`): each was
/// offered; none scores worse than an offered candidate of its own hash,
/// nor than an offered one whose hash none keeps; and while not full,
/// every hash offered is kept.
pub open spec fn keeps_best<C: BeamCandidate>(kept: Seq<(C, usize)>, full: bool, log: Seq<C>) -> bool {
    &&& forall|j: int| 0 <= j < kept.len() ==> log.contains(#[trigger] kept[j].0)
    &&& forall|j: int, k: int|
        #![trigger kept[j], log[k]]
        0 <= j < kept.len() && 0 <= k < log.len() && (kept[j].0.spec_hash() == log[k].spec_hash() || !has_hash(
            kept,
            log[k].spec_hash(),
        )) ==> kept[j].0.spec_score() <= log[k].spec_score()
    &&& !full ==> forall|k: int| 0 <= k < log.len() ==> has_hash(kept, #[trigger] log[k].spec_hash())
}

/// One offer keeps the best of all offered: what makes a beam keep the
/// best states per hash, up to its width.
pub proof fn lemma_pushed_keeps_best<C: BeamCandidate>(
    o: Seq<(C, usize)>,
    ofull: bool,
    width: nat,
    cand: C,
    parent: usize,
    f: Seq<(C, usize)>,
    ffull: bool,
    log: Seq<C>,
)
    requires
        keeps_best(o, ofull, log),
        hashes_distinct(o),
        pushed(o, ofull, width, cand, parent, f, ffull),
        hashes_distinct(f),
        ofull ==> ffull,
    ensures
        keeps_best(f, ffull, log.push(cand)),
{
    let s = cand.spec_score();
    let h = cand.spec_hash();
    let l2 = log.push(cand);
    assert forall|j: int| 0 <= j < f.len() implies l2.contains(#[trigger] f[j].0) by {
        if f[j] == (cand, parent) {
            assert(l2[log.len() as int] == cand);
        } else {
            assert(o.contains(f[j])) by {
                if ofull && forall|j2: int| 0 <= j2 < o.len() ==> #[trigger] o[j2].0.spec_score() <= s {
                } else if exists|i: int| index_of_hash(o, h, i) {
                    let i = choose|i: int| index_of_hash(o, h, i);
                    assert(f[j] == o[j]);
                } else if ofull {
                    let w = choose|w: int| is_worst(o, w) && f == o.update(w, (cand, parent));
                    assert(f[j] == o[j]);
                } else {
                    assert(f[j] == o[j]);
                }
            }
            let j0 = choose|j0: int| 0 <= j0 < o.len() && o[j0] == f[j];
            assert(log.contains(o[j0].0));
            let k = choose|k: int| 0 <= k < log.len() && log[k] == o[j0].0;
            assert(l2[k] == log[k]);
        }
    }
    if ofull && forall|j2: int| 0 <= j2 < o.len() ==> #[trigger] o[j2].0.spec_score() <= s {
        assert(f == o);
        assert forall|j: int, k: int|
            #![trigger f[j], l2[k]]
            0 <= j < f.len() && 0 <= k < l2.len() && (f[j].0.spec_hash() == l2[k].spec_hash() || !has_hash(f, l2[k].spec_hash()))
                implies f[j].0.spec_score() <= l2[k].spec_score() by {
            if k < log.len() {
                assert(l2[k] == log[k]);
            }
        }
    } else if exists|i: int| index_of_hash(o, h, i) {
        let i = choose|i: int| index_of_hash(o, h, i);
        assert forall|x: u64| has_hash(f, x) <==> has_hash(o, x) by {
            if has_hash(f, x) {
                let j = choose|j: int| index_of_hash(f, x, j);
                if j == i {
                    assert(index_of_hash(o, x, i));
                } else {
                    assert(index_of_hash(o, x, j));
                }
            }
            if has_hash(o, x) {
                let j = choose|j: int| index_of_hash(o, x, j);
                assert(index_of_hash(f, x, j));
            }
        }
        assert forall|j: int, k: int|
            #![trigger f[j], l2[k]]
            0 <= j < f.len() && 0 <= k < l2.len() && (f[j].0.spec_hash() == l2[k].spec_hash() || !has_hash(f, l2[k].spec_hash()))
                implies f[j].0.spec_score() <= l2[k].spec_score() by {
            if k < log.len() {
                assert(l2[k] == log[k]);
                assert(o[j].0.spec_hash() == f[j].0.spec_hash());
                assert(o[j].0.spec_score() <= log[k].spec_score());
            } else {
                assert(l2[k] == cand);
                if j != i {
                    assert(f[j] == o[j]);
                    assert(o[j].0.spec_hash() != o[i].0.spec_hash());
                }
            }
        }
        if !ffull {
            assert forall|k: int| 0 <= k < l2.len() implies has_hash(f, #[trigger] l2[k].spec_hash()) by {
                if k < log.len() {
                    assert(l2[k] == log[k]);
                    assert(has_hash(o, log[k].spec_hash()));
                } else {
                    assert(index_of_hash(o, h, i));
                }
            }
        }
    } else if ofull {
        let w = choose|w: int| is_worst(o, w) && f == o.update(w, (cand, parent));
        let j1 = choose|j1: int| !(0 <= j1 < o.len() ==> #[trigger] o[j1].0.spec_score() <= s);
        assert(o[w].0.spec_score() > s) by {
            assert(o[j1].0.spec_score() < o[w].0.spec_score() || (o[j1].0.spec_score() == o[w].0.spec_score()));
        }
        assert(index_of_hash(f, h, w));
        assert forall|j: int, k: int|
            #![trigger f[j], l2[k]]
            0 <= j < f.len() && 0 <= k < l2.len() && (f[j].0.spec_hash() == l2[k].spec_hash() || !has_hash(f, l2[k].spec_hash()))
                implies f[j].0.spec_score() <= l2[k].spec_score() by {
            if k < log.len() {
                let x = log[k].spec_hash();
                assert(l2[k] == log[k]);
                if x == o[w].0.spec_hash() {
                    assert(o[w].0.spec_score() <= log[k].spec_score());
                    if j != w {
                        assert(f[j] == o[j]);
                        assert(o[j].0.spec_score() <= o[w].0.spec_score() || o[j].0.spec_score() == o[w].0.spec_score());
                    }
                } else if x == h {
                    assert(!has_hash(o, x));
                    assert(o[w].0.spec_score() <= log[k].spec_score());
                    if j != w {
                        assert(f[j] == o[j]);
                        assert(index_of_hash(f, x, w));
                        assert(o[j].0.spec_hash() != h) by {
                            if o[j].0.spec_hash() == h {
                                assert(index_of_hash(o, h, j));
                            }
                        }
                    }
                } else {
                    if !has_hash(f, x) {
                        assert(!has_hash(o, x)) by {
                            if has_hash(o, x) {
                                let j2 = choose|j2: int| index_of_hash(o, x, j2);
                                assert(j2 != w);
                                assert(index_of_hash(f, x, j2));
                            }
                        }
                    }
                    if j == w {
                        assert(o[w].0.spec_score() <= log[k].spec_score());
                    } else {
                        assert(f[j] == o[j]);
                        if f[j].0.spec_hash() != x {
                            assert(!has_hash(o, x)) by {
                                if has_hash(o, x) {
                                    let j2 = choose|j2: int| index_of_hash(o, x, j2);
                                    assert(j2 != w);
                                    assert(index_of_hash(f, x, j2));
                                }
                            }
                        }
                    }
                }
            } else {
                assert(l2[k] == cand);
                if j != w {
                    assert(f[j] == o[j]);
                    assert(o[j].0.spec_hash() != h) by {
                        if o[j].0.spec_hash() == h {
                            assert(index_of_hash(o, h, j));
                        }
                    }
                }
            }
        }
    } else {
        assert(f == o.push((cand, parent)));
        assert(index_of_hash(f, h, o.len() as int));
        assert forall|j: int, k: int|
            #![trigger f[j], l2[k]]
            0 <= j < f.len() && 0 <= k < l2.len() && (f[j].0.spec_hash() == l2[k].spec_hash() || !has_hash(f, l2[k].spec_hash()))
                implies f[j].0.spec_score() <= l2[k].spec_score() by {
            if k < log.len() {
                assert(l2[k] == log[k]);
                assert(has_hash(o, log[k].spec_hash()));
                let j2 = choose|j2: int| index_of_hash(o, log[k].spec_hash(), j2);
                assert(index_of_hash(f, log[k].spec_hash(), j2));
                if j < o.len() {
                    assert(f[j] == o[j]);
                } else {
                    assert(f[j].0 == cand);
                    assert(o[j2].0.spec_hash() == h);
                    assert(index_of_hash(o, h, j2));
                }
            } else {
                assert(l2[k] == cand);
                if j < o.len() {
                    assert(f[j] == o[j]);
                    assert(o[j].0.spec_hash() != h) by {
                        if o[j].0.spec_hash() == h {
                            assert(index_of_hash(o, h, j));
                        }
                    }
                }
            }
        }
        if !ffull {
            assert forall|k: int| 0 <= k < l2.len() implies has_hash(f, #[trigger] l2[k].spec_hash()) by {
                if k < log.len() {
                    assert(l2[k] == log[k]);
                    assert(has_hash(o, log[k].spec_hash()));
                    let j2 = choose|j2: int| index_of_hash(o, log[k].spec_hash(), j2);
                    assert(index_of_hash(f, log[k].spec_hash(), j2));
                }
            }
        }
    }
}

/// Offering the candidates `cands` in order, each with parent `p`, takes
/// the kept candidates `o` (full or not) to `f` (full or not).
pub open spec fn offered<C: BeamCandidate>(
    o: Seq<(C, usize)>,
    ofull: bool,
    width: nat,
    cands: Seq<C>,
    p: usize,
    f: Seq<(C, usize)>,
    ffull: bool,
) -> bool
    decreases cands.len(),
{
    if cands.len() == 0 {
        f == o && ffull == ofull
    } else {
        exists|m: Seq<(C, usize)>, mfull: bool|
            #![trigger pushed(m, mfull, width, cands.last(), p, f, ffull)]
            offered(o, ofull, width, cands.drop_last(), p, m, mfull) && pushed(m, mfull, width, cands.last(), p, f, ffull)
    }
}

/// The kept candidates fill the width exactly when full, and stay below it
/// otherwise.
pub open spec fn sized<C>(kept: Seq<(C, usize)>, full: bool, width: nat) -> bool {
    if full { kept.len() == width } else { kept.len() < width }
}

/// One offer keeps the candidates within the width.
pub proof fn lemma_pushed_sized<C: BeamCandidate>(
    o: Seq<(C, usize)>,
    ofull: bool,
    width: nat,
    cand: C,
    parent: usize,
    f: Seq<(C, usize)>,
    ffull: bool,
)
    requires
        sized(o, ofull, width),
        pushed(o, ofull, width, cand, parent, f, ffull),
    ensures
        sized(f, ffull, width),
{
}

/// However many candidates are offered, the selector never keeps more than
/// its width: what bounds the memory of a beam search.
pub proof fn lemma_offered_sized<C: BeamCandidate>(
    o: Seq<(C, usize)>,
    ofull: bool,
    width: nat,
    cands: Seq<C>,
    p: usize,
    f: Seq<(C, usize)>,
    ffull: bool,
)
    requires
        sized(o, ofull, width),
        offered(o, ofull, width, cands, p, f, ffull),
    ensures
        sized(f, ffull, width),
        f.len() <= width,
    decreases cands.len(),
{
    if cands.len() > 0 {
        let (m, mfull) = choose|m: Seq<(C, usize)>, mfull: bool|
            #![trigger pushed(m, mfull, width, cands.last(), p, f, ffull)]
            offered(o, ofull, width, cands.drop_last(), p, m, mfull) && pushed(m, mfull, width, cands.last(), p, f, ffull);
        lemma_offered_sized(o, ofull, width, cands.drop_last(), p, m, mfull);
        lemma_pushed_sized(m, mfull, width, cands.last(), p, f, ffull);
    }
}

/// One more offer extends the offers made.
pub proof fn lemma_offered_push<C: BeamCandidate>(
    o: Seq<(C, usize)>,
    ofull: bool,
    width: nat,
    cands: Seq<C>,
    p: usize,
    m: Seq<(C, usize)>,
    mfull: bool,
    c: C,
    f: Seq<(C, usize)>,
    ffull: bool,
)
    requires
        offered(o, ofull, width, cands, p, m, mfull),
        pushed(m, mfull, width, c, p, f, ffull),
    ensures
        offered(o, ofull, width, cands.push(c), p, f, ffull),
{
    assert(cands.push(c).drop_last() =~= cands);
    assert(cands.push(c).last() == c);
    assert(offered(o, ofull, width, cands.push(c).drop_last(), p, m, mfull));
}

/// Keeps at most `width` candidates with distinct hashes, the best by score:
/// once full, a candidate enters only by pushing out the worst one.
pub struct MaxSegSelector<C: BeamCandidate> {
    width: usize,
    full: bool,
    pub selected: Vec<(C, usize)>,
    hash_to_idx: HashMap<u64, usize>,
    seg: MaxSeg,
    log: Ghost<Seq<C>>,
}

impl<C: BeamCandidate> MaxSegSelector<C> {
    /// The most candidates kept.
    pub closed spec fn spec_width(&self) -> nat {
        self.width as nat
    }

    /// Whether `width` candidates are kept.
    pub closed spec fn is_full(&self) -> bool {
        self.full
    }

    /// The kept candidates and their parents.
    pub closed spec fn kept(&self) -> Seq<(C, usize)> {
        self.selected@
    }

    /// A selector that keeps nothing is not full.
    pub proof fn lemma_empty_not_full(&self)
        requires
            self.wf(),
            self.kept().len() == 0,
        ensures
            !self.is_full(),
    {
    }

    /// The bookkeeping agrees with the kept candidates, which are the best
    /// of those offered.
    pub closed spec fn wf(&self) -> bool {
        &&& self.wf_core()
        &&& keeps_best(self.selected@, self.full, self.log@)
    }

    /// The bookkeeping agrees with the kept candidates.
    closed spec fn wf_core(&self) -> bool {
        &&& self.seg.wf()
        &&& self.seg.spec_n() >= self.width
        &&& self.full ==> {
            &&& self.selected@.len() == self.width
            &&& self.width > 0
            &&& self.seg.consistent()
            &&& forall|i: int| self.width <= i < self.seg.spec_n() ==> !(#[trigger] self.seg.leaves()[i]).0
            &&& forall|i: int|
                0 <= i < self.width ==> #[trigger] self.seg.leaves()[i] == (
                    true,
                    self.selected@[i].0.spec_score(),
                    i as usize,
                )
        }
        &&& !self.full ==> self.selected@.len() < self.width || self.width == 0
        &&& forall|i: int| self.width <= i < self.seg.spec_n() ==> !(#[trigger] self.seg.leaves()[i]).0
        &&& forall|i: int, j: int|
            0 <= i < self.selected@.len() && 0 <= j < self.selected@.len() && i != j ==> #[trigger] self.selected@[i].0.spec_hash()
                != #[trigger] self.selected@[j].0.spec_hash()
        &&& forall|h: u64|
            #[trigger] self.hash_to_idx@.contains_key(h) <==> exists|i: int| index_of_hash(self.selected@, h, i)
        &&& forall|h: u64|
            #[trigger] self.hash_to_idx@.contains_key(h) ==> index_of_hash(self.selected@, h, self.hash_to_idx@[h] as int)
    }

    /// Whatever was offered since the selector was made or emptied, it keeps
    /// the best: at most its (nonzero) width of candidates, no two of the
    /// same hash,
    /// each one offered, none worse than an offered candidate of its own
    /// hash or of a hash it does not keep, and, while not full, every hash
    /// offered.
    pub proof fn lemma_keeps_best(&self)
        requires
            self.wf(),
        ensures
            self.spec_width() > 0 ==> self.kept().len() <= self.spec_width(),
            hashes_distinct(self.kept()),
            keeps_best(self.kept(), self.is_full(), self.offered_log()),
    {
    }

    /// An empty selector that keeps at most `width` candidates.
    pub fn new(width: usize) -> (r: Self)
        requires
            width <= usize::MAX / 4,
        ensures
            r.wf(),
            r.spec_width() == width,
            !r.is_full(),
            r.kept() == Seq::<(C, usize)>::empty(),
            r.offered_log() == Seq::<C>::empty(),
    {
        let r = Self {
            width,
            full: false,
            selected: Vec::new(),
            hash_to_idx: HashMap::new(),
            seg: MaxSeg::new(width),
            log: Ghost(Seq::empty()),
        };
        r
    }

    /// Every candidate offered since the selector was made, in order.
    pub closed spec fn offered_log(&self) -> Seq<C> {
        self.log@
    }

    /// The kept candidates and their parents.
    pub fn kept_items(&self) -> (r: &Vec<(C, usize)>)
        ensures
            r@ == self.kept(),
    {
        &self.selected
    }

    /// Empties the selector and hands back what it kept.
    pub fn clear(&mut self) -> (r: Vec<(C, usize)>)
        requires
            old(self).wf(),
        ensures
            final(self).wf(),
            final(self).spec_width() == old(self).spec_width(),
            !final(self).is_full(),
            final(self).kept() == Seq::<(C, usize)>::empty(),
            final(self).offered_log() == Seq::<C>::empty(),
            r@ == old(self).kept(),
    {
        self.log = Ghost(Seq::empty());
        self.hash_to_idx.clear();
        self.full = false;
        let mut r: Vec<(C, usize)> = Vec::new();
        std::mem::swap(&mut r, &mut self.selected);
        r
    }

    /// The worst kept candidate is where the tree's largest leaf points.
    proof fn lemma_max_leaf_is_worst(&self, e: SegEntry)
        requires
            self.wf_core(),
            self.full,
            self.seg.is_max_leaf(e),
        ensures
            e.0,
            e.2 < self.width,
            e.1 == self.selected@[e.2 as int].0.spec_score(),
            is_worst(self.selected@, e.2 as int),
    {
        let k = choose|k: int| 0 <= k < self.seg.spec_n() && self.seg.leaves()[k] == e;
        assert(entry_le(self.seg.leaves()[0], e));
        assert(self.seg.leaves()[0].0);
        assert(k < self.width);
        assert(e == (true, self.selected@[k].0.spec_score(), k as usize));
        assert forall|j: int|
            0 <= j < self.selected@.len() implies (#[trigger] self.selected@[j].0.spec_score()
                < self.selected@[k].0.spec_score() || (self.selected@[j].0.spec_score()
                == self.selected@[k].0.spec_score() && j <= k)) by {
            assert(entry_le(self.seg.leaves()[j], e));
        }
    }

    /// Offers `cand`, reached from the tour position `parent`.
    pub fn push(&mut self, cand: C, parent: usize)
        requires
            old(self).wf(),
        ensures
            final(self).wf(),
            final(self).spec_width() == old(self).spec_width(),
            forall|k: int|
                0 <= k < final(self).kept().len() ==> #[trigger] final(self).kept()[k] == (cand, parent)
                    || old(self).kept().contains(final(self).kept()[k]),
            pushed(
                old(self).kept(),
                old(self).is_full(),
                old(self).spec_width(),
                cand,
                parent,
                final(self).kept(),
                final(self).is_full(),
            ),
            final(self).offered_log() == old(self).offered_log().push(cand),
    {
        let ghost o = self.selected@;
        let ghost of = self.full;
        let ghost lg = self.log@;
        self.offer(cand, parent);
        self.log = Ghost(self.log@.push(cand));
        proof {
            lemma_pushed_keeps_best(o, of, self.width as nat, cand, parent, self.selected@, self.full, lg);
        }
    }

    /// `push` but for the record of what was offered.
    fn offer(&mut self, cand: C, parent: usize)
        requires
            old(self).wf_core(),
        ensures
            final(self).wf_core(),
            final(self).spec_width() == old(self).spec_width(),
            forall|k: int|
                0 <= k < final(self).kept().len() ==> #[trigger] final(self).kept()[k] == (cand, parent)
                    || old(self).kept().contains(final(self).kept()[k]),
            pushed(
                old(self).kept(),
                old(self).is_full(),
                old(self).spec_width(),
                cand,
                parent,
                final(self).kept(),
                final(self).is_full(),
            ),
            final(self).log@ == old(self).log@,
    {
        let score = cand.score();
        let hash = cand.hash();
        if self.full {
            let (worst, wi) = self.seg.all();
            proof {
                let e = choose|e: SegEntry| self.seg.is_max_leaf(e) && (worst, wi) == (e.1, e.2);
                self.lemma_max_leaf_is_worst(e);
            }
            if score >= worst {
                return;
            }
            proof {
                let e = choose|e: SegEntry| self.seg.is_max_leaf(e) && (worst, wi) == (e.1, e.2);
                self.lemma_max_leaf_is_worst(e);
                assert(self.selected@[wi as int].0.spec_score() > score);
            }
        }
        let found: Option<usize> = match self.hash_to_idx.get(&hash) {
            Some(b) => Some(*b),
            None => None,
        };
        match found {
            Some(bi) => {
                proof {
                    assert(index_of_hash(self.selected@, hash, bi as int));
                    let i = choose|i: int| index_of_hash(self.selected@, hash, i);
                    assert(i == bi as int);
                }
                if score < self.selected[bi].0.score() {
                    if self.full {
                        self.seg.update(bi, score);
                    }
                    self.selected.set(bi, (cand, parent));
                    proof {
                        let o = old(self).selected@;
                        assert forall|a: int, b: int|
                            0 <= a < self.selected@.len() && 0 <= b < self.selected@.len() && a != b implies #[trigger] self.selected@[a].0.spec_hash()
                                != #[trigger] self.selected@[b].0.spec_hash() by {
                            if a != bi as int {
                                assert(self.selected@[a] == o[a]);
                            }
                            if b != bi as int {
                                assert(self.selected@[b] == o[b]);
                            }
                        }
                        assert forall|h: u64|
                            #[trigger] self.hash_to_idx@.contains_key(h) implies index_of_hash(self.selected@, h, self.hash_to_idx@[h] as int) by {
                            let k = self.hash_to_idx@[h] as int;
                            assert(index_of_hash(o, h, k));
                        }
                        assert forall|h: u64|
                            #[trigger] self.hash_to_idx@.contains_key(h) <==> exists|i: int| index_of_hash(self.selected@, h, i) by {
                            if self.hash_to_idx@.contains_key(h) {
                                let i = choose|i: int| index_of_hash(old(self).selected@, h, i);
                                assert(index_of_hash(self.selected@, h, i));
                            }
                            if exists|i: int| index_of_hash(self.selected@, h, i) {
                                let i = choose|i: int| index_of_hash(self.selected@, h, i);
                                assert(index_of_hash(old(self).selected@, h, i));
                            }
                        }
                        if self.full {
                            assert forall|i: int|
                                0 <= i < self.width implies #[trigger] self.seg.leaves()[i] == (
                                    true,
                                    self.selected@[i].0.spec_score(),
                                    i as usize,
                                ) by {
                                if i != bi as int {
                                    assert(old(self).seg.leaves()[i] == (true, old(self).selected@[i].0.spec_score(), i as usize));
                                }
                            }
                            assert forall|i: int| self.width <= i < self.seg.spec_n() implies !(#[trigger] self.seg.leaves()[i]).0 by {
                                assert(!old(self).seg.leaves()[i].0);
                            }
                        }
                    }
                }
            },
            None => {
                proof {
                    assert(!exists|i: int| index_of_hash(self.selected@, hash, i));
                }
                if self.full {
                    let (_, i) = self.seg.all();
                    proof {
                        let e = choose|e: SegEntry| self.seg.is_max_leaf(e) && (e.1, e.2) == (e.1, i);
                        self.lemma_max_leaf_is_worst(e);
                    }
                    let old_h = self.selected[i].0.hash();
                    self.hash_to_idx.remove(&old_h);
                    self.hash_to_idx.insert(hash, i);
                    self.seg.update(i, score);
                    self.selected.set(i, (cand, parent));
                    proof {
                        assert(is_worst(old(self).selected@, i as int));
                        let o = old(self).selected@;
                        assert forall|a: int, b: int|
                            0 <= a < self.selected@.len() && 0 <= b < self.selected@.len() && a != b implies #[trigger] self.selected@[a].0.spec_hash()
                                != #[trigger] self.selected@[b].0.spec_hash() by {
                            if a == i as int {
                                assert(!index_of_hash(o, hash, b));
                            } else if b == i as int {
                                assert(!index_of_hash(o, hash, a));
                            }
                        }
                        assert forall|h: u64|
                            #[trigger] self.hash_to_idx@.contains_key(h) <==> exists|k: int| index_of_hash(self.selected@, h, k) by {
                            if h == hash {
                                assert(index_of_hash(self.selected@, h, i as int));
                            } else if h == old_h {
                                if exists|k: int| index_of_hash(self.selected@, h, k) {
                                    let k = choose|k: int| index_of_hash(self.selected@, h, k);
                                    assert(k != i as int);
                                    assert(o[k].0.spec_hash() == o[i as int].0.spec_hash());
                                }
                            } else {
                                if old(self).hash_to_idx@.contains_key(h) {
                                    let k = choose|k: int| index_of_hash(o, h, k);
                                    assert(k != i as int);
                                    assert(index_of_hash(self.selected@, h, k));
                                }
                                if exists|k: int| index_of_hash(self.selected@, h, k) {
                                    let k = choose|k: int| index_of_hash(self.selected@, h, k);
                                    assert(index_of_hash(o, h, k));
                                }
                            }
                        }
                        assert forall|h: u64|
                            #[trigger] self.hash_to_idx@.contains_key(h) implies index_of_hash(self.selected@, h, self.hash_to_idx@[h] as int) by {
                            if h != hash {
                                let k = old(self).hash_to_idx@[h] as int;
                                assert(index_of_hash(o, h, k));
                                assert(k != i as int);
                            }
                        }
                        assert forall|k: int|
                            0 <= k < self.width implies #[trigger] self.seg.leaves()[k] == (
                                true,
                                self.selected@[k].0.spec_score(),
                                k as usize,
                            ) by {
                            if k != i as int {
                                assert(old(self).seg.leaves()[k] == (true, o[k].0.spec_score(), k as usize));
                            }
                        }
                        assert forall|k: int| self.width <= k < self.seg.spec_n() implies !(#[trigger] self.seg.leaves()[k]).0 by {
                            assert(!old(self).seg.leaves()[k].0);
                        }
                    }
                } else {
                    let i = self.selected.len();
                    self.hash_to_idx.insert(hash, i);
                    self.selected.push((cand, parent));
                    proof {
                        let o = old(self).selected@;
                        assert forall|a: int, b: int|
                            0 <= a < self.selected@.len() && 0 <= b < self.selected@.len() && a != b implies #[trigger] self.selected@[a].0.spec_hash()
                                != #[trigger] self.selected@[b].0.spec_hash() by {
                            if a == i as int {
                                assert(!index_of_hash(o, hash, b));
                            } else if b == i as int {
                                assert(!index_of_hash(o, hash, a));
                            } else {
                                assert(o[a] == self.selected@[a]);
                                assert(o[b] == self.selected@[b]);
                            }
                        }
                        assert forall|h: u64|
                            #[trigger] self.hash_to_idx@.contains_key(h) <==> exists|k: int| index_of_hash(self.selected@, h, k) by {
                            if h == hash {
                                assert(index_of_hash(self.selected@, h, i as int));
                            } else {
                                if old(self).hash_to_idx@.contains_key(h) {
                                    let k = choose|k: int| index_of_hash(o, h, k);
                                    assert(index_of_hash(self.selected@, h, k));
                                }
                                if exists|k: int| index_of_hash(self.selected@, h, k) {
                                    let k = choose|k: int| index_of_hash(self.selected@, h, k);
                                    assert(k != i as int);
                                    assert(index_of_hash(o, h, k));
                                }
                            }
                        }
                        assert forall|h: u64|
                            #[trigger] self.hash_to_idx@.contains_key(h) implies index_of_hash(self.selected@, h, self.hash_to_idx@[h] as int) by {
                            if h != hash {
                                let k = old(self).hash_to_idx@[h] as int;
                                assert(index_of_hash(o, h, k));
                                assert(self.selected@[k] == o[k]);
                            }
                        }
                    }
                    if self.width == self.selected.len() {
                        self.full = true;
                        let w = self.width;
                        let mut k: usize = 0;
                        let ghost sel0 = self.selected@;
                        let ghost map0 = self.hash_to_idx@;
                        while k < w
                            invariant
                                w == self.width,
                                self.log@ == old(self).log@,
                                self.full,
                                self.selected@ == sel0,
                                self.hash_to_idx@ == map0,
                                self.selected@.len() == w,
                                self.seg.wf(),
                                self.seg.spec_n() >= w,
                                k <= w,
                                forall|j: int| 0 <= j < k ==> #[trigger] self.seg.leaves()[j] == (
                                    true,
                                    self.selected@[j].0.spec_score(),
                                    j as usize,
                                ),
                                forall|j: int| w <= j < self.seg.spec_n() ==> !(#[trigger] self.seg.leaves()[j]).0,
                            decreases w - k,
                        {
                            let sc = self.selected[k].0.score();
                            self.seg.unfix_set(k, sc);
                            k = k + 1;
                        }
                        self.seg.fix();
                    }
                }
            },
        }
    }
}

} // verus!
