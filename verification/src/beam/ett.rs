use vstd::prelude::*;
use crate::beam::selector::{lemma_offered_push, offered, pushed, BeamCandidate, MaxSegSelector};

verus! {

/// A search state that moves forward along an action and back again.
/// What the search reads of a state is its model: applying and undoing an
/// action are stated on models, and undoing an action right after applying
/// it gives the model back.
pub trait BeamState: Sized {
    type Action: Clone;
    type Candidate: BeamCandidate<Action = Self::Action>;
    type Model;

    /// What the search reads of this state.
    spec fn model(&self) -> Self::Model;

    /// The state's own bookkeeping holds.
    spec fn ready(&self) -> bool;

    /// The model that applying `act` leads to.
    spec fn model_forward(m: Self::Model, act: Self::Action) -> Self::Model;

    /// The model that undoing `act` leads to.
    spec fn model_backward(m: Self::Model, act: Self::Action) -> Self::Model;

    /// `cands` lists the moves available at a state of model `m`.
    spec fn cands_of(m: Self::Model, cands: Vec<Self::Candidate>) -> bool;

    /// Undoing an action right after applying it gives the model back.
    proof fn lemma_backward_undoes(m: Self::Model, act: Self::Action)
        ensures
            Self::model_backward(Self::model_forward(m, act), act) == m,
    ;

    /// Applies `act`.
    fn forward(&mut self, act: &Self::Action)
        requires
            old(self).ready(),
        ensures
            final(self).ready(),
            final(self).model() == Self::model_forward(old(self).model(), *act),
    ;

    /// Undoes `act`.
    fn backward(&mut self, act: &Self::Action)
        requires
            old(self).ready(),
        ensures
            final(self).ready(),
            final(self).model() == Self::model_backward(old(self).model(), *act),
    ;

    /// The moves available from this state.
    fn next_candidates(&self) -> (r: Vec<Self::Candidate>)
        requires
            self.ready(),
        ensures
            Self::cands_of(self.model(), r),
    ;
}

/// The model reached from `m` by applying `acts` in order.
pub open spec fn replay<S: BeamState>(m: S::Model, acts: Seq<S::Action>) -> S::Model
    decreases acts.len(),
{
    if acts.len() == 0 {
        m
    } else {
        S::model_forward(replay::<S>(m, acts.drop_last()), acts.last())
    }
}

/// Applying one more action to a replayed model replays the longer list.
pub proof fn lemma_replay_push<S: BeamState>(m: S::Model, acts: Seq<S::Action>, a: S::Action)
    ensures
        replay::<S>(m, acts.push(a)) == S::model_forward(replay::<S>(m, acts), a),
{
    assert(acts.push(a).drop_last() =~= acts);
}

/// Undoing the last action of a replayed list gives the model before it.
pub proof fn lemma_replay_pop<S: BeamState>(m: S::Model, acts: Seq<S::Action>)
    requires
        acts.len() > 0,
    ensures
        S::model_backward(replay::<S>(m, acts), acts.last()) == replay::<S>(m, acts.drop_last()),
{
    S::lemma_backward_undoes(replay::<S>(m, acts.drop_last()), acts.last());
}

/// Offering each group `(candidates, parent)` of `groups` in turn to the
/// kept candidates `o` (full or not, of width `width`) leaves `f`.
pub open spec fn offered_groups<C: BeamCandidate>(
    o: Seq<(C, usize)>,
    ofull: bool,
    width: nat,
    groups: Seq<(Seq<C>, usize)>,
    f: Seq<(C, usize)>,
    ffull: bool,
) -> bool
    decreases groups.len(),
{
    if groups.len() == 0 {
        f == o && ffull == ofull
    } else {
        exists|m: Seq<(C, usize)>, mfull: bool|
            #![trigger offered(m, mfull, width, groups.last().0, groups.last().1, f, ffull)]
            offered_groups(o, ofull, width, groups.drop_last(), m, mfull) && offered(
                m,
                mfull,
                width,
                groups.last().0,
                groups.last().1,
                f,
                ffull,
            )
    }
}

/// One more group offered extends the chain.
pub proof fn lemma_offered_groups_push<C: BeamCandidate>(
    o: Seq<(C, usize)>,
    ofull: bool,
    width: nat,
    groups: Seq<(Seq<C>, usize)>,
    m: Seq<(C, usize)>,
    mfull: bool,
    g: (Seq<C>, usize),
    f: Seq<(C, usize)>,
    ffull: bool,
)
    requires
        offered_groups(o, ofull, width, groups, m, mfull),
        offered(m, mfull, width, g.0, g.1, f, ffull),
    ensures
        offered_groups(o, ofull, width, groups.push(g), f, ffull),
{
    let gs = groups.push(g);
    assert(gs.drop_last() =~= groups);
    assert(gs.last() == g);
    assert(offered_groups(o, ofull, width, gs.drop_last(), m, mfull) && offered(m, mfull, width, gs.last().0, gs.last().1, f, ffull));
    assert(gs.len() > 0);
}

/// How many of the first `k` steps of `tour` go down, less how many go up.
pub open spec fn tour_balance<A>(tour: Seq<Edge<A>>, k: int) -> int
    decreases k,
{
    if k <= 0 {
        0
    } else if tour[k - 1].down {
        tour_balance(tour, k - 1) + 1
    } else {
        tour_balance(tour, k - 1) - 1
    }
}

/// In a well-formed tour, the steps down less the steps up among the first
/// `k` are the length of the path they lead to: never negative, and zero
/// where the tour is back at the root.
pub proof fn lemma_tour_balance<A>(tour: Seq<Edge<A>>, k: int)
    requires
        0 <= k <= tour.len(),
        tour_ok(tour, k),
    ensures
        tour_balance(tour, k) == tour_path(tour, k).len(),
        tour_balance(tour, k) >= 0,
    decreases k,
{
    if k > 0 {
        assert(tour_ok(tour, k - 1));
        lemma_tour_balance(tour, k - 1);
    }
}

/// A step of an Euler tour: down along `act`, or back up.
pub struct Edge<A> {
    pub act: A,
    pub down: bool,
}

/// The actions from the root to where the first `k` steps of `tour` lead.
pub open spec fn tour_path<A>(tour: Seq<Edge<A>>, k: int) -> Seq<A>
    decreases k,
{
    if k <= 0 {
        Seq::empty()
    } else {
        let p = tour_path(tour, k - 1);
        if tour[k - 1].down {
            p.push(tour[k - 1].act)
        } else if p.len() > 0 {
            p.drop_last()
        } else {
            p
        }
    }
}

/// No step among the first `k` goes up from the root.
pub open spec fn tour_ok<A>(tour: Seq<Edge<A>>, k: int) -> bool {
    forall|j: int| 0 <= j < k && !(#[trigger] tour[j]).down ==> tour_path(tour, j).len() > 0
}

/// Each action of `b` is a clone of the action at the same place in `a`.
pub open spec fn clones_of<A: Clone>(a: Seq<A>, b: Seq<A>) -> bool {
    &&& a.len() == b.len()
    &&& forall|k: int| 0 <= k < a.len() ==> cloned(#[trigger] a[k], b[k])
}

/// The path to position `p` of `tour` is the path to the parent of one of
/// the candidates `kept` (in the tour `old`), followed by that candidate's move.
pub open spec fn extends_kept<A: Clone, C: BeamCandidate<Action = A>>(
    old: Seq<Edge<A>>,
    kept: Seq<(C, usize)>,
    tour: Seq<Edge<A>>,
    p: int,
) -> bool {
    exists|j: int|
        0 <= j < kept.len() && {
            let before = tour_path(old, kept[j].1 as int);
            let after = tour_path(tour, p);
            &&& after.len() == before.len() + 1
            &&& after.last() == (#[trigger] kept[j]).0.spec_action()
            &&& clones_of(before, after.drop_last())
        }
}

/// The path to a position depends only on the steps before it.
pub proof fn lemma_tour_path_prefix<A>(a: Seq<Edge<A>>, b: Seq<Edge<A>>, k: int)
    requires
        0 <= k <= a.len(),
        k <= b.len(),
        a.subrange(0, k) == b.subrange(0, k),
    ensures
        tour_path(a, k) == tour_path(b, k),
    decreases k,
{
    if k > 0 {
        assert(a[k - 1] == a.subrange(0, k)[k - 1]);
        assert(b[k - 1] == b.subrange(0, k)[k - 1]);
        assert(a.subrange(0, k - 1) =~= a.subrange(0, k).subrange(0, k - 1));
        assert(b.subrange(0, k - 1) =~= b.subrange(0, k).subrange(0, k - 1));
        lemma_tour_path_prefix(a, b, k - 1);
    }
}

/// Appending a step leaves the paths to earlier positions alone.
pub proof fn lemma_tour_path_push<A>(a: Seq<Edge<A>>, e: Edge<A>, k: int)
    requires
        0 <= k <= a.len(),
    ensures
        tour_path(a.push(e), k) == tour_path(a, k),
{
    assert(a.push(e).subrange(0, k) =~= a.subrange(0, k));
    lemma_tour_path_prefix(a.push(e), a, k);
}

/// Appending a step to a well-formed tour keeps it well formed (an up step
/// only where the path is not empty) and keeps the paths to earlier places.
pub proof fn lemma_tour_append<A: Clone, C: BeamCandidate<Action = A>>(
    tour: Seq<Edge<A>>,
    e: Edge<A>,
    old: Seq<Edge<A>>,
    old_kept: Seq<(C, usize)>,
    kept: Seq<(C, usize)>,
)
    requires
        tour_ok(tour, tour.len() as int),
        !e.down ==> tour_path(tour, tour.len() as int).len() > 0,
        forall|k: int|
            0 <= k < kept.len() ==> 0 < (#[trigger] kept[k]).1 <= tour.len() && extends_kept(
                old,
                old_kept,
                tour,
                kept[k].1 as int,
            ),
    ensures
        tour_ok(tour.push(e), (tour.len() + 1) as int),
        tour_path(tour.push(e), (tour.len() + 1) as int) == if e.down {
            tour_path(tour, tour.len() as int).push(e.act)
        } else {
            tour_path(tour, tour.len() as int).drop_last()
        },
        forall|k: int|
            0 <= k < kept.len() ==> 0 < (#[trigger] kept[k]).1 <= tour.len() + 1 && extends_kept(
                old,
                old_kept,
                tour.push(e),
                kept[k].1 as int,
            ),
{
    let t2 = tour.push(e);
    lemma_tour_path_push(tour, e, tour.len() as int);
    assert forall|j: int| 0 <= j < tour.len() + 1 && !(#[trigger] t2[j]).down implies tour_path(t2, j).len() > 0 by {
        lemma_tour_path_push(tour, e, j);
        if j < tour.len() {
            assert(t2[j] == tour[j]);
        }
    }
    assert forall|k: int|
        0 <= k < kept.len() implies 0 < (#[trigger] kept[k]).1 <= tour.len() + 1 && extends_kept(
            old,
            old_kept,
            t2,
            kept[k].1 as int,
        ) by {
        let p = kept[k].1 as int;
        assert(extends_kept(old, old_kept, tour, p));
        lemma_tour_path_push(tour, e, p);
        let j = choose|j: int|
            0 <= j < old_kept.len() && {
                let before = tour_path(old, old_kept[j].1 as int);
                let after = tour_path(tour, p);
                &&& after.len() == before.len() + 1
                &&& after.last() == (#[trigger] old_kept[j]).0.spec_action()
                &&& clones_of(before, after.drop_last())
            };
        assert(tour_path(t2, p) == tour_path(tour, p));
    }
}

/// The groups offered so far: each is the list of candidates that the
/// state reached from `root` along the path to a candidate kept before
/// (`srcs[g]`, a candidate and its place in `old_tour`) and that
/// candidate's move offers, with its parent place in a tour of `len` steps;
/// offered in turn from an empty selector of width `width`, they leave `f`.
pub open spec fn groups_ok<S: BeamState>(
    root: S::Model,
    old_tour: Seq<Edge<S::Action>>,
    old_kept: Seq<(S::Candidate, usize)>,
    width: nat,
    len: int,
    groups: Seq<(Seq<S::Candidate>, usize)>,
    srcs: Seq<(S::Candidate, usize)>,
    f: Seq<(S::Candidate, usize)>,
    ffull: bool,
) -> bool {
    &&& groups.len() == srcs.len()
    &&& offered_groups(Seq::empty(), false, width, groups, f, ffull)
    &&& forall|g: int|
        #![trigger srcs[g]]
        0 <= g < groups.len() ==> {
            &&& old_kept.contains(srcs[g])
            &&& 0 < groups[g].1 <= len
            &&& exists|cs: Vec<S::Candidate>|
                #[trigger] S::cands_of(
                    S::model_forward(replay::<S>(root, tour_path(old_tour, srcs[g].1 as int)), srcs[g].0.spec_action()),
                    cs,
                ) && groups[g].0 == cs@
        }
}

/// How many candidates the first `n` buckets hold.
pub open spec fn bucket_total<C>(b: Seq<Vec<C>>, n: int) -> int
    decreases n,
{
    if n <= 0 {
        0
    } else {
        bucket_total(b, n - 1) + b[n - 1]@.len()
    }
}

/// Changing one bucket changes the total by the change of its size.
pub proof fn lemma_bucket_total_update<C>(b: Seq<Vec<C>>, n: int, k: int, v: Vec<C>)
    requires
        0 <= k < b.len(),
        n <= b.len(),
    ensures
        bucket_total(b.update(k, v), n) == bucket_total(b, n) + if k < n { v@.len() - b[k]@.len() } else { 0 },
    decreases n,
{
    if n > 0 {
        lemma_bucket_total_update(b, n - 1, k, v);
    }
}

/// Empty buckets hold nothing.
pub proof fn lemma_bucket_total_empty<C>(b: Seq<Vec<C>>, n: int)
    requires
        n <= b.len(),
        forall|k: int| 0 <= k < n ==> (#[trigger] b[k])@.len() == 0,
    ensures
        bucket_total(b, n) == 0,
    decreases n,
{
    if n > 0 {
        lemma_bucket_total_empty(b, n - 1);
    }
}

/// Candidate `e` waits in the bucket of its place.
pub open spec fn in_bucket<C>(buckets: Seq<Vec<C>>, e: (C, usize)) -> bool {
    exists|m: int| 0 <= m < buckets[e.1 as int]@.len() && #[trigger] buckets[e.1 as int]@[m] == e.0
}

/// The groups offered stay within a tour that grows.
pub proof fn lemma_groups_ok_grow<S: BeamState>(
    root: S::Model,
    old_tour: Seq<Edge<S::Action>>,
    old_kept: Seq<(S::Candidate, usize)>,
    width: nat,
    len: int,
    len2: int,
    groups: Seq<(Seq<S::Candidate>, usize)>,
    srcs: Seq<(S::Candidate, usize)>,
    f: Seq<(S::Candidate, usize)>,
    ffull: bool,
)
    requires
        groups_ok::<S>(root, old_tour, old_kept, width, len, groups, srcs, f, ffull),
        len <= len2,
    ensures
        groups_ok::<S>(root, old_tour, old_kept, width, len2, groups, srcs, f, ffull),
{
}

/// A step of the search from the kept candidates `old_kept` expanded each
/// of them once: there are as many groups as kept candidates, every one is
/// among `srcs`, and the groups of candidates that their moves lead to
/// were offered in turn, leaving `f`.
pub open spec fn expansions<S: BeamState>(
    root: S::Model,
    old_tour: Seq<Edge<S::Action>>,
    old_kept: Seq<(S::Candidate, usize)>,
    width: nat,
    tour: Seq<Edge<S::Action>>,
    groups: Seq<(Seq<S::Candidate>, usize)>,
    srcs: Seq<(S::Candidate, usize)>,
    f: Seq<(S::Candidate, usize)>,
    ffull: bool,
) -> bool {
    &&& groups_ok::<S>(root, old_tour, old_kept, width, tour.len() as int, groups, srcs, f, ffull)
    &&& groups.len() == old_kept.len()
    &&& forall|j: int| 0 <= j < old_kept.len() ==> srcs.contains(#[trigger] old_kept[j])
}

/// Beam search over an Euler tour of the kept part of the search tree: the
/// state walks the tour forward and back instead of being copied.
pub struct BeamSearch<S: BeamState> {
    pub state: S,
    pub cur: Vec<Edge<S::Action>>,
    pub sz: usize,
    nxt: Vec<Edge<S::Action>>,
    downs: Vec<usize>,
    pub selector: MaxSegSelector<S::Candidate>,
}

impl<S: BeamState> BeamSearch<S> {
    /// The tour of the kept tree.
    pub closed spec fn tour(&self) -> Seq<Edge<S::Action>> {
        self.cur@
    }

    /// The candidates kept for the next step, each with its place in the tour.
    pub closed spec fn kept(&self) -> Seq<(S::Candidate, usize)> {
        self.selector.kept()
    }

    /// Whether as many candidates are kept as the width allows.
    pub closed spec fn kept_full(&self) -> bool {
        self.selector.is_full()
    }

    /// The search state.
    pub closed spec fn spec_state(&self) -> S {
        self.state
    }

    /// The most candidates kept per step.
    pub closed spec fn spec_width(&self) -> nat {
        self.selector.spec_width()
    }

    /// A well-formed search holds a tour that never goes up from the root,
    /// and every kept candidate hangs at a place of it.
    pub proof fn lemma_wf_tour(&self)
        requires
            self.wf(),
        ensures
            tour_ok(self.tour(), self.tour().len() as int),
            forall|k: int| 0 <= k < self.kept().len() ==> (#[trigger] self.kept()[k]).1 <= self.tour().len(),
    {
    }

    /// The tour is well formed, the selector consistent, every kept
    /// candidate hangs at a place of the tour, and the state is ready.
    pub closed spec fn wf(&self) -> bool {
        &&& self.cur@.len() == self.sz
        &&& tour_ok(self.cur@, self.sz as int)
        &&& self.selector.wf()
        &&& forall|k: int| 0 <= k < self.selector.kept().len() ==> (#[trigger] self.selector.kept()[k]).1 <= self.sz
        &&& self.state.ready()
    }

    /// A search from `root_state` keeping `width` candidates per step;
    /// `max_width` and `max_depth` size the tour and the stack up front.
    pub fn new(width: usize, max_width: usize, max_depth: usize, root_state: S) -> (r: Self)
        requires
            width <= usize::MAX / 4,
            root_state.ready(),
        ensures
            r.wf(),
            r.tour() == Seq::<Edge<S::Action>>::empty(),
            r.kept() == Seq::<(S::Candidate, usize)>::empty(),
            r.spec_width() == width,
            r.spec_state() == root_state,
    {
        BeamSearch {
            state: root_state,
            cur: Vec::with_capacity(max_width),
            sz: 0,
            nxt: Vec::with_capacity(max_width),
            downs: Vec::with_capacity(max_depth),
            selector: MaxSegSelector::new(width),
        }
    }

    /// Walks the state along the first `leaf` steps of the tour and returns the
    /// actions from the root to where they lead; the state is left there.
    pub fn acts(&mut self, leaf: usize) -> (r: Vec<S::Action>)
        requires
            old(self).wf(),
            leaf <= old(self).tour().len(),
        ensures
            final(self).wf(),
            final(self).tour() == old(self).tour(),
            final(self).kept() == old(self).kept(),
            final(self).spec_width() == old(self).spec_width(),
            clones_of(tour_path(old(self).tour(), leaf as int), r@),
            final(self).spec_state().model() == replay::<S>(
                old(self).spec_state().model(),
                tour_path(old(self).tour(), leaf as int),
            ),
    {
        let mut acts: Vec<S::Action> = Vec::new();
        let mut open: Vec<usize> = Vec::new();
        let mut i: usize = 0;
        while i < leaf
            invariant
                self.wf(),
                self.cur@ == old(self).cur@,
                self.selector == old(self).selector,
                leaf <= self.sz,
                i <= leaf,
                clones_of(tour_path(self.cur@, i as int), acts@),
                tour_path(self.cur@, i as int) == Seq::new(open@.len(), |k: int| self.cur@[open@[k] as int].act),
                forall|k: int| 0 <= k < open@.len() ==> #[trigger] open@[k] < i,
                self.state.model() == replay::<S>(old(self).state.model(), tour_path(self.cur@, i as int)),
            decreases leaf - i,
        {
            let ghost p = tour_path(self.cur@, i as int);
            if self.cur[i].down {
                self.state.forward(&self.cur[i].act);
                let a = self.cur[i].act.clone();
                acts.push(a);
                let ghost open0 = open@;
                open.push(i);
                proof {
                    assert(tour_path(self.cur@, i + 1) == p.push(self.cur@[i as int].act));
                    lemma_replay_push::<S>(old(self).state.model(), p, self.cur@[i as int].act);
                    assert forall|k: int| 0 <= k < p.len() + 1 implies cloned(#[trigger] p.push(self.cur@[i as int].act)[k], acts@[k]) by {
                        if k < p.len() {
                            assert(cloned(p[k], acts@[k]));
                        }
                    }
                    assert(Seq::new(open@.len(), |k: int| self.cur@[open@[k] as int].act) =~= p.push(self.cur@[i as int].act));
                }
            } else {
                assert(tour_path(self.cur@, i as int).len() > 0);
                let j = open.pop().unwrap();
                self.state.backward(&self.cur[j].act);
                acts.pop();
                proof {
                    assert(tour_path(self.cur@, i + 1) == p.drop_last());
                    assert(p.last() == self.cur@[j as int].act);
                    lemma_replay_pop::<S>(old(self).state.model(), p);
                    assert forall|k: int| 0 <= k < p.len() - 1 implies cloned(#[trigger] p.drop_last()[k], acts@[k]) by {
                        assert(p.drop_last()[k] == p[k]);
                    }
                    assert(Seq::new(open@.len(), |k: int| self.cur@[open@[k] as int].act) =~= p.drop_last());
                }
            }
            i = i + 1;
        }
        acts
    }

    /// While a step is being built: the current tour is read up to place `i`,
    /// `downs` holds the open down steps there, the first `dl` of which the
    /// next tour has entered, and every kept candidate hangs at a place of the
    /// next tour that extends the path of a candidate kept before.
    spec fn emit_inv(
        &self,
        old_cur: Seq<Edge<S::Action>>,
        old_kept: Seq<(S::Candidate, usize)>,
        width: nat,
        root: S::Model,
        i: int,
        dl: int,
    ) -> bool {
        let dr = self.downs@.len() as int;
        let stack = Seq::new(dr as nat, |k: int| old_cur[self.downs@[k] as int].act);
        &&& self.cur@ == old_cur
        &&& self.sz == old_cur.len()
        &&& tour_ok(old_cur, old_cur.len() as int)
        &&& 0 <= i <= old_cur.len()
        &&& 0 <= dl <= dr
        &&& forall|k: int|
            0 <= k < dr ==> (#[trigger] self.downs@[k]) < i && old_cur[self.downs@[k] as int].down
        &&& tour_path(old_cur, i) == stack
        &&& clones_of(stack.take(dl), tour_path(self.nxt@, self.nxt@.len() as int))
        &&& tour_ok(self.nxt@, self.nxt@.len() as int)
        &&& self.state.ready()
        &&& self.state.model() == replay::<S>(root, stack.take(dl))
        &&& self.selector.wf()
        &&& self.selector.spec_width() == width
        &&& forall|k: int|
            0 <= k < self.selector.kept().len() ==> 0 < (#[trigger] self.selector.kept()[k]).1
                <= self.nxt@.len() && extends_kept(
                old_cur,
                old_kept,
                self.nxt@,
                self.selector.kept()[k].1 as int,
            )
    }

    /// Enters, in the next tour, every open down step not entered yet.
    fn open_downs(
        &mut self,
        dl: usize,
        Ghost(old_cur): Ghost<Seq<Edge<S::Action>>>,
        Ghost(old_kept): Ghost<Seq<(S::Candidate, usize)>>,
        Ghost(width): Ghost<nat>,
        Ghost(root): Ghost<S::Model>,
        Ghost(i): Ghost<int>,
    ) -> (ndl: usize)
        requires
            old(self).emit_inv(old_cur, old_kept, width, root, i, dl as int),
        ensures
            final(self).emit_inv(old_cur, old_kept, width, root, i, ndl as int),
            ndl == final(self).downs@.len(),
            final(self).downs@ == old(self).downs@,
            final(self).nxt@.len() >= old(self).nxt@.len(),
            final(self).selector == old(self).selector,
    {
        let mut dl = dl;
        while dl < self.downs.len()
            invariant
                self.emit_inv(old_cur, old_kept, width, root, i, dl as int),
                self.downs@ == old(self).downs@,
                self.nxt@.len() >= old(self).nxt@.len(),
                self.selector == old(self).selector,
            decreases self.downs@.len() - dl,
        {
            let di = self.downs[dl];
            let a = self.cur[di].act.clone();
            self.state.forward(&self.cur[di].act);
            let ghost before = self.nxt@;
            let e = Edge { act: a, down: true };
            proof {
                lemma_tour_append(before, e, old_cur, old_kept, self.selector.kept());
            }
            self.nxt.push(e);
            proof {
                let dr = self.downs@.len() as int;
                let stack = Seq::new(dr as nat, |k: int| old_cur[self.downs@[k] as int].act);
                let np = tour_path(self.nxt@, self.nxt@.len() as int);
                assert(np == tour_path(before, before.len() as int).push(a));
                assert(stack.take(dl + 1) =~= stack.take(dl as int).push(stack[dl as int]));
                assert forall|k: int| 0 <= k < dl + 1 implies cloned(#[trigger] stack.take(dl + 1)[k], np[k]) by {
                    if k < dl {
                        assert(cloned(stack.take(dl as int)[k], tour_path(before, before.len() as int)[k]));
                    }
                }
                lemma_replay_push::<S>(root, stack.take(dl as int), stack[dl as int]);
            }
            dl = dl + 1;
        }
        dl
    }

    /// Enters the move of `cand`, offers what follows it to the selector, and
    /// comes back up.
    fn expand_one(
        &mut self,
        cand: S::Candidate,
        Ghost(old_cur): Ghost<Seq<Edge<S::Action>>>,
        Ghost(old_kept): Ghost<Seq<(S::Candidate, usize)>>,
        Ghost(width): Ghost<nat>,
        Ghost(root): Ghost<S::Model>,
        Ghost(i): Ghost<int>,
    ) -> (cs: Ghost<Vec<S::Candidate>>)
        requires
            old(self).emit_inv(old_cur, old_kept, width, root, i, old(self).downs@.len() as int),
            old_kept.contains((cand, i as usize)),
            0 <= i <= usize::MAX,
        ensures
            final(self).emit_inv(old_cur, old_kept, width, root, i, final(self).downs@.len() as int),
            final(self).downs@ == old(self).downs@,
            final(self).nxt@.len() == old(self).nxt@.len() + 2,
            final(self).nxt@.subrange(0, old(self).nxt@.len() as int) == old(self).nxt@,
            final(self).nxt@[old(self).nxt@.len() as int].down,
            final(self).nxt@[old(self).nxt@.len() as int].act == cand.spec_action(),
            !final(self).nxt@[old(self).nxt@.len() + 1int].down,
            cloned(cand.spec_action(), final(self).nxt@[old(self).nxt@.len() + 1int].act),
            final(self).state.model() == old(self).state.model(),
            S::cands_of(S::model_forward(old(self).state.model(), cand.spec_action()), cs@),
            offered(
                old(self).selector.kept(),
                old(self).selector.is_full(),
                old(self).selector.spec_width(),
                cs@@,
                (old(self).nxt@.len() + 1) as usize,
                final(self).selector.kept(),
                final(self).kept_full(),
            ),
    {
        let dl = self.downs.len();
        let a = cand.into_action();
        let ghost before = self.nxt@;
        let e = Edge { act: a, down: true };
        proof {
            lemma_tour_append(before, e, old_cur, old_kept, self.selector.kept());
        }
        self.nxt.push(e);
        let p = self.nxt.len();
        proof {
            let dr = self.downs@.len() as int;
            let stack = Seq::new(dr as nat, |k: int| old_cur[self.downs@[k] as int].act);
            let j = choose|j: int| 0 <= j < old_kept.len() && old_kept[j] == (cand, i as usize);
            let b = tour_path(old_cur, old_kept[j].1 as int);
            let af = tour_path(self.nxt@, p as int);
            assert(stack.take(dl as int) =~= stack);
            assert(af.drop_last() =~= tour_path(before, before.len() as int));
            assert(extends_kept(old_cur, old_kept, self.nxt@, p as int));
        }
        self.state.forward(&self.nxt[p - 1].act);
        let cands = self.state.next_candidates();
        let ghost kb = self.selector.kept();
        let ghost nxt1 = self.nxt@;
        let ghost cv = cands;
        let ghost cs = cands@;
        self.offer_all(cands, p);
        let ghost sel1 = self.selector;
        proof {
            assert(kb == old(self).selector.kept());
            assert(p == (old(self).nxt@.len() + 1) as usize);
            assert(offered(old(self).selector.kept(), old(self).selector.is_full(), old(self).selector.spec_width(), cs, p, self.selector.kept(), self.selector.is_full()));
        }
        proof {
            assert forall|k: int|
                0 <= k < self.selector.kept().len() implies 0 < (#[trigger] self.selector.kept()[k]).1
                    <= self.nxt@.len() && extends_kept(
                    old_cur,
                    old_kept,
                    self.nxt@,
                    self.selector.kept()[k].1 as int,
                ) by {
                let en = self.selector.kept()[k];
                if en.1 != p {
                    let m = choose|m: int| 0 <= m < kb.len() && kb[m] == en;
                    assert(kb[m].1 == en.1);
                }
            }
        }
        self.state.backward(&self.nxt[p - 1].act);
        proof {
            S::lemma_backward_undoes(old(self).state.model(), cand.spec_action());
        }
        let up = self.nxt[p - 1].act.clone();
        let ghost mid = self.nxt@;
        let e2 = Edge { act: up, down: false };
        proof {
            assert(tour_path(mid, mid.len() as int).len() > 0);
            lemma_tour_append(mid, e2, old_cur, old_kept, self.selector.kept());
        }
        self.nxt.push(e2);
        proof {
            let dr = self.downs@.len() as int;
            let stack = Seq::new(dr as nat, |k: int| old_cur[self.downs@[k] as int].act);
            assert(tour_path(mid, mid.len() as int) == tour_path(before, before.len() as int).push(a));
            assert(tour_path(self.nxt@, self.nxt@.len() as int) =~= tour_path(before, before.len() as int));
            assert(self.nxt@.subrange(0, before.len() as int) =~= before);
            assert(self.selector == sel1);
            assert(offered(old(self).selector.kept(), old(self).selector.is_full(), old(self).selector.spec_width(), cs, p, self.selector.kept(), self.selector.is_full()));
        }
        Ghost(cv)
    }

    /// Offers, in order, every candidate of `cands` to the selector with the
    /// parent place `p`.
    fn offer_all(&mut self, cands: Vec<S::Candidate>, p: usize)
        requires
            old(self).selector.wf(),
        ensures
            final(self).selector.wf(),
            final(self).selector.spec_width() == old(self).selector.spec_width(),
            final(self).cur@ == old(self).cur@,
            final(self).sz == old(self).sz,
            final(self).state == old(self).state,
            final(self).nxt@ == old(self).nxt@,
            final(self).downs@ == old(self).downs@,
            forall|k: int|
                0 <= k < final(self).selector.kept().len() ==> (#[trigger] final(self).selector.kept()[k]).1 == p
                    || old(self).selector.kept().contains(final(self).selector.kept()[k]),
            offered(
                old(self).selector.kept(),
                old(self).selector.is_full(),
                old(self).selector.spec_width(),
                cands@,
                p,
                final(self).selector.kept(),
                final(self).kept_full(),
            ),
    {
        let ghost c0 = cands@;
        let mut cands = cands;
        let mut rev: Vec<S::Candidate> = Vec::new();
        while cands.len() > 0
            invariant
                c0 == cands@ + rev@.reverse(),
            decreases cands@.len(),
        {
            let c = cands.pop().unwrap();
            let ghost r0 = rev@;
            rev.push(c);
            proof {
                assert(rev@.reverse() =~= seq![c] + r0.reverse());
                assert(c0 =~= cands@ + rev@.reverse());
            }
        }
        proof {
            assert(cands@ + rev@.reverse() =~= rev@.reverse());
            assert(c0.take(0) =~= Seq::<S::Candidate>::empty());
        }
        let ghost k0 = old(self).selector.kept();
        let ghost full0 = old(self).selector.is_full();
        let ghost w0 = old(self).selector.spec_width();
        while rev.len() > 0
            invariant
                c0 == c0.take(c0.len() - rev@.len()) + rev@.reverse(),
                rev@.len() <= c0.len(),
                offered(
                    k0,
                    full0,
                    w0,
                    c0.take(c0.len() - rev@.len()),
                    p,
                    self.selector.kept(),
                    self.selector.is_full(),
                ),
                w0 == old(self).selector.spec_width(),
                full0 == old(self).selector.is_full(),
                self.selector.wf(),
                self.selector.spec_width() == old(self).selector.spec_width(),
                self.cur@ == old(self).cur@,
                self.sz == old(self).sz,
                self.state == old(self).state,
                self.nxt@ == old(self).nxt@,
                self.downs@ == old(self).downs@,
                k0 == old(self).selector.kept(),
                forall|k: int|
                    0 <= k < self.selector.kept().len() ==> (#[trigger] self.selector.kept()[k]).1 == p
                        || k0.contains(self.selector.kept()[k]),
            decreases rev@.len(),
        {
            let ghost done = c0.len() - rev@.len();
            let ghost r0 = rev@;
            let c = rev.pop().unwrap();
            let ghost kb = self.selector.kept();
            let ghost fb = self.selector.is_full();
            self.selector.push(c, p);
            proof {
                assert(r0.reverse() =~= seq![c] + rev@.reverse());
                assert(c0[done] == c) by {
                    assert((c0.take(done) + r0.reverse())[done] == r0.reverse()[0]);
                }
                assert(c0.take(done + 1) =~= c0.take(done).push(c));
                lemma_offered_push(k0, full0, w0, c0.take(done), p, kb, fb, c, self.selector.kept(), self.selector.is_full());
                assert(c0 =~= c0.take(done + 1) + rev@.reverse());
                assert forall|k: int|
                    0 <= k < self.selector.kept().len() implies (#[trigger] self.selector.kept()[k]).1 == p
                        || k0.contains(self.selector.kept()[k]) by {
                    let en = self.selector.kept()[k];
                    if en.1 != p {
                        let m = choose|m: int| 0 <= m < kb.len() && kb[m] == en;
                        assert(kb[m].1 == en.1);
                    }
                }
            }
        }
    }

    /// Extends the search by one step: every kept candidate's move enters the
    /// tour, and the moves that follow it are offered to the selector. On the
    /// first call, the moves from the root are offered. The state ends where
    /// it started, at the root.
    #[verifier::rlimit(100)]
    pub fn extend(&mut self)
        requires
            old(self).wf(),
            old(self).kept().len() == 0 ==> old(self).tour().len() == 0,
            old(self).tour().len() < usize::MAX,
        ensures
            final(self).wf(),
            final(self).spec_width() == old(self).spec_width(),
            final(self).spec_state().model() == old(self).spec_state().model(),
            tour_ok(final(self).tour(), final(self).tour().len() as int),
            tour_path(final(self).tour(), final(self).tour().len() as int).len() == 0,
            old(self).kept().len() == 0 ==> {
                &&& final(self).tour() == old(self).tour()
                &&& exists|cs: Vec<S::Candidate>|
                    #[trigger] S::cands_of(old(self).spec_state().model(), cs) && offered(
                        Seq::empty(),
                        false,
                        old(self).spec_width(),
                        cs@,
                        0,
                        final(self).kept(),
                        final(self).kept_full(),
                    )
            },
            old(self).kept().len() > 0 ==> {
                &&& forall|k: int|
                    0 <= k < final(self).kept().len() ==> 0 < (#[trigger] final(self).kept()[k]).1
                        <= final(self).tour().len() && extends_kept(
                        old(self).tour(),
                        old(self).kept(),
                        final(self).tour(),
                        final(self).kept()[k].1 as int,
                    )
                &&& exists|groups: Seq<(Seq<S::Candidate>, usize)>, srcs: Seq<(S::Candidate, usize)>|
                    #[trigger] expansions::<S>(
                        old(self).spec_state().model(),
                        old(self).tour(),
                        old(self).kept(),
                        old(self).spec_width(),
                        final(self).tour(),
                        groups,
                        srcs,
                        final(self).kept(),
                        final(self).kept_full(),
                    )
            },
    {
        if self.selector.kept_items().len() == 0 {
            let cands = self.state.next_candidates();
            let ghost cv = cands;
            self.offer_all(cands, 0);
            proof {
                old(self).selector.lemma_empty_not_full();
                assert(old(self).selector.kept() =~= Seq::<(S::Candidate, usize)>::empty());
                assert(S::cands_of(old(self).spec_state().model(), cv));
                assert forall|k: int| 0 <= k < self.kept().len() implies (#[trigger] self.kept()[k]).1 <= self.sz by {
                    if self.kept()[k].1 != 0 {
                        assert(old(self).selector.kept().len() == 0);
                    }
                }
            }
            return;
        }
        let ghost old_cur = self.cur@;
        let ghost old_kept = self.selector.kept();
        let ghost width = self.selector.spec_width();
        let ghost root = self.state.model();
        let sz = self.sz;
        let mut sel = self.selector.clear();
        let mut buckets: Vec<Vec<S::Candidate>> = Vec::new();
        let mut q: usize = 0;
        while q <= sz
            invariant
                q <= sz + 1,
                sz < usize::MAX,
                buckets@.len() == q,
                forall|b: int| 0 <= b < q ==> (#[trigger] buckets@[b])@.len() == 0,
                bucket_total(buckets@, q as int) == 0,
            decreases sz + 1 - q,
        {
            let ghost b0 = buckets@;
            buckets.push(Vec::new());
            proof {
                assert(buckets@.subrange(0, q as int) =~= b0);
                lemma_bucket_total_empty(buckets@, q + 1);
            }
            q = q + 1;
        }
        while sel.len() > 0
            invariant
                buckets@.len() == sz + 1,
                sel@ == old_kept.take(sel@.len() as int),
                sel@.len() <= old_kept.len(),
                forall|k: int| 0 <= k < old_kept.len() ==> (#[trigger] old_kept[k]).1 <= sz,
                forall|b: int, j: int|
                    0 <= b <= sz && 0 <= j < buckets@[b]@.len() ==> old_kept.contains(
                        (#[trigger] buckets@[b]@[j], b as usize),
                    ),
                forall|j: int| sel@.len() <= j < old_kept.len() ==> in_bucket(buckets@, #[trigger] old_kept[j]),
                bucket_total(buckets@, sz + 1) == old_kept.len() - sel@.len(),
            decreases sel@.len(),
        {
            let ghost n = sel@.len();
            let (c, par) = sel.pop().unwrap();
            proof {
                assert(old_kept[n - 1] == (c, par));
                assert(sel@ =~= old_kept.take(sel@.len() as int));
                assert(par <= sz);
            }
            if par <= sz {
                let ghost bb = buckets@;
                buckets[par].push(c);
                proof {
                    assert(buckets@ == bb.update(par as int, buckets@[par as int]));
                    lemma_bucket_total_update(bb, sz + 1, par as int, buckets@[par as int]);
                    assert forall|b: int, j: int|
                        0 <= b <= sz && 0 <= j < buckets@[b]@.len() implies old_kept.contains(
                            (#[trigger] buckets@[b]@[j], b as usize),
                        ) by {
                        if b != par as int || j < bb[b]@.len() {
                            assert(buckets@[b]@[j] == bb[b]@[j]);
                        } else {
                            assert(old_kept[n - 1] == (c, par));
                        }
                    }
                    assert forall|j: int| sel@.len() <= j < old_kept.len() implies in_bucket(buckets@, #[trigger] old_kept[j]) by {
                        let b = old_kept[j].1 as int;
                        if j == n - 1 {
                            assert(buckets@[b]@[bb[b]@.len() as int] == old_kept[j].0);
                        } else {
                            assert(in_bucket(bb, old_kept[j]));
                            let m = choose|m: int| 0 <= m < bb[b]@.len() && #[trigger] bb[b]@[m] == old_kept[j].0;
                            assert(buckets@[b]@[m] == old_kept[j].0);
                        }
                    }
                }
            }
        }
        self.nxt.clear();
        self.downs.clear();
        let mut dl: usize = 0;
        let mut i: usize = 0;
        let ghost mut groups: Seq<(Seq<S::Candidate>, usize)> = Seq::empty();
        let ghost mut srcs: Seq<(S::Candidate, usize)> = Seq::empty();
        proof {
            let stack = Seq::new(0nat, |k: int| old_cur[self.downs@[k] as int].act);
            assert(stack.take(0) =~= tour_path(self.nxt@, 0));
            assert(tour_path(old_cur, 0) =~= stack);
            assert(stack.take(0) =~= Seq::<S::Action>::empty());
            assert(self.selector.kept() =~= Seq::<(S::Candidate, usize)>::empty());
        }
        loop
            invariant
                self.emit_inv(old_cur, old_kept, width, root, i as int, dl as int),
                i <= sz,
                sz == old_cur.len(),
                sz < usize::MAX,
                buckets@.len() == sz + 1,
                forall|b: int, j: int|
                    0 <= b <= sz && 0 <= j < buckets@[b]@.len() ==> old_kept.contains(
                        (#[trigger] buckets@[b]@[j], b as usize),
                    ),
                forall|k: int| 0 <= k < old_kept.len() ==> (#[trigger] old_kept[k]).1 <= sz,
                groups_ok::<S>(root, old_cur, old_kept, width, self.nxt@.len() as int, groups, srcs, self.selector.kept(), self.selector.is_full()),
                forall|j: int|
                    0 <= j < old_kept.len() ==> srcs.contains(#[trigger] old_kept[j]) || (old_kept[j].1 >= i && in_bucket(buckets@, old_kept[j])),
                srcs.len() + bucket_total(buckets@, sz + 1) == old_kept.len(),
                forall|b: int| 0 <= b < i ==> (#[trigger] buckets@[b])@.len() == 0,
            ensures
                self.emit_inv(old_cur, old_kept, width, root, sz as int, dl as int),
                groups_ok::<S>(root, old_cur, old_kept, width, self.nxt@.len() as int, groups, srcs, self.selector.kept(), self.selector.is_full()),
                forall|j: int| 0 <= j < old_kept.len() ==> srcs.contains(#[trigger] old_kept[j]),
                srcs.len() == old_kept.len(),
            decreases sz - i,
        {
            while buckets[i].len() > 0
                invariant
                    self.emit_inv(old_cur, old_kept, width, root, i as int, dl as int),
                    i <= sz,
                    sz == old_cur.len(),
                    buckets@.len() == sz + 1,
                    forall|b: int, j: int|
                        0 <= b <= sz && 0 <= j < buckets@[b]@.len() ==> old_kept.contains(
                            (#[trigger] buckets@[b]@[j], b as usize),
                        ),
                    forall|k: int| 0 <= k < old_kept.len() ==> (#[trigger] old_kept[k]).1 <= sz,
                    groups_ok::<S>(root, old_cur, old_kept, width, self.nxt@.len() as int, groups, srcs, self.selector.kept(), self.selector.is_full()),
                    forall|j: int|
                        0 <= j < old_kept.len() ==> srcs.contains(#[trigger] old_kept[j]) || (old_kept[j].1 >= i && in_bucket(buckets@, old_kept[j])),
                    srcs.len() + bucket_total(buckets@, sz + 1) == old_kept.len(),
                    forall|b: int| 0 <= b < i ==> (#[trigger] buckets@[b])@.len() == 0,
                decreases buckets@[i as int]@.len(),
            {
                let ghost bb = buckets@;
                let c = buckets[i].pop().unwrap();
                proof {
                    assert(buckets@ == bb.update(i as int, buckets@[i as int]));
                    lemma_bucket_total_update(bb, sz + 1, i as int, buckets@[i as int]);
                    assert(c == bb[i as int]@[bb[i as int]@.len() - 1]);
                    assert(buckets@[i as int]@ =~= bb[i as int]@.drop_last());
                    assert forall|b: int, j: int|
                        0 <= b <= sz && 0 <= j < buckets@[b]@.len() implies old_kept.contains(
                            (#[trigger] buckets@[b]@[j], b as usize),
                        ) by {
                        assert(buckets@[b]@[j] == bb[b]@[j]);
                    }
                }
                let ghost n0 = self.nxt@.len() as int;
                dl = self.open_downs(dl, Ghost(old_cur), Ghost(old_kept), Ghost(width), Ghost(root), Ghost(i as int));
                proof {
                    lemma_groups_ok_grow::<S>(root, old_cur, old_kept, width, n0, self.nxt@.len() as int, groups, srcs, self.selector.kept(), self.selector.is_full());
                }
                let ghost k0 = self.selector.kept();
                let ghost f0 = self.selector.is_full();
                let ghost st = self.state.model();
                let ghost n1 = self.nxt@.len() as int;
                let ghost g0 = groups;
                let ghost s0 = srcs;
                proof {
                    let stack = Seq::new(self.downs@.len() as nat, |k: int| old_cur[self.downs@[k] as int].act);
                    assert(stack.take(dl as int) =~= stack);
                    assert(st == replay::<S>(root, tour_path(old_cur, i as int)));
                }
                let Ghost(cv) = self.expand_one(c, Ghost(old_cur), Ghost(old_kept), Ghost(width), Ghost(root), Ghost(i as int));
                proof {
                    assert(self.nxt.len() as int == self.nxt@.len());
                }
                let ghost p = (n1 + 1) as usize;
                proof {
                    assert(p as int == n1 + 1);
                    lemma_groups_ok_grow::<S>(root, old_cur, old_kept, width, n1, self.nxt@.len() as int, g0, s0, k0, f0);
                    let g = (cv@, p);
                    lemma_offered_groups_push(Seq::empty(), false, width, g0, k0, f0, g, self.selector.kept(), self.selector.is_full());
                    groups = g0.push(g);
                    srcs = s0.push((c, i as usize));
                    assert(offered_groups(Seq::empty(), false, width, groups, self.selector.kept(), self.selector.is_full()));
                    assert(srcs[srcs.len() - 1] == (c, i as usize));
                    assert forall|g2: int|
                        #![trigger srcs[g2]]
                        0 <= g2 < groups.len() implies {
                            &&& old_kept.contains(srcs[g2])
                            &&& 0 < groups[g2].1 <= self.nxt@.len()
                            &&& exists|cs: Vec<S::Candidate>|
                                #[trigger] S::cands_of(
                                    S::model_forward(replay::<S>(root, tour_path(old_cur, srcs[g2].1 as int)), srcs[g2].0.spec_action()),
                                    cs,
                                ) && groups[g2].0 == cs@
                        } by {
                        if g2 < g0.len() {
                            assert(srcs[g2] == s0[g2]);
                            assert(groups[g2] == g0[g2]);
                        } else {
                            assert(S::cands_of(S::model_forward(st, c.spec_action()), cv));
                        }
                    }
                    assert(groups_ok::<S>(root, old_cur, old_kept, width, self.nxt@.len() as int, groups, srcs, self.selector.kept(), self.selector.is_full()));
                    assert forall|j: int|
                        0 <= j < old_kept.len() implies srcs.contains(#[trigger] old_kept[j]) || (old_kept[j].1 >= i && in_bucket(buckets@, old_kept[j])) by {
                        if s0.contains(old_kept[j]) {
                            let w = choose|w: int| 0 <= w < s0.len() && s0[w] == old_kept[j];
                            assert(srcs[w] == s0[w]);
                        } else {
                            let b = old_kept[j].1 as int;
                            assert(in_bucket(bb, old_kept[j]));
                            let m = choose|m: int| 0 <= m < bb[b]@.len() && #[trigger] bb[b]@[m] == old_kept[j].0;
                            if b == i && m == bb[b]@.len() - 1 {
                                assert(old_kept[j] == (c, i as usize));
                                assert(srcs[srcs.len() - 1] == old_kept[j]);
                            } else {
                                assert(buckets@[b]@[m] == bb[b]@[m]);
                                assert(in_bucket(buckets@, old_kept[j]));
                            }
                        }
                    }
                }
            }
            proof {
                assert forall|j: int|
                    0 <= j < old_kept.len() && old_kept[j].1 == i implies srcs.contains(#[trigger] old_kept[j]) by {
                    if !srcs.contains(old_kept[j]) {
                        assert(buckets@[i as int]@.len() == 0);
                    }
                }
            }
            if i == sz {
                proof {
                    lemma_bucket_total_empty(buckets@, sz + 1);
                }
                break;
            }
            if self.cur[i].down {
                let ghost stack_old = Seq::new(self.downs@.len(), |k: int| old_cur[self.downs@[k] as int].act);
                assert(clones_of(stack_old.take(dl as int), tour_path(self.nxt@, self.nxt@.len() as int)));
                self.downs.push(i);
                proof {
                    let dr = self.downs@.len() as int;
                    let stack = Seq::new(dr as nat, |k: int| old_cur[self.downs@[k] as int].act);
                    let st0 = Seq::new((dr - 1) as nat, |k: int| old_cur[self.downs@[k] as int].act);
                    assert(stack =~= st0.push(old_cur[i as int].act));
                    assert(stack.take(dl as int) =~= st0.take(dl as int));
                    assert(st0 =~= stack_old);
                    assert(tour_path(old_cur, i + 1) == tour_path(old_cur, i as int).push(old_cur[i as int].act));
                    assert(tour_path(old_cur, i + 1) == stack);
                    assert(forall|k: int|
                        0 <= k < dr ==> (#[trigger] self.downs@[k]) < i + 1 && old_cur[self.downs@[k] as int].down);
                    assert(clones_of(stack.take(dl as int), tour_path(self.nxt@, self.nxt@.len() as int)));
                    assert(0 <= dl <= dr);
                }
            } else {
                assert(tour_path(old_cur, i as int).len() > 0);
                let ghost dl0 = dl as int;
                let ghost stack0 = Seq::new(self.downs@.len(), |k: int| old_cur[self.downs@[k] as int].act);
                let ghost path0 = tour_path(self.nxt@, self.nxt@.len() as int);
                assert(clones_of(stack0.take(dl0), path0));
                if dl == self.downs.len() {
                    let di = self.downs[dl - 1];
                    self.state.backward(&self.cur[di].act);
                    proof {
                        assert(stack0.take(dl0).last() == old_cur[di as int].act);
                        lemma_replay_pop::<S>(root, stack0.take(dl0));
                    }
                    let a = self.cur[di].act.clone();
                    let ghost before = self.nxt@;
                    let e = Edge { act: a, down: false };
                    proof {
                        lemma_tour_append(before, e, old_cur, old_kept, self.selector.kept());
                        lemma_groups_ok_grow::<S>(root, old_cur, old_kept, width, before.len() as int, before.len() + 1int, groups, srcs, self.selector.kept(), self.selector.is_full());
                    }
                    self.nxt.push(e);
                    dl = dl - 1;
                }
                self.downs.pop();
                proof {
                    let dr = self.downs@.len() as int;
                    let stack = Seq::new(dr as nat, |k: int| old_cur[self.downs@[k] as int].act);
                    assert(tour_path(old_cur, i + 1) =~= stack);
                    assert(stack =~= stack0.drop_last());
                    let np = tour_path(self.nxt@, self.nxt@.len() as int);
                    if dl0 == dr + 1 {
                        assert(np == path0.drop_last());
                        assert(stack.take(dl as int) =~= stack0.take(dl0).drop_last());
                        assert forall|k: int| 0 <= k < dl implies cloned(#[trigger] stack.take(dl as int)[k], np[k]) by {
                            assert(cloned(stack0.take(dl0)[k], path0[k]));
                        }
                    } else {
                        assert(np == path0);
                        assert(stack.take(dl as int) =~= stack0.take(dl0));
                    }
                    assert(clones_of(stack.take(dl as int), tour_path(self.nxt@, self.nxt@.len() as int)));
                    assert(forall|k: int|
                        0 <= k < dr ==> (#[trigger] self.downs@[k]) < i + 1 && old_cur[self.downs@[k] as int].down);
                    assert(tour_ok(self.nxt@, self.nxt@.len() as int));
                    assert(0 <= dl <= dr);
                }
            }
            i = i + 1;
        }
        while dl > 0
            invariant
                self.emit_inv(old_cur, old_kept, width, root, sz as int, dl as int),
                groups_ok::<S>(root, old_cur, old_kept, width, self.nxt@.len() as int, groups, srcs, self.selector.kept(), self.selector.is_full()),
                forall|j: int| 0 <= j < old_kept.len() ==> srcs.contains(#[trigger] old_kept[j]),
                srcs.len() == old_kept.len(),
            decreases dl,
        {
            let di = self.downs[dl - 1];
            self.state.backward(&self.cur[di].act);
            proof {
                let stack = Seq::new(self.downs@.len() as nat, |k: int| old_cur[self.downs@[k] as int].act);
                assert(stack.take(dl as int).last() == old_cur[di as int].act);
                assert(stack.take(dl as int).drop_last() =~= stack.take(dl - 1));
                lemma_replay_pop::<S>(root, stack.take(dl as int));
            }
            let a = self.cur[di].act.clone();
            let ghost before = self.nxt@;
            let e = Edge { act: a, down: false };
            proof {
                lemma_tour_append(before, e, old_cur, old_kept, self.selector.kept());
                lemma_groups_ok_grow::<S>(root, old_cur, old_kept, width, before.len() as int, before.len() + 1int, groups, srcs, self.selector.kept(), self.selector.is_full());
            }
            self.nxt.push(e);
            dl = dl - 1;
        }
        proof {
            let stack = Seq::new(self.downs@.len() as nat, |k: int| old_cur[self.downs@[k] as int].act);
            assert(stack.take(0) =~= Seq::<S::Action>::empty());
        }
        std::mem::swap(&mut self.cur, &mut self.nxt);
        self.sz = self.cur.len();
        proof {
            assert(expansions::<S>(root, old_cur, old_kept, width, self.cur@, groups, srcs, self.selector.kept(), self.selector.is_full()));
            assert(expansions::<S>(
                old(self).spec_state().model(),
                old(self).tour(),
                old(self).kept(),
                old(self).spec_width(),
                self.tour(),
                groups,
                srcs,
                self.kept(),
                self.kept_full(),
            ));
        }
    }
}

} // verus!
