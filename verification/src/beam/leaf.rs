use vstd::prelude::*;
use std::collections::HashSet;
use crate::beam::ett::{clones_of, lemma_tour_path_prefix, lemma_tour_path_push, tour_ok, tour_path, Edge};
use crate::beam::selector::{pushed, BeamCandidate, MaxSegSelector};

verus! {

broadcast use vstd::std_specs::hash::group_hash_axioms, vstd::seq_lib::group_to_multiset_ensures;

/// A search state that moves forward along an action and back again, and
/// tells its score (lower is better) and hash. What the search reads of a
/// state is its model: applying and undoing an action are stated on
/// models, and undoing an action right after applying it gives the model
/// back.
pub trait BeamState: Sized {
    type Action: Clone;
    type Model;

    /// What the search reads of this state.
    spec fn model(&self) -> Self::Model;

    /// The state's own bookkeeping holds.
    spec fn ready(&self) -> bool;

    /// The model that applying `act` leads to.
    spec fn model_forward(m: Self::Model, act: Self::Action) -> Self::Model;

    /// The model that undoing `act` leads to.
    spec fn model_backward(m: Self::Model, act: Self::Action) -> Self::Model;

    /// `acts` lists the moves available at a state of model `m`.
    spec fn acts_of(m: Self::Model, acts: Vec<Self::Action>) -> bool;

    /// The score of a state of model `m`.
    spec fn model_score(m: Self::Model) -> i64;

    /// The hash of this state.
    spec fn spec_hash(&self) -> u64;

    /// Undoing an action right after applying it gives the model back.
    proof fn lemma_backward_undoes(m: Self::Model, act: Self::Action)
        ensures
            Self::model_backward(Self::model_forward(m, act), act) == m,
    ;

    /// Applies `act`.
    fn forward(&mut self, act: &Self::Action)
        requires
            old(self).ready(),
        ensures
            final(self).ready(),
            final(self).model() == Self::model_forward(old(self).model(), *act),
    ;

    /// Undoes `act`.
    fn backward(&mut self, act: &Self::Action)
        requires
            old(self).ready(),
        ensures
            final(self).ready(),
            final(self).model() == Self::model_backward(old(self).model(), *act),
    ;

    /// The moves available from this state.
    fn next_acts(&self) -> (r: Vec<Self::Action>)
        requires
            self.ready(),
        ensures
            Self::acts_of(self.model(), r),
    ;

    /// The score of this state.
    fn score(&self) -> (r: i64)
        requires
            self.ready(),
        ensures
            r == Self::model_score(self.model()),
    ;

    /// The hash of this state.
    fn hash(&self) -> (r: u64)
        ensures
            r == self.spec_hash(),
    ;
}

/// The model reached from `m` by applying `acts` in order.
pub open spec fn replay<S: BeamState>(m: S::Model, acts: Seq<S::Action>) -> S::Model
    decreases acts.len(),
{
    if acts.len() == 0 {
        m
    } else {
        S::model_forward(replay::<S>(m, acts.drop_last()), acts.last())
    }
}

/// Applying one more action to a replayed model replays the longer list.
pub proof fn lemma_replay_push<S: BeamState>(m: S::Model, acts: Seq<S::Action>, a: S::Action)
    ensures
        replay::<S>(m, acts.push(a)) == S::model_forward(replay::<S>(m, acts), a),
{
    assert(acts.push(a).drop_last() =~= acts);
}

/// Undoing the last action of a replayed list gives the model before it.
pub proof fn lemma_replay_pop<S: BeamState>(m: S::Model, acts: Seq<S::Action>)
    requires
        acts.len() > 0,
    ensures
        S::model_backward(replay::<S>(m, acts), acts.last()) == replay::<S>(m, acts.drop_last()),
{
    S::lemma_backward_undoes(replay::<S>(m, acts.drop_last()), acts.last());
}

/// A state reached by the search: its place in the tour, its score and its
/// hash.
#[derive(Clone, Copy)]
pub struct Leaf {
    pub t: usize,
    pub score: i64,
    pub hash: u64,
}

/// `f` is `o` followed, for each move of `acts` in order, by a step down
/// along a clone of it and a step back up along another clone.
pub open spec fn paired<A: Clone>(o: Seq<Edge<A>>, f: Seq<Edge<A>>, acts: Seq<A>) -> bool {
    &&& f.len() == o.len() + 2 * acts.len()
    &&& f.subrange(0, o.len() as int) == o
    &&& forall|k: int|
        0 <= k < acts.len() ==> {
            &&& (#[trigger] f[o.len() + 2 * k]).down
            &&& cloned(acts[k], f[o.len() + 2 * k].act)
            &&& !f[o.len() + 2 * k + 1].down
            &&& cloned(acts[k], f[o.len() + 2 * k + 1].act)
        }
}

/// Collects the leaves that a step of the search reaches.
pub trait Selector {
    /// The selector's own bookkeeping is consistent.
    spec fn inv(&self) -> bool;

    /// The leaves held.
    spec fn leaves(&self) -> Seq<Leaf>;

    /// Every leaf offered so far, in order.
    spec fn offers(&self) -> Seq<Leaf>;

    /// Offers `leaf`: it joins the leaves offered, and afterwards every leaf
    /// held is `leaf` or was held before.
    fn push(&mut self, leaf: Leaf)
        requires
            old(self).inv(),
        ensures
            final(self).inv(),
            final(self).offers() == old(self).offers().push(leaf),
            forall|k: int|
                0 <= k < final(self).leaves().len() ==> #[trigger] final(self).leaves()[k] == leaf
                    || old(self).leaves().contains(final(self).leaves()[k]),
    ;
}

/// Leaf `lf` was grown at place `p` of `old` with the move `a`: its place
/// in `tour` is reached by the path to `p` followed by `a`, and its score is
/// that of the model `a` leads to from the model that path leads to from
/// `root`.
pub open spec fn grown_at<S: BeamState>(
    root: S::Model,
    old: Seq<Edge<S::Action>>,
    tour: Seq<Edge<S::Action>>,
    p: int,
    a: S::Action,
    lf: Leaf,
) -> bool {
    let before = tour_path(old, p);
    let after = tour_path(tour, lf.t as int);
    &&& 0 < lf.t <= tour.len()
    &&& lf.score == S::model_score(S::model_forward(replay::<S>(root, before), a))
    &&& after.len() == before.len() + 1
    &&& clones_of(before, after.drop_last())
    &&& cloned(a, after.last())
}

/// A longer tour keeps the places of the leaves grown.
pub proof fn lemma_grown_at_push<S: BeamState>(
    root: S::Model,
    old: Seq<Edge<S::Action>>,
    tour: Seq<Edge<S::Action>>,
    e: Edge<S::Action>,
    p: int,
    a: S::Action,
    lf: Leaf,
)
    requires
        grown_at::<S>(root, old, tour, p, a, lf),
    ensures
        grown_at::<S>(root, old, tour.push(e), p, a, lf),
{
    lemma_tour_path_push(tour, e, lf.t as int);
}

/// Leaf `lf` was grown at a marked place of `old`, with one of the moves
/// listed there.
pub open spec fn grown_from<S: BeamState>(
    root: S::Model,
    old: Seq<Edge<S::Action>>,
    marks: Seq<bool>,
    tour: Seq<Edge<S::Action>>,
    lf: Leaf,
) -> bool {
    exists|p: int, acts: Vec<S::Action>, k: int|
        #![trigger S::acts_of(replay::<S>(root, tour_path(old, p)), acts), grown_at::<S>(root, old, tour, p, acts@[k], lf)]
        0 <= p < marks.len() && marks[p] && S::acts_of(replay::<S>(root, tour_path(old, p)), acts) && 0 <= k
            < acts@.len() && grown_at::<S>(root, old, tour, p, acts@[k], lf)
}

/// The leaves `leaves` were held before or were grown at marked places of
/// `old` (from `root`) and hang at places of `tour`.
pub open spec fn leaves_ok<S: BeamState>(
    root: S::Model,
    leaves: Seq<Leaf>,
    old_leaves: Seq<Leaf>,
    old: Seq<Edge<S::Action>>,
    marks: Seq<bool>,
    tour: Seq<Edge<S::Action>>,
) -> bool {
    forall|k: int|
        0 <= k < leaves.len() ==> old_leaves.contains(#[trigger] leaves[k]) || grown_from::<S>(
            root,
            old,
            marks,
            tour,
            leaves[k],
        )
}

/// The places and moves that a step grows, in order: for each marked place
/// before `i`, each move of its list.
pub open spec fn grow_order<A>(marks: Seq<bool>, lists: Seq<Vec<A>>, i: int) -> Seq<(int, A)>
    decreases i,
{
    if i <= 0 {
        Seq::empty()
    } else if marks[i - 1] {
        grow_order(marks, lists, i - 1) + lists[i - 1]@.map_values(|a: A| (i - 1, a))
    } else {
        grow_order(marks, lists, i - 1)
    }
}

/// Lists past place `i` do not change the order of what grows before it.
pub proof fn lemma_grow_order_frame<A>(marks: Seq<bool>, lists: Seq<Vec<A>>, x: Vec<A>, i: int)
    requires
        i <= lists.len(),
    ensures
        grow_order(marks, lists.push(x), i) == grow_order(marks, lists, i),
    decreases i,
{
    if i > 0 {
        lemma_grow_order_frame(marks, lists, x, i - 1);
        assert(lists.push(x)[i - 1] == lists[i - 1]);
    }
}

/// `ls` are the leaves a step offered for the marked places before `i`,
/// in order: one for each move listed at each of those places, with that
/// move's score and its place in `tour`.
pub open spec fn grown_leaves<S: BeamState>(
    root: S::Model,
    old: Seq<Edge<S::Action>>,
    marks: Seq<bool>,
    tour: Seq<Edge<S::Action>>,
    lists: Seq<Vec<S::Action>>,
    i: int,
    ls: Seq<Leaf>,
) -> bool {
    let g = grow_order(marks, lists, i);
    &&& lists.len() >= i
    &&& forall|p: int| 0 <= p < i && marks[p] ==> #[trigger] S::acts_of(replay::<S>(root, tour_path(old, p)), lists[p])
    &&& ls.len() == g.len()
    &&& forall|n: int| 0 <= n < ls.len() ==> #[trigger] grown_at::<S>(root, old, tour, g[n].0, g[n].1, ls[n])
}

/// A longer tour keeps the leaves grown.
pub proof fn lemma_grown_leaves_push<S: BeamState>(
    root: S::Model,
    old: Seq<Edge<S::Action>>,
    marks: Seq<bool>,
    tour: Seq<Edge<S::Action>>,
    e: Edge<S::Action>,
    lists: Seq<Vec<S::Action>>,
    i: int,
    ls: Seq<Leaf>,
)
    requires
        grown_leaves::<S>(root, old, marks, tour, lists, i, ls),
    ensures
        grown_leaves::<S>(root, old, marks, tour.push(e), lists, i, ls),
{
    let g = grow_order(marks, lists, i);
    assert forall|n: int| 0 <= n < ls.len() implies #[trigger] grown_at::<S>(root, old, tour.push(e), g[n].0, g[n].1, ls[n]) by {
        lemma_grown_at_push::<S>(root, old, tour, e, g[n].0, g[n].1, ls[n]);
    }
}

/// Growing a marked place `i` with the moves `acts` adds, after the leaves
/// grown before it, one leaf per move.
pub proof fn lemma_grown_leaves_grow<S: BeamState>(
    root: S::Model,
    old: Seq<Edge<S::Action>>,
    marks: Seq<bool>,
    tour: Seq<Edge<S::Action>>,
    lists: Seq<Vec<S::Action>>,
    i: int,
    l0: Seq<Leaf>,
    acts: Vec<S::Action>,
    ls: Seq<Leaf>,
)
    requires
        grown_leaves::<S>(root, old, marks, tour, lists, i, l0),
        lists.len() == i,
        0 <= i < marks.len(),
        marks[i],
        S::acts_of(replay::<S>(root, tour_path(old, i)), acts),
        ls.len() == l0.len() + acts@.len(),
        ls.subrange(0, l0.len() as int) == l0,
        forall|k: int| 0 <= k < acts@.len() ==> #[trigger] grown_at::<S>(root, old, tour, i, acts@[k], ls[l0.len() + k]),
    ensures
        grown_leaves::<S>(root, old, marks, tour, lists.push(acts), i + 1, ls),
{
    lemma_grow_order_frame(marks, lists, acts, i);
    let l2 = lists.push(acts);
    let g = grow_order(marks, l2, i + 1);
    let g0 = grow_order(marks, lists, i);
    assert(l2[i] == acts);
    assert(g =~= g0 + acts@.map_values(|a: S::Action| (i, a)));
    assert forall|n: int| 0 <= n < ls.len() implies #[trigger] grown_at::<S>(root, old, tour, g[n].0, g[n].1, ls[n]) by {
        if n < l0.len() {
            assert(ls[n] == ls.subrange(0, l0.len() as int)[n]);
            assert(ls[n] == l0[n]);
            assert(g[n] == g0[n]);
            assert(grown_at::<S>(root, old, tour, g0[n].0, g0[n].1, l0[n]));
        } else {
            let k = n - l0.len();
            assert(g[n] == acts@.map_values(|a: S::Action| (i, a))[k]);
            assert(g[n] == (i, acts@[k]));
            assert(grown_at::<S>(root, old, tour, i, acts@[k], ls[l0.len() + k]));
        }
    }
    assert forall|p: int| 0 <= p < i + 1 && marks[p] implies #[trigger] S::acts_of(replay::<S>(root, tour_path(old, p)), l2[p]) by {
        if p < i {
            assert(l2[p] == lists[p]);
        }
    }
}

/// A place that is not marked grows nothing.
pub proof fn lemma_grown_leaves_skip<S: BeamState>(
    root: S::Model,
    old: Seq<Edge<S::Action>>,
    marks: Seq<bool>,
    tour: Seq<Edge<S::Action>>,
    lists: Seq<Vec<S::Action>>,
    i: int,
    ls: Seq<Leaf>,
    x: Vec<S::Action>,
)
    requires
        grown_leaves::<S>(root, old, marks, tour, lists, i, ls),
        lists.len() == i,
        0 <= i < marks.len(),
        !marks[i],
    ensures
        grown_leaves::<S>(root, old, marks, tour, lists.push(x), i + 1, ls),
{
    lemma_grow_order_frame(marks, lists, x, i);
    let l2 = lists.push(x);
    assert forall|p: int| 0 <= p < i + 1 && marks[p] implies #[trigger] S::acts_of(replay::<S>(root, tour_path(old, p)), l2[p]) by {
        assert(l2[p] == lists[p]);
    }
}

/// A tour that carries on another keeps the leaves grown in it.
pub proof fn lemma_grown_leaves_extend<S: BeamState>(
    root: S::Model,
    old: Seq<Edge<S::Action>>,
    marks: Seq<bool>,
    tour: Seq<Edge<S::Action>>,
    tour2: Seq<Edge<S::Action>>,
    lists: Seq<Vec<S::Action>>,
    i: int,
    ls: Seq<Leaf>,
)
    requires
        grown_leaves::<S>(root, old, marks, tour, lists, i, ls),
        tour.len() <= tour2.len(),
        tour2.subrange(0, tour.len() as int) == tour,
    ensures
        grown_leaves::<S>(root, old, marks, tour2, lists, i, ls),
{
    let g = grow_order(marks, lists, i);
    assert forall|n: int| 0 <= n < ls.len() implies #[trigger] grown_at::<S>(root, old, tour2, g[n].0, g[n].1, ls[n]) by {
        assert(grown_at::<S>(root, old, tour, g[n].0, g[n].1, ls[n]));
        let t = ls[n].t as int;
        assert(tour2.subrange(0, t) =~= tour.subrange(0, t)) by {
            assert forall|m: int| 0 <= m < t implies tour2.subrange(0, t)[m] == tour.subrange(0, t)[m] by {
                assert(tour2.subrange(0, tour.len() as int)[m] == tour2[m]);
            }
        }
        lemma_tour_path_prefix(tour2, tour, t);
    }
}

/// Appending a step to a well-formed tour keeps it well formed and keeps
/// the paths to earlier places, so the leaves there stay where they were.
pub proof fn lemma_leaf_append<S: BeamState>(
    root: S::Model,
    tour: Seq<Edge<S::Action>>,
    e: Edge<S::Action>,
    leaves: Seq<Leaf>,
    old_leaves: Seq<Leaf>,
    old: Seq<Edge<S::Action>>,
    marks: Seq<bool>,
)
    requires
        tour_ok(tour, tour.len() as int),
        !e.down ==> tour_path(tour, tour.len() as int).len() > 0,
        leaves_ok::<S>(root, leaves, old_leaves, old, marks, tour),
    ensures
        tour_ok(tour.push(e), (tour.len() + 1) as int),
        tour_path(tour.push(e), (tour.len() + 1) as int) == if e.down {
            tour_path(tour, tour.len() as int).push(e.act)
        } else {
            tour_path(tour, tour.len() as int).drop_last()
        },
        leaves_ok::<S>(root, leaves, old_leaves, old, marks, tour.push(e)),
{
    let t2 = tour.push(e);
    lemma_tour_path_push(tour, e, tour.len() as int);
    assert forall|j: int| 0 <= j < tour.len() + 1 && !(#[trigger] t2[j]).down implies tour_path(t2, j).len() > 0 by {
        lemma_tour_path_push(tour, e, j);
        if j < tour.len() {
            assert(t2[j] == tour[j]);
        }
    }
    assert forall|k: int| 0 <= k < leaves.len() implies old_leaves.contains(#[trigger] leaves[k]) || grown_from::<S>(
        root,
        old,
        marks,
        t2,
        leaves[k],
    ) by {
        if !old_leaves.contains(leaves[k]) {
            let lf = leaves[k];
            let (p, acts, q) = choose|p: int, acts: Vec<S::Action>, q: int|
                #![trigger S::acts_of(replay::<S>(root, tour_path(old, p)), acts), grown_at::<S>(root, old, tour, p, acts@[q], lf)]
                0 <= p < marks.len() && marks[p] && S::acts_of(replay::<S>(root, tour_path(old, p)), acts) && 0 <= q
                    < acts@.len() && grown_at::<S>(root, old, tour, p, acts@[q], lf);
            lemma_grown_at_push::<S>(root, old, tour, e, p, acts@[q], lf);
        }
    }
}

/// Beam search over an Euler tour of the search tree, where the leaves to
/// grow are marked in the tour: the state walks the tour forward and back
/// instead of being copied.
pub struct BeamSearch<S: BeamState> {
    pub state: S,
    cur: Vec<Edge<S::Action>>,
    marked: Vec<bool>,
    nxt: Vec<Edge<S::Action>>,
    downs: Vec<usize>,
}

impl<S: BeamState> BeamSearch<S> {
    /// The tour of the kept tree.
    pub closed spec fn tour(&self) -> Seq<Edge<S::Action>> {
        self.cur@
    }

    /// Which places of the tour grow at the next step.
    pub closed spec fn marks(&self) -> Seq<bool> {
        self.marked@
    }

    /// The search state.
    pub closed spec fn spec_state(&self) -> S {
        self.state
    }

    /// A well-formed search holds a tour that never goes up from the root,
    /// and a mark for each of its places.
    pub proof fn lemma_wf_tour(&self)
        requires
            self.wf(),
        ensures
            tour_ok(self.tour(), self.tour().len() as int),
            self.marks().len() == self.tour().len() + 1,
    {
    }

    /// A mark for each place of the tour, its ends included, the tour well
    /// formed, and the state ready.
    pub closed spec fn wf(&self) -> bool {
        &&& self.marked@.len() == self.cur@.len() + 1
        &&& tour_ok(self.cur@, self.cur@.len() as int)
        &&& self.state.ready()
    }

    /// A search from `root_state`, with the root marked to grow;
    /// `max_width` and `max_depth` size the tour and the stack up front.
    pub fn new(max_width: usize, max_depth: usize, root_state: S) -> (r: Self)
        requires
            root_state.ready(),
        ensures
            r.wf(),
            r.tour() == Seq::<Edge<S::Action>>::empty(),
            r.marks() == seq![true],
            r.spec_state() == root_state,
    {
        let mut marked: Vec<bool> = Vec::new();
        marked.push(true);
        BeamSearch {
            state: root_state,
            cur: Vec::with_capacity(max_width),
            marked,
            nxt: Vec::with_capacity(max_width),
            downs: Vec::with_capacity(max_depth),
        }
    }

    /// Marks the place of `leaf` to grow at the next step.
    pub fn select(&mut self, leaf: &Leaf)
        requires
            old(self).wf(),
            leaf.t <= old(self).tour().len(),
        ensures
            final(self).wf(),
            final(self).tour() == old(self).tour(),
            final(self).marks() == old(self).marks().update(leaf.t as int, true),
            final(self).spec_state() == old(self).spec_state(),
    {
        self.marked.set(leaf.t, true);
    }

    /// Walks the state along the first `leaf.t` steps of the tour and
    /// returns the actions from the root to where they lead; the state is
    /// left there.
    pub fn acts(&mut self, leaf: &Leaf) -> (r: Vec<S::Action>)
        requires
            old(self).wf(),
            leaf.t <= old(self).tour().len(),
        ensures
            final(self).wf(),
            final(self).tour() == old(self).tour(),
            final(self).marks() == old(self).marks(),
            clones_of(tour_path(old(self).tour(), leaf.t as int), r@),
            final(self).spec_state().model() == replay::<S>(
                old(self).spec_state().model(),
                tour_path(old(self).tour(), leaf.t as int),
            ),
    {
        let mut acts: Vec<S::Action> = Vec::new();
        let mut open: Vec<usize> = Vec::new();
        let mut i: usize = 0;
        while i < leaf.t
            invariant
                self.wf(),
                self.cur@ == old(self).cur@,
                self.marked@ == old(self).marked@,
                leaf.t <= self.cur@.len(),
                i <= leaf.t,
                clones_of(tour_path(self.cur@, i as int), acts@),
                tour_path(self.cur@, i as int) == Seq::new(open@.len(), |k: int| self.cur@[open@[k] as int].act),
                forall|k: int| 0 <= k < open@.len() ==> #[trigger] open@[k] < i,
                self.state.model() == replay::<S>(old(self).state.model(), tour_path(self.cur@, i as int)),
            decreases leaf.t - i,
        {
            let ghost p = tour_path(self.cur@, i as int);
            if self.cur[i].down {
                self.state.forward(&self.cur[i].act);
                let a = self.cur[i].act.clone();
                acts.push(a);
                open.push(i);
                proof {
                    assert(tour_path(self.cur@, i + 1) == p.push(self.cur@[i as int].act));
                    lemma_replay_push::<S>(old(self).state.model(), p, self.cur@[i as int].act);
                    assert forall|k: int| 0 <= k < p.len() + 1 implies cloned(#[trigger] p.push(self.cur@[i as int].act)[k], acts@[k]) by {
                        if k < p.len() {
                            assert(cloned(p[k], acts@[k]));
                        }
                    }
                    assert(Seq::new(open@.len(), |k: int| self.cur@[open@[k] as int].act) =~= p.push(self.cur@[i as int].act));
                }
            } else {
                assert(tour_path(self.cur@, i as int).len() > 0);
                let j = open.pop().unwrap();
                self.state.backward(&self.cur[j].act);
                acts.pop();
                proof {
                    assert(tour_path(self.cur@, i + 1) == p.drop_last());
                    assert(p.last() == self.cur@[j as int].act);
                    lemma_replay_pop::<S>(old(self).state.model(), p);
                    assert forall|k: int| 0 <= k < p.len() - 1 implies cloned(#[trigger] p.drop_last()[k], acts@[k]) by {
                        assert(p.drop_last()[k] == p[k]);
                    }
                    assert(Seq::new(open@.len(), |k: int| self.cur@[open@[k] as int].act) =~= p.drop_last());
                }
            }
            i = i + 1;
        }
        acts
    }

    /// While a step is being built: the current tour is read up to place `i`,
    /// `downs` holds the open down steps there, the first `dl` of which the
    /// next tour has entered, and every leaf offered so far hangs at a place
    /// of the next tour that extends a marked place.
    spec fn emit_inv(
        &self,
        old_cur: Seq<Edge<S::Action>>,
        old_marks: Seq<bool>,
        leaves: Seq<Leaf>,
        old_leaves: Seq<Leaf>,
        root: S::Model,
        i: int,
        dl: int,
    ) -> bool {
        let dr = self.downs@.len() as int;
        let stack = Seq::new(dr as nat, |k: int| old_cur[self.downs@[k] as int].act);
        &&& self.cur@ == old_cur
        &&& self.marked@ == old_marks
        &&& old_marks.len() == old_cur.len() + 1
        &&& tour_ok(old_cur, old_cur.len() as int)
        &&& 0 <= i <= old_cur.len()
        &&& 0 <= dl <= dr
        &&& forall|k: int|
            0 <= k < dr ==> (#[trigger] self.downs@[k]) < i && old_cur[self.downs@[k] as int].down
        &&& tour_path(old_cur, i) == stack
        &&& clones_of(stack.take(dl), tour_path(self.nxt@, self.nxt@.len() as int))
        &&& tour_ok(self.nxt@, self.nxt@.len() as int)
        &&& self.state.ready()
        &&& self.state.model() == replay::<S>(root, stack.take(dl))
        &&& leaves_ok::<S>(root, leaves, old_leaves, old_cur, old_marks, self.nxt@)
    }

    /// Enters, in the next tour, every open down step not entered yet.
    fn open_downs(
        &mut self,
        dl: usize,
        Ghost(old_cur): Ghost<Seq<Edge<S::Action>>>,
        Ghost(old_marks): Ghost<Seq<bool>>,
        Ghost(leaves): Ghost<Seq<Leaf>>,
        Ghost(old_leaves): Ghost<Seq<Leaf>>,
        Ghost(root): Ghost<S::Model>,
        Ghost(i): Ghost<int>,
    ) -> (ndl: usize)
        requires
            old(self).emit_inv(old_cur, old_marks, leaves, old_leaves, root, i, dl as int),
        ensures
            final(self).emit_inv(old_cur, old_marks, leaves, old_leaves, root, i, ndl as int),
            ndl == final(self).downs@.len(),
            final(self).downs@ == old(self).downs@,
            final(self).nxt@.len() >= old(self).nxt@.len(),
            final(self).nxt@.subrange(0, old(self).nxt@.len() as int) == old(self).nxt@,
    {
        let mut dl = dl;
        while dl < self.downs.len()
            invariant
                self.emit_inv(old_cur, old_marks, leaves, old_leaves, root, i, dl as int),
                self.downs@ == old(self).downs@,
                self.nxt@.len() >= old(self).nxt@.len(),
                self.nxt@.subrange(0, old(self).nxt@.len() as int) == old(self).nxt@,
            decreases self.downs@.len() - dl,
        {
            let di = self.downs[dl];
            let a = self.cur[di].act.clone();
            self.state.forward(&self.cur[di].act);
            let ghost before = self.nxt@;
            let e = Edge { act: a, down: true };
            proof {
                lemma_leaf_append::<S>(root, before, e, leaves, old_leaves, old_cur, old_marks);
            }
            self.nxt.push(e);
            proof {
                let dr = self.downs@.len() as int;
                let stack = Seq::new(dr as nat, |k: int| old_cur[self.downs@[k] as int].act);
                let np = tour_path(self.nxt@, self.nxt@.len() as int);
                assert(np == tour_path(before, before.len() as int).push(a));
                assert(stack.take(dl + 1) =~= stack.take(dl as int).push(stack[dl as int]));
                assert forall|k: int| 0 <= k < dl + 1 implies cloned(#[trigger] stack.take(dl + 1)[k], np[k]) by {
                    if k < dl {
                        assert(cloned(stack.take(dl as int)[k], tour_path(before, before.len() as int)[k]));
                    }
                }
                lemma_replay_push::<S>(root, stack.take(dl as int), stack[dl as int]);
                assert(self.nxt@.subrange(0, old(self).nxt@.len() as int) =~= before.subrange(0, old(self).nxt@.len() as int));
            }
            dl = dl + 1;
        }
        dl
    }

    /// Grows the marked place `i`: for each move from the state, enters it,
    /// offers the leaf it reaches, and comes back up.
    fn grow_here<Sel: Selector>(
        &mut self,
        selector: &mut Sel,
        Ghost(old_cur): Ghost<Seq<Edge<S::Action>>>,
        Ghost(old_marks): Ghost<Seq<bool>>,
        Ghost(old_leaves): Ghost<Seq<Leaf>>,
        Ghost(root): Ghost<S::Model>,
        Ghost(i): Ghost<int>,
    )
        requires
            old(self).emit_inv(old_cur, old_marks, old(selector).leaves(), old_leaves, root, i, old(self).downs@.len() as int),
            old_marks[i],
            old(selector).inv(),
        ensures
            final(self).emit_inv(old_cur, old_marks, final(selector).leaves(), old_leaves, root, i, final(self).downs@.len() as int),
            final(selector).inv(),
            final(self).downs@ == old(self).downs@,
            final(self).state.model() == old(self).state.model(),
            exists|acts: Vec<S::Action>|
                #[trigger] S::acts_of(old(self).state.model(), acts) && paired(old(self).nxt@, final(self).nxt@, acts@)
                    && final(selector).offers().len() == old(selector).offers().len() + acts@.len()
                    && final(selector).offers().subrange(0, old(selector).offers().len() as int) == old(selector).offers()
                    && forall|k: int|
                    0 <= k < acts@.len() ==> #[trigger] grown_at::<S>(
                        root,
                        old_cur,
                        final(self).nxt@,
                        i,
                        acts@[k],
                        final(selector).offers()[old(selector).offers().len() + k],
                    ),
    {
        let acts = self.state.next_acts();
        let mut k: usize = 0;
        let ghost n0 = self.nxt@;
        let ghost o0 = selector.offers();
        let ghost st = self.state.model();
        proof {
            assert(n0.subrange(0, n0.len() as int) =~= n0);
            assert(paired(n0, self.nxt@, acts@.take(0)));
            assert(selector.offers().subrange(0, o0.len() as int) =~= o0);
            let dr = self.downs@.len() as int;
            let stack = Seq::new(dr as nat, |k: int| old_cur[self.downs@[k] as int].act);
            assert(stack.take(dr) =~= stack);
        }
        while k < acts.len()
            invariant
                self.emit_inv(old_cur, old_marks, selector.leaves(), old_leaves, root, i, self.downs@.len() as int),
                self.downs@ == old(self).downs@,
                n0 == old(self).nxt@,
                paired(n0, self.nxt@, acts@.take(k as int)),
                self.state.model() == st,
                st == old(self).state.model(),
                st == replay::<S>(root, tour_path(old_cur, i)),
                S::acts_of(st, acts),
                old_marks[i],
                selector.inv(),
                k <= acts@.len(),
                o0 == old(selector).offers(),
                selector.offers().len() == o0.len() + k,
                selector.offers().subrange(0, o0.len() as int) == o0,
                forall|m: int|
                    0 <= m < k ==> #[trigger] grown_at::<S>(root, old_cur, self.nxt@, i, acts@[m], selector.offers()[o0.len() + m]),
            decreases acts@.len() - k,
        {
            let dl = self.downs.len();
            let a = acts[k].clone();
            self.state.forward(&acts[k]);
            let ghost before = self.nxt@;
            let e = Edge { act: a, down: true };
            proof {
                lemma_leaf_append::<S>(root, before, e, selector.leaves(), old_leaves, old_cur, old_marks);
                assert forall|m: int| 0 <= m < k implies #[trigger] grown_at::<S>(root, old_cur, before.push(e), i, acts@[m], selector.offers()[o0.len() + m]) by {
                    lemma_grown_at_push::<S>(root, old_cur, before, e, i, acts@[m], selector.offers()[o0.len() + m]);
                }
            }
            self.nxt.push(e);
            let t = self.nxt.len();
            let leaf = Leaf { t, score: self.state.score(), hash: self.state.hash() };
            let ghost lb = selector.leaves();
            let ghost ob = selector.offers();
            selector.push(leaf);
            proof {
                let dr = self.downs@.len() as int;
                let stack = Seq::new(dr as nat, |k: int| old_cur[self.downs@[k] as int].act);
                let bp = tour_path(before, before.len() as int);
                let af = tour_path(self.nxt@, t as int);
                assert(stack.take(dl as int) =~= stack);
                assert(af.drop_last() =~= bp);
                assert forall|m: int| 0 <= m < stack.len() implies cloned(#[trigger] stack[m], af.drop_last()[m]) by {
                    assert(cloned(stack.take(dl as int)[m], bp[m]));
                }
                assert(af.last() == a);
                assert(grown_at::<S>(root, old_cur, self.nxt@, i, acts@[k as int], leaf));
                assert(S::acts_of(replay::<S>(root, tour_path(old_cur, i)), acts));
                assert(grown_from::<S>(root, old_cur, old_marks, self.nxt@, leaf));
                assert forall|m: int| 0 <= m < selector.leaves().len() implies old_leaves.contains(#[trigger] selector.leaves()[m])
                    || grown_from::<S>(
                    root,
                    old_cur,
                    old_marks,
                    self.nxt@,
                    selector.leaves()[m],
                ) by {
                    let lf = selector.leaves()[m];
                    if lf != leaf {
                        let j = choose|j: int| 0 <= j < lb.len() && lb[j] == lf;
                        assert(lb[j] == lf);
                    }
                }
                assert(selector.offers()[o0.len() + k] == leaf);
                assert forall|m: int| 0 <= m < k + 1 implies #[trigger] grown_at::<S>(root, old_cur, self.nxt@, i, acts@[m], selector.offers()[o0.len() + m]) by {
                    if m < k {
                        assert(selector.offers()[o0.len() + m] == ob[o0.len() + m]);
                    }
                }
                assert(selector.offers().subrange(0, o0.len() as int) =~= ob.subrange(0, o0.len() as int));
            }
            self.state.backward(&acts[k]);
            proof {
                S::lemma_backward_undoes(st, acts@[k as int]);
            }
            let up = acts[k].clone();
            let ghost mid = self.nxt@;
            let e2 = Edge { act: up, down: false };
            proof {
                assert(tour_path(mid, mid.len() as int).len() > 0);
                lemma_leaf_append::<S>(root, mid, e2, selector.leaves(), old_leaves, old_cur, old_marks);
                assert forall|m: int| 0 <= m < k + 1 implies #[trigger] grown_at::<S>(root, old_cur, mid.push(e2), i, acts@[m], selector.offers()[o0.len() + m]) by {
                    lemma_grown_at_push::<S>(root, old_cur, mid, e2, i, acts@[m], selector.offers()[o0.len() + m]);
                }
            }
            self.nxt.push(e2);
            proof {
                assert(tour_path(mid, mid.len() as int) == tour_path(before, before.len() as int).push(a));
                assert(tour_path(self.nxt@, self.nxt@.len() as int) =~= tour_path(before, before.len() as int));
                let t0 = acts@.take(k as int);
                let t1 = acts@.take(k + 1);
                let f = self.nxt@;
                assert(f == before.push(e).push(e2));
                assert(f.subrange(0, n0.len() as int) =~= n0) by {
                    assert forall|m: int| 0 <= m < n0.len() implies f.subrange(0, n0.len() as int)[m] == n0[m] by {
                        assert(before.subrange(0, n0.len() as int)[m] == n0[m]);
                    }
                }
                assert forall|m: int| 0 <= m < t1.len() implies {
                    &&& (#[trigger] f[n0.len() + 2 * m]).down
                    &&& cloned(t1[m], f[n0.len() + 2 * m].act)
                    &&& !f[n0.len() + 2 * m + 1].down
                    &&& cloned(t1[m], f[n0.len() + 2 * m + 1].act)
                } by {
                    if m < k {
                        assert(t1[m] == t0[m]);
                        assert(f[n0.len() + 2 * m] == before[n0.len() + 2 * m]);
                        assert(f[n0.len() + 2 * m + 1] == before[n0.len() + 2 * m + 1]);
                    } else {
                        assert(t1[m] == acts@[k as int]);
                    }
                }
            }
            k = k + 1;
        }
        proof {
            assert(acts@.take(acts@.len() as int) =~= acts@);
            assert(paired(old(self).nxt@, self.nxt@, acts@));
        }
    }

    /// Extends the search by one step: every marked place grows, each of its
    /// moves entering the tour and its leaf offered to `selector`; the new
    /// tour returns to the root and has no marks, and so does the state.
    #[verifier::rlimit(100)]
    pub fn extend<Sel: Selector>(&mut self, selector: &mut Sel)
        requires
            old(self).wf(),
            old(selector).inv(),
        ensures
            final(self).wf(),
            final(selector).inv(),
            final(self).spec_state().model() == old(self).spec_state().model(),
            final(self).marks() == Seq::new((final(self).tour().len() + 1) as nat, |p: int| false),
            tour_ok(final(self).tour(), final(self).tour().len() as int),
            tour_path(final(self).tour(), final(self).tour().len() as int).len() == 0,
            leaves_ok::<S>(
                old(self).spec_state().model(),
                final(selector).leaves(),
                old(selector).leaves(),
                old(self).tour(),
                old(self).marks(),
                final(self).tour(),
            ),
            final(selector).offers().len() >= old(selector).offers().len(),
            final(selector).offers().subrange(0, old(selector).offers().len() as int) == old(selector).offers(),
            exists|lists: Seq<Vec<S::Action>>|
                #[trigger] grown_leaves::<S>(
                    old(self).spec_state().model(),
                    old(self).tour(),
                    old(self).marks(),
                    final(self).tour(),
                    lists,
                    old(self).tour().len() + 1int,
                    final(selector).offers().subrange(
                        old(selector).offers().len() as int,
                        final(selector).offers().len() as int,
                    ),
                ),
    {
        let ghost root = self.state.model();
        let ghost o0 = selector.offers();
        let ghost mut lists: Seq<Vec<S::Action>> = Seq::empty();
        let ghost old_cur = self.cur@;
        let ghost old_marks = self.marked@;
        let ghost old_leaves = selector.leaves();
        let sz = self.cur.len();
        self.nxt.clear();
        self.downs.clear();
        let mut dl: usize = 0;
        let mut i: usize = 0;
        proof {
            let stack = Seq::new(0nat, |k: int| old_cur[self.downs@[k] as int].act);
            assert(stack.take(0) =~= tour_path(self.nxt@, 0));
            assert(stack.take(0) =~= Seq::<S::Action>::empty());
            assert(tour_path(old_cur, 0) =~= stack);
            assert forall|k: int| 0 <= k < old_leaves.len() implies old_leaves.contains(#[trigger] old_leaves[k]) by {}
            assert(selector.offers().subrange(0, o0.len() as int) =~= o0);
            assert(selector.offers().subrange(o0.len() as int, selector.offers().len() as int) =~= Seq::<Leaf>::empty());
        }
        loop
            invariant_except_break
                lists.len() == i,
                grown_leaves::<S>(root, old_cur, old_marks, self.nxt@, lists, i as int, selector.offers().subrange(o0.len() as int, selector.offers().len() as int)),
            invariant
                self.emit_inv(old_cur, old_marks, selector.leaves(), old_leaves, root, i as int, dl as int),
                selector.inv(),
                i <= sz,
                sz == old_cur.len(),
                selector.offers().len() >= o0.len(),
                selector.offers().subrange(0, o0.len() as int) == o0,
            ensures
                self.emit_inv(old_cur, old_marks, selector.leaves(), old_leaves, root, sz as int, dl as int),
                selector.inv(),
                selector.offers().len() >= o0.len(),
                selector.offers().subrange(0, o0.len() as int) == o0,
                grown_leaves::<S>(root, old_cur, old_marks, self.nxt@, lists, sz + 1, selector.offers().subrange(o0.len() as int, selector.offers().len() as int)),
            decreases sz - i,
        {
            if self.marked[i] {
                let ghost n1 = self.nxt@;
                dl = self.open_downs(dl, Ghost(old_cur), Ghost(old_marks), Ghost(selector.leaves()), Ghost(old_leaves), Ghost(root), Ghost(i as int));
                let ghost ob = selector.offers();
                let ghost l0 = ob.subrange(o0.len() as int, ob.len() as int);
                proof {
                    lemma_grown_leaves_extend::<S>(root, old_cur, old_marks, n1, self.nxt@, lists, i as int, l0);
                    let stack = Seq::new(self.downs@.len() as nat, |k: int| old_cur[self.downs@[k] as int].act);
                    assert(stack.take(dl as int) =~= stack);
                }
                let ghost n2 = self.nxt@;
                let ghost st = self.state.model();
                self.grow_here(selector, Ghost(old_cur), Ghost(old_marks), Ghost(old_leaves), Ghost(root), Ghost(i as int));
                proof {
                    let acts = choose|acts: Vec<S::Action>|
                        #[trigger] S::acts_of(st, acts) && paired(n2, self.nxt@, acts@)
                            && selector.offers().len() == ob.len() + acts@.len()
                            && selector.offers().subrange(0, ob.len() as int) == ob
                            && forall|k: int|
                            0 <= k < acts@.len() ==> #[trigger] grown_at::<S>(
                                root,
                                old_cur,
                                self.nxt@,
                                i as int,
                                acts@[k],
                                selector.offers()[ob.len() + k],
                            );
                    lemma_grown_leaves_extend::<S>(root, old_cur, old_marks, n2, self.nxt@, lists, i as int, l0);
                    let ls = selector.offers().subrange(o0.len() as int, selector.offers().len() as int);
                    assert(ls.subrange(0, l0.len() as int) =~= l0) by {
                        assert forall|n: int| 0 <= n < l0.len() implies ls.subrange(0, l0.len() as int)[n] == l0[n] by {
                            assert(selector.offers()[o0.len() + n] == selector.offers().subrange(0, ob.len() as int)[o0.len() + n]);
                        }
                    }
                    assert forall|k: int| 0 <= k < acts@.len() implies #[trigger] grown_at::<S>(root, old_cur, self.nxt@, i as int, acts@[k], ls[l0.len() + k]) by {
                        assert(ls[l0.len() + k] == selector.offers()[ob.len() + k]);
                    }
                    assert(selector.offers().subrange(0, o0.len() as int) =~= ob.subrange(0, o0.len() as int));
                    lemma_grown_leaves_grow::<S>(root, old_cur, old_marks, self.nxt@, lists, i as int, l0, acts, ls);
                    lists = lists.push(acts);
                }
            } else {
                proof {
                    let x: Vec<S::Action> = vstd::pervasive::arbitrary();
                    lemma_grown_leaves_skip::<S>(root, old_cur, old_marks, self.nxt@, lists, i as int, selector.offers().subrange(o0.len() as int, selector.offers().len() as int), x);
                    lists = lists.push(x);
                }
            }
            if i == sz {
                break;
            }
            if self.cur[i].down {
                let ghost stack_old = Seq::new(self.downs@.len(), |k: int| old_cur[self.downs@[k] as int].act);
                assert(clones_of(stack_old.take(dl as int), tour_path(self.nxt@, self.nxt@.len() as int)));
                self.downs.push(i);
                proof {
                    let dr = self.downs@.len() as int;
                    let stack = Seq::new(dr as nat, |k: int| old_cur[self.downs@[k] as int].act);
                    let st0 = Seq::new((dr - 1) as nat, |k: int| old_cur[self.downs@[k] as int].act);
                    assert(stack =~= st0.push(old_cur[i as int].act));
                    assert(stack.take(dl as int) =~= st0.take(dl as int));
                    assert(st0 =~= stack_old);
                    assert(tour_path(old_cur, i + 1) == tour_path(old_cur, i as int).push(old_cur[i as int].act));
                    assert(tour_path(old_cur, i + 1) == stack);
                    assert(forall|k: int|
                        0 <= k < dr ==> (#[trigger] self.downs@[k]) < i + 1 && old_cur[self.downs@[k] as int].down);
                    assert(clones_of(stack.take(dl as int), tour_path(self.nxt@, self.nxt@.len() as int)));
                    assert(0 <= dl <= dr);
                }
            } else {
                assert(tour_path(old_cur, i as int).len() > 0);
                let ghost dl0 = dl as int;
                let ghost stack0 = Seq::new(self.downs@.len(), |k: int| old_cur[self.downs@[k] as int].act);
                let ghost path0 = tour_path(self.nxt@, self.nxt@.len() as int);
                assert(clones_of(stack0.take(dl0), path0));
                if dl == self.downs.len() {
                    let di = self.downs[dl - 1];
                    self.state.backward(&self.cur[di].act);
                    proof {
                        assert(stack0.take(dl0).last() == old_cur[di as int].act);
                        lemma_replay_pop::<S>(root, stack0.take(dl0));
                    }
                    let a = self.cur[di].act.clone();
                    let ghost before = self.nxt@;
                    let e = Edge { act: a, down: false };
                    proof {
                        lemma_leaf_append::<S>(root, before, e, selector.leaves(), old_leaves, old_cur, old_marks);
                        lemma_grown_leaves_push::<S>(root, old_cur, old_marks, before, e, lists, i + 1, selector.offers().subrange(o0.len() as int, selector.offers().len() as int));
                    }
                    self.nxt.push(e);
                    dl = dl - 1;
                }
                self.downs.pop();
                proof {
                    let dr = self.downs@.len() as int;
                    let stack = Seq::new(dr as nat, |k: int| old_cur[self.downs@[k] as int].act);
                    assert(tour_path(old_cur, i + 1) =~= stack);
                    assert(stack =~= stack0.drop_last());
                    let np = tour_path(self.nxt@, self.nxt@.len() as int);
                    if dl0 == dr + 1 {
                        assert(np == path0.drop_last());
                        assert(stack.take(dl as int) =~= stack0.take(dl0).drop_last());
                        assert forall|k: int| 0 <= k < dl implies cloned(#[trigger] stack.take(dl as int)[k], np[k]) by {
                            assert(cloned(stack0.take(dl0)[k], path0[k]));
                        }
                    } else {
                        assert(np == path0);
                        assert(stack.take(dl as int) =~= stack0.take(dl0));
                    }
                    assert(clones_of(stack.take(dl as int), tour_path(self.nxt@, self.nxt@.len() as int)));
                    assert(forall|k: int|
                        0 <= k < dr ==> (#[trigger] self.downs@[k]) < i + 1 && old_cur[self.downs@[k] as int].down);
                    assert(tour_ok(self.nxt@, self.nxt@.len() as int));
                    assert(0 <= dl <= dr);
                }
            }
            i = i + 1;
        }
        while dl > 0
            invariant
                self.emit_inv(old_cur, old_marks, selector.leaves(), old_leaves, root, sz as int, dl as int),
                selector.inv(),
                selector.offers().len() >= o0.len(),
                selector.offers().subrange(0, o0.len() as int) == o0,
                grown_leaves::<S>(root, old_cur, old_marks, self.nxt@, lists, sz + 1, selector.offers().subrange(o0.len() as int, selector.offers().len() as int)),
            decreases dl,
        {
            let di = self.downs[dl - 1];
            self.state.backward(&self.cur[di].act);
            proof {
                let stack = Seq::new(self.downs@.len() as nat, |k: int| old_cur[self.downs@[k] as int].act);
                assert(stack.take(dl as int).last() == old_cur[di as int].act);
                assert(stack.take(dl as int).drop_last() =~= stack.take(dl - 1));
                lemma_replay_pop::<S>(root, stack.take(dl as int));
            }
            let a = self.cur[di].act.clone();
            let ghost before = self.nxt@;
            let e = Edge { act: a, down: false };
            proof {
                lemma_leaf_append::<S>(root, before, e, selector.leaves(), old_leaves, old_cur, old_marks);
                lemma_grown_leaves_push::<S>(root, old_cur, old_marks, before, e, lists, sz + 1, selector.offers().subrange(o0.len() as int, selector.offers().len() as int));
            }
            self.nxt.push(e);
            dl = dl - 1;
        }
        std::mem::swap(&mut self.cur, &mut self.nxt);
        let mut marked: Vec<bool> = Vec::new();
        marked.push(false);
        let mut p: usize = 0;
        while p < self.cur.len()
            invariant
                p <= self.cur@.len(),
                marked@ == Seq::new((p + 1) as nat, |q: int| false),
            decreases self.cur@.len() - p,
        {
            marked.push(false);
            p = p + 1;
            assert(marked@ =~= Seq::new((p + 1) as nat, |q: int| false));
        }
        self.marked = marked;
        proof {
            let dr = self.downs@.len() as int;
            let stack = Seq::new(dr as nat, |k: int| old_cur[self.downs@[k] as int].act);
            assert(stack.take(0).len() == 0);
            assert(stack.take(0) =~= Seq::<S::Action>::empty());
            assert(grown_leaves::<S>(
                old(self).spec_state().model(),
                old(self).tour(),
                old(self).marks(),
                self.tour(),
                lists,
                old(self).tour().len() + 1int,
                selector.offers().subrange(o0.len() as int, selector.offers().len() as int),
            ));
        }
    }
}


impl BeamCandidate for Leaf {
    type Action = usize;

    open spec fn spec_score(&self) -> i64 {
        self.score
    }

    open spec fn spec_hash(&self) -> u64 {
        self.hash
    }

    open spec fn spec_action(&self) -> usize {
        self.t
    }

    fn into_action(self) -> (a: usize) {
        self.t
    }

    fn score(&self) -> (r: i64) {
        self.score
    }

    fn hash(&self) -> (r: u64) {
        self.hash
    }
}

/// The leaves a selector of candidates keeps.
pub open spec fn kept_leaves(kept: Seq<(Leaf, usize)>) -> Seq<Leaf> {
    kept.map_values(|e: (Leaf, usize)| e.0)
}

impl Selector for MaxSegSelector<Leaf> {
    open spec fn inv(&self) -> bool {
        self.wf()
    }

    open spec fn leaves(&self) -> Seq<Leaf> {
        kept_leaves(self.kept())
    }

    open spec fn offers(&self) -> Seq<Leaf> {
        self.offered_log()
    }

    /// Keeps the best leaves with distinct hashes, up to the width.
    fn push(&mut self, leaf: Leaf)
        ensures
            final(self).spec_width() == old(self).spec_width(),
            pushed(
                old(self).kept(),
                old(self).is_full(),
                old(self).spec_width(),
                leaf,
                0,
                final(self).kept(),
                final(self).is_full(),
            ),
    {
        let ghost o = self.kept();
        MaxSegSelector::push(self, leaf, 0);
        proof {
            let f = self.kept();
            assert forall|k: int| 0 <= k < kept_leaves(f).len() implies #[trigger] kept_leaves(f)[k] == leaf
                || kept_leaves(o).contains(kept_leaves(f)[k]) by {
                if f[k] != (leaf, 0usize) {
                    let j = choose|j: int| 0 <= j < o.len() && o[j] == f[k];
                    assert(kept_leaves(o)[j] == kept_leaves(f)[k]);
                }
            }
        }
    }
}

/// `s` is in non-decreasing order of score.
pub open spec fn by_score(s: Seq<Leaf>) -> bool {
    forall|a: int, b: int| 0 <= a < b < s.len() ==> (#[trigger] s[a]).score <= (#[trigger] s[b]).score
}

/// Sorts `v` by score, through `slice::sort_unstable_by_key`, which std
/// documents as leaving the same leaves in non-decreasing order of the
/// key; the order of leaves with equal scores is left open.
#[verifier::external_body]
fn sort_by_score(v: &mut Vec<Leaf>)
    ensures
        final(v)@.to_multiset() == old(v)@.to_multiset(),
        by_score(final(v)@),
{
    v.sort_unstable_by_key(|e| e.score);
}

/// Leaf `j` of `ls` has a hash already in `seen` or among the leaves before it.
pub open spec fn hash_seen(ls: Seq<Leaf>, seen: Set<u64>, j: int) -> bool {
    seen.contains(ls[j].hash) || exists|m: int| 0 <= m < j && #[trigger] ls[m].hash == ls[j].hash
}

/// The marks after marking, in order, the first `k` leaves of `ls` whose
/// hash was not seen yet.
pub open spec fn marked_by(marks: Seq<bool>, ls: Seq<Leaf>, seen: Set<u64>, k: int) -> Seq<bool>
    decreases k,
{
    if k <= 0 {
        marks
    } else {
        let m = marked_by(marks, ls, seen, k - 1);
        if hash_seen(ls, seen, k - 1) {
            m
        } else {
            m.update(ls[k - 1].t as int, true)
        }
    }
}

/// `seen` with the hashes of the first `k` leaves of `ls`.
pub open spec fn seen_after(ls: Seq<Leaf>, seen: Set<u64>, k: int) -> Set<u64> {
    seen.union(Set::new(|h: u64| exists|m: int| 0 <= m < k && #[trigger] ls[m].hash == h))
}

/// Keeps every leaf offered; `select` keeps the best `width` of them by
/// score and marks them in the search, each hash once.
pub struct SortSelector {
    width: usize,
    pub selected: Vec<Leaf>,
    map: HashSet<u64>,
    log: Ghost<Seq<Leaf>>,
}

impl SortSelector {
    /// The most leaves kept by `select`.
    pub closed spec fn spec_width(&self) -> nat {
        self.width as nat
    }

    /// The leaves held.
    pub closed spec fn kept(&self) -> Seq<Leaf> {
        self.selected@
    }

    /// The hashes already marked.
    pub closed spec fn seen(&self) -> Set<u64> {
        self.map@
    }

    /// An empty selector that keeps `width` leaves.
    pub fn new(width: usize) -> (r: Self)
        ensures
            r.spec_width() == width,
            r.kept() == Seq::<Leaf>::empty(),
            r.seen() == Set::<u64>::empty(),
    {
        SortSelector { width, selected: Vec::new(), map: HashSet::new(), log: Ghost(Seq::empty()) }
    }

    /// Forgets every leaf and hash.
    pub fn clear(&mut self)
        ensures
            final(self).spec_width() == old(self).spec_width(),
            final(self).kept() == Seq::<Leaf>::empty(),
            final(self).seen() == Set::<u64>::empty(),
    {
        self.selected.clear();
        self.map.clear();
    }

    /// Keeps the `width` best leaves by score (all where there are fewer),
    /// sorted by score, and marks their places in `beam` in that order,
    /// each hash once.
    pub fn select<S: BeamState>(&mut self, beam: &mut BeamSearch<S>)
        requires
            old(beam).wf(),
            forall|k: int| 0 <= k < old(self).kept().len() ==> (#[trigger] old(self).kept()[k]).t <= old(beam).tour().len(),
        ensures
            final(beam).wf(),
            final(beam).tour() == old(beam).tour(),
            final(beam).spec_state() == old(beam).spec_state(),
            final(self).spec_width() == old(self).spec_width(),
            exists|srt: Seq<Leaf>|
                #[trigger] srt.to_multiset() == old(self).kept().to_multiset() && by_score(srt) && final(self).kept()
                    == srt.take(if srt.len() > old(self).spec_width() { old(self).spec_width() as int } else { srt.len() as int }),
            final(beam).marks() == marked_by(old(beam).marks(), final(self).kept(), old(self).seen(), final(self).kept().len() as int),
            final(self).seen() == seen_after(final(self).kept(), old(self).seen(), final(self).kept().len() as int),
    {
        let ghost orig = self.selected@;
        sort_by_score(&mut self.selected);
        let ghost srt = self.selected@;
        proof {
            assert forall|k: int| 0 <= k < srt.len() implies (#[trigger] srt[k]).t <= beam.tour().len() by {
                assert(srt.to_multiset().count(srt[k]) > 0);
                assert(orig.contains(srt[k]));
                let j = choose|j: int| 0 <= j < orig.len() && orig[j] == srt[k];
                assert(old(self).kept()[j] == orig[j]);
                assert(orig[j].t <= beam.tour().len());
            }
        }
        if self.selected.len() > self.width {
            self.selected.truncate(self.width);
        }
        assert(self.selected@ =~= srt.take(if srt.len() > self.width { self.width as int } else { srt.len() as int }));
        let ghost marks0 = beam.marks();
        let ghost seen0 = self.map@;
        let ghost sel0 = self.selected@;
        let mut j: usize = 0;
        while j < self.selected.len()
            invariant
                beam.wf(),
                beam.tour() == old(beam).tour(),
                beam.spec_state() == old(beam).spec_state(),
                marks0 == old(beam).marks(),
                seen0 == old(self).seen(),
                self.width == old(self).width,
                self.selected@ == sel0,
                sel0 == srt.take(if srt.len() > self.width { self.width as int } else { srt.len() as int }),
                forall|k: int| 0 <= k < self.selected@.len() ==> (#[trigger] self.selected@[k]).t <= beam.tour().len(),
                j <= self.selected@.len(),
                beam.marks() == marked_by(marks0, self.selected@, seen0, j as int),
                self.map@ == seen_after(self.selected@, seen0, j as int),
            decreases self.selected@.len() - j,
        {
            let leaf = self.selected[j];
            let ghost ls = self.selected@;
            let fresh = self.map.insert(leaf.hash);
            proof {
                assert(seen_after(ls, seen0, j + 1) =~= seen_after(ls, seen0, j as int).insert(leaf.hash)) by {
                    assert forall|h: u64| seen_after(ls, seen0, j + 1).contains(h) <==> seen_after(ls, seen0, j as int).insert(leaf.hash).contains(h) by {
                        if h == leaf.hash {
                            assert(ls[j as int].hash == h);
                        }
                        if seen_after(ls, seen0, j + 1).contains(h) && !seen0.contains(h) && h != leaf.hash {
                            let m = choose|m: int| 0 <= m < j + 1 && #[trigger] ls[m].hash == h;
                            assert(m < j);
                        }
                    }
                }
                assert(fresh == !hash_seen(ls, seen0, j as int)) by {
                    if hash_seen(ls, seen0, j as int) && !seen0.contains(leaf.hash) {
                        let m = choose|m: int| 0 <= m < j && #[trigger] ls[m].hash == ls[j as int].hash;
                        assert(seen_after(ls, seen0, j as int).contains(leaf.hash));
                    }
                }
            }
            if fresh {
                beam.select(&leaf);
            }
            j = j + 1;
        }
        assert(srt.to_multiset() == old(self).kept().to_multiset() && by_score(srt));
    }
}

impl Selector for SortSelector {
    open spec fn inv(&self) -> bool {
        true
    }

    open spec fn leaves(&self) -> Seq<Leaf> {
        self.kept()
    }

    closed spec fn offers(&self) -> Seq<Leaf> {
        self.log@
    }

    /// Keeps every leaf.
    fn push(&mut self, leaf: Leaf)
        ensures
            final(self).kept() == old(self).kept().push(leaf),
            final(self).seen() == old(self).seen(),
            final(self).spec_width() == old(self).spec_width(),
    {
        let ghost o = self.selected@;
        self.log = Ghost(self.log@.push(leaf));
        self.selected.push(leaf);
        proof {
            assert forall|k: int| 0 <= k < self.selected@.len() implies #[trigger] self.selected@[k] == leaf
                || o.contains(self.selected@[k]) by {
                if k < o.len() {
                    assert(o[k] == self.selected@[k]);
                }
            }
        }
    }
}

/// The first leaf with the least score.
pub fn best_index(ls: &Vec<Leaf>) -> (i: usize)
    requires
        ls@.len() > 0,
    ensures
        i < ls@.len(),
        forall|j: int| 0 <= j < ls@.len() ==> ls@[i as int].score <= #[trigger] ls@[j].score,
        forall|j: int| 0 <= j < i ==> ls@[i as int].score < #[trigger] ls@[j].score,
{
    let mut i: usize = 0;
    let mut j: usize = 1;
    while j < ls.len()
        invariant
            ls@.len() > 0,
            i < j <= ls@.len(),
            forall|k: int| 0 <= k < j ==> ls@[i as int].score <= #[trigger] ls@[k].score,
            forall|k: int| 0 <= k < i ==> ls@[i as int].score < #[trigger] ls@[k].score,
        decreases ls@.len() - j,
    {
        if ls[j].score < ls[i].score {
            i = j;
        }
        j = j + 1;
    }
    i
}

} // verus!
