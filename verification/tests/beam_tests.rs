use niuristic::beam::ett::{BeamSearch, BeamState};
use niuristic::beam::max_seg::MaxSeg;
use niuristic::beam::selector::{BeamCandidate, MaxSegSelector};

#[derive(Clone, Debug, PartialEq)]
struct Cand {
    act: u8,
    score: i64,
    hash: u64,
}

impl BeamCandidate for Cand {
    type Action = u8;
    fn spec_score(&self) -> i64 {
        self.score
    }
    fn spec_hash(&self) -> u64 {
        self.hash
    }
    fn spec_action(&self) -> u8 {
        self.act
    }
    fn into_action(self) -> u8 {
        self.act
    }
    fn score(&self) -> i64 {
        self.score
    }
    fn hash(&self) -> u64 {
        self.hash
    }
}

fn c(act: u8, score: i64, hash: u64) -> Cand {
    Cand { act, score, hash }
}

#[test]
fn max_seg_tracks_largest_leaf() {
    let mut s = MaxSeg::new(5);
    for i in 0..5 {
        s.unfix_set(i, [3, 9, 1, 9, 4][i]);
    }
    s.fix();
    // ties go to the later leaf
    assert_eq!(s.all(), (9, 3));
    assert_eq!(s.at(2), (1, 2));
    s.update(3, 0);
    assert_eq!(s.all(), (9, 1));
    s.update(1, -5);
    assert_eq!(s.all(), (4, 4));
    let one = MaxSeg::new(1);
    assert_eq!(one.all(), (0, usize::MAX));
}

#[test]
fn selector_keeps_best_distinct() {
    let mut sel = MaxSegSelector::<Cand>::new(3);
    sel.push(c(0, 10, 1), 0);
    sel.push(c(1, 20, 2), 0);
    // same hash, better score: replaces in place
    sel.push(c(2, 5, 1), 1);
    // same hash, worse score: ignored
    sel.push(c(3, 7, 1), 1);
    assert_eq!(sel.kept_items().len(), 2);
    assert_eq!(sel.kept_items()[0], (c(2, 5, 1), 1));
    sel.push(c(4, 30, 3), 2);
    assert_eq!(sel.kept_items().len(), 3);
    // full: not better than the worst (30), rejected
    sel.push(c(5, 30, 4), 2);
    assert_eq!(sel.kept_items().len(), 3);
    assert!(sel.kept_items().iter().all(|e| e.0.hash != 4));
    // full: better than the worst, replaces it
    sel.push(c(6, 15, 5), 3);
    let mut scores: Vec<i64> = sel.kept_items().iter().map(|e| e.0.score).collect();
    scores.sort();
    assert_eq!(scores, vec![5, 15, 20]);
    assert_eq!(sel.kept_items()[2], (c(6, 15, 5), 3));
    let old = sel.clear();
    assert_eq!(old.len(), 3);
    assert_eq!(sel.kept_items().len(), 0);
}

/// Walks on the numbers: an action adds its value, candidates are +1 and +2
/// and the score prefers larger sums.
#[derive(Clone)]
struct Walk {
    sum: i64,
    depth: usize,
    trail: Vec<u8>,
}

impl BeamState for Walk {
    type Action = u8;
    type Candidate = Cand;
    type Model = (i64, usize, Vec<u8>);
    fn model(&self) -> (i64, usize, Vec<u8>) {
        (self.sum, self.depth, self.trail.clone())
    }
    fn ready(&self) -> bool {
        true
    }
    fn model_forward(m: (i64, usize, Vec<u8>), act: u8) -> (i64, usize, Vec<u8>) {
        let mut t = m.2;
        t.push(act);
        (m.0 + act as i64, m.1 + 1, t)
    }
    fn model_backward(m: (i64, usize, Vec<u8>), act: u8) -> (i64, usize, Vec<u8>) {
        let mut t = m.2;
        t.pop();
        (m.0 - act as i64, m.1 - 1, t)
    }
    fn cands_of(m: (i64, usize, Vec<u8>), cands: Vec<Cand>) -> bool {
        Walk { sum: m.0, depth: m.1, trail: m.2 }.next_candidates() == cands
    }
    fn lemma_backward_undoes(_m: (i64, usize, Vec<u8>), _act: u8) {}
    fn forward(&mut self, act: &u8) {
        self.sum += *act as i64;
        self.depth += 1;
        self.trail.push(*act);
    }
    fn backward(&mut self, act: &u8) {
        self.sum -= *act as i64;
        self.depth -= 1;
        assert_eq!(self.trail.pop(), Some(*act));
    }
    fn next_candidates(&self) -> Vec<Cand> {
        (1..=2u8)
            .map(|a| {
                let s = self.sum + a as i64;
                c(a, -s, (s as u64) * 1000 + self.depth as u64)
            })
            .collect()
    }
}

#[test]
fn ett_beam_paths() {
    let mut beam = BeamSearch::new(2, 16, 16, Walk { sum: 0, depth: 0, trail: vec![] });
    for _ in 0..4 {
        beam.extend();
    }
    assert_eq!(beam.state.depth, 0);
    let leaves: Vec<usize> = beam.selector.kept_items().iter().map(|e| e.1).collect();
    assert!(!leaves.is_empty());
    for &leaf in &leaves {
        let path = beam.acts(leaf);
        assert_eq!(path.len(), 3);
        assert_eq!(beam.state.trail, path);
        // walk back to the root
        for a in path.iter().rev() {
            beam.state.backward(a);
        }
    }
    // the best kept path takes the +2 step every time
    let best = beam.selector.kept_items().iter().min_by_key(|e| e.0.score).unwrap().clone();
    let mut path = beam.acts(best.1);
    path.push(best.0.act);
    assert_eq!(path, vec![2, 2, 2, 2]);
}
