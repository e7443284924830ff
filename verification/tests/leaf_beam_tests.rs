use niuristic::beam::leaf::{best_index, BeamSearch, BeamState, Leaf, Selector, SortSelector};
use niuristic::beam::selector::MaxSegSelector;

/// A walk that adds 1 or 2 each step; lower scores are better, so the
/// score is the negated sum.
#[derive(Clone)]
struct Walk {
    sum: i64,
    trail: Vec<u8>,
}

impl BeamState for Walk {
    type Action = u8;
    type Model = (i64, Vec<u8>);
    fn model(&self) -> (i64, Vec<u8>) {
        (self.sum, self.trail.clone())
    }
    fn ready(&self) -> bool {
        true
    }
    fn model_forward(m: (i64, Vec<u8>), act: u8) -> (i64, Vec<u8>) {
        let mut t = m.1;
        t.push(act);
        (m.0 + act as i64, t)
    }
    fn model_backward(m: (i64, Vec<u8>), act: u8) -> (i64, Vec<u8>) {
        let mut t = m.1;
        t.pop();
        (m.0 - act as i64, t)
    }
    fn acts_of(_m: (i64, Vec<u8>), acts: Vec<u8>) -> bool {
        acts == vec![1, 2]
    }
    fn model_score(m: (i64, Vec<u8>)) -> i64 {
        -m.0
    }
    fn spec_hash(&self) -> u64 {
        self.hash()
    }
    fn lemma_backward_undoes(_m: (i64, Vec<u8>), _act: u8) {}
    fn forward(&mut self, act: &u8) {
        self.sum += *act as i64;
        self.trail.push(*act);
    }
    fn backward(&mut self, act: &u8) {
        self.sum -= *act as i64;
        self.trail.pop();
    }
    fn next_acts(&self) -> Vec<u8> {
        vec![1, 2]
    }
    fn score(&self) -> i64 {
        -self.sum
    }
    fn hash(&self) -> u64 {
        self.trail.iter().fold(7u64, |h, &a| h.wrapping_mul(31).wrapping_add(a as u64))
    }
}

fn walk() -> Walk {
    Walk { sum: 0, trail: vec![] }
}

#[test]
fn sort_selector_keeps_the_best() {
    let mut sel = SortSelector::new(2);
    for (t, s) in [(1, 5), (2, 3), (3, 4), (4, 3)] {
        sel.push(Leaf { t, score: s, hash: t as u64 });
    }
    let mut beam = BeamSearch::new(8, 8, walk());
    // a tour long enough to mark places 0..=4
    beam.extend(&mut SortSelector::new(10));
    let mut s2 = SortSelector::new(10);
    beam.select(&Leaf { t: 2, score: 0, hash: 0 });
    beam.extend(&mut s2);
    sel.select(&mut beam);
    let scores: Vec<i64> = sel.selected.iter().map(|l| l.score).collect();
    assert_eq!(scores, vec![3, 3]);
    sel.clear();
    assert!(sel.selected.is_empty());
}

#[test]
fn best_index_first_least() {
    let ls = vec![
        Leaf { t: 1, score: 4, hash: 0 },
        Leaf { t: 2, score: 2, hash: 0 },
        Leaf { t: 3, score: 2, hash: 0 },
    ];
    assert_eq!(best_index(&ls), 1);
}

#[test]
fn leaf_beam_with_sort_selector() {
    let mut beam = BeamSearch::new(64, 8, walk());
    let mut sel = SortSelector::new(2);
    let turns = 3;
    for t in 0..turns {
        sel.clear();
        beam.extend(&mut sel);
        assert_eq!(beam.state.sum, 0);
        assert_eq!(sel.selected.len(), if t == 0 { 2 } else { 4 });
        if t + 1 < turns {
            sel.select(&mut beam);
            assert_eq!(sel.selected.len(), 2);
        } else {
            let i = best_index(&sel.selected);
            let leaf = sel.selected[i];
            let path = beam.acts(&leaf);
            assert_eq!(path, vec![2, 2, 2]);
            assert_eq!(beam.state.trail, path);
        }
    }
}

#[test]
fn leaf_beam_with_max_seg_selector() {
    let mut beam = BeamSearch::new(64, 8, walk());
    let mut sel: MaxSegSelector<Leaf> = MaxSegSelector::new(2);
    for t in 0..4 {
        sel.clear();
        beam.extend(&mut sel);
        if t < 3 {
            for e in sel.selected.iter() {
                beam.select(&e.0);
            }
        }
    }
    let leaves: Vec<Leaf> = sel.selected.iter().map(|e| e.0).collect();
    assert_eq!(leaves.len(), 2);
    let i = best_index(&leaves);
    assert_eq!(leaves[i].score, -8);
    let path = beam.acts(&leaves[i]);
    assert_eq!(path, vec![2, 2, 2, 2]);
}
