use niuristic::contest::forest::{Forest, Input, N, SLOTS};

fn beauties() -> Vec<i32> {
    (0..N).map(|x| (x % 7) as i32 + 1).collect()
}

/// A path 0 - 1 - 2 - 3 and an edge 3 - 0 closing it into a ring.
fn ring() -> Input {
    Input::new(beauties(), vec![(0, 1), (1, 2), (2, 3), (3, 0)])
}

fn nexts(input: &Input, x: usize) -> Vec<usize> {
    input.g[input.s[x]..input.s[x + 1]].to_vec()
}

#[test]
fn forest_input_tables() {
    let input = ring();
    assert_eq!(input.m, 4);
    assert_eq!(nexts(&input, 0), vec![1, 3]);
    assert_eq!(nexts(&input, 1), vec![0, 2]);
    assert_eq!(nexts(&input, 3), vec![2, 0]);
    assert!(nexts(&input, 4).is_empty());
    assert!(input.b.get(0 * N + 1));
    assert!(input.b.get(1 * N + 0));
    assert!(input.b.get(3 * N + 0));
    assert!(!input.b.get(0 * N + 2));
    assert_eq!(input.s[N], 8);
}

#[test]
fn forest_starts_flat() {
    let input = ring();
    let f = Forest::new(&input);
    assert!(f.v.iter().all(|&l| l == 0));
    assert_eq!(f.score, beauties().iter().sum::<i32>());
    assert_eq!(f.levels[1 * SLOTS], 2);
    assert_eq!(f.levels[1 * SLOTS + 1], 0);
    assert_eq!(f.levels[4 * SLOTS], 0);
}

#[test]
fn forest_relevel_updates_table_and_score() {
    let input = ring();
    let mut f = Forest::new(&input);
    let before = f.score;
    assert!(f.commit_relevel(&input, 1, 1));
    assert_eq!(f.v[1], 1);
    assert_eq!(f.score, before + input.a[1]);
    // 0 and 2 now see 1 at level 1
    assert_eq!(f.levels[0 * SLOTS], 1);
    assert_eq!(f.levels[0 * SLOTS + 1], 1);
    assert_eq!(f.levels[2 * SLOTS + 1], 1);
}

#[test]
fn forest_relevel_refused_when_it_strands_a_neighbour() {
    let input = ring();
    let mut f = Forest::new(&input);
    assert!(f.commit_relevel(&input, 1, 1));
    // 1 still leans on 2 once 0 rises
    assert!(f.commit_relevel(&input, 0, 1));
    // 2 is now the only neighbour of 1 at level 0: raising it is refused
    let v = f.v.clone();
    let score = f.score;
    assert!(!f.commit_relevel(&input, 2, 1));
    assert_eq!(f.v, v);
    assert_eq!(f.score, score);
}

#[test]
fn forest_swap_exchanges_levels() {
    let input = ring();
    let mut f = Forest::new(&input);
    assert!(f.commit_relevel(&input, 1, 1));
    let before = f.score;
    // 1 and 2 exchange: 2 rises on 3, 1 falls to the floor
    assert!(f.commit_swap(&input, 1, 2));
    assert_eq!(f.v[1], 0);
    assert_eq!(f.v[2], 1);
    assert_eq!(f.score, before + input.a[1] * (0 - 1) + input.a[2] * (1 - 0));
    assert_eq!(f.levels[3 * SLOTS + 1], 1);
    assert_eq!(f.levels[0 * SLOTS + 1], 0);
}

#[test]
fn forest_parents_follow_last_edge() {
    let input = ring();
    let mut f = Forest::new(&input);
    assert!(f.commit_relevel(&input, 1, 1));
    let p = f.parents(&input);
    assert_eq!(p.len(), N);
    // edges (0, 1) then (1, 2) both reach 1 from below: the later one wins
    assert_eq!(p[1], 2);
    assert_eq!(p[0], -1);
    assert_eq!(p[2], -1);
    assert_eq!(p[500], -1);
}

#[test]
fn forest_proposals_report_their_deltas() {
    let input = ring();
    let mut f = Forest::new(&input);
    assert!(f.commit_relevel(&input, 1, 1));
    let mut mt = rand_pcg::Mcg128Xsl64::new(768);
    for _ in 0..200 {
        if let Some((i, nv, delta)) = f.propose_relevel(&input, &mut mt) {
            assert!(i < N);
            assert_eq!(delta, input.a[i] * (nv - f.v[i]));
            let ns = nexts(&input, i);
            assert!(nv == 0 || ns.iter().any(|&j| f.v[j] + 1 == nv));
        }
        if let Some((i, j, delta)) = f.propose_swap(&input, &mut mt) {
            assert!(input.e.contains(&(i, j)));
            assert_ne!(f.v[i], f.v[j]);
            assert_eq!(delta, input.a[i] * (f.v[j] - f.v[i]) + input.a[j] * (f.v[i] - f.v[j]));
        }
    }
}
