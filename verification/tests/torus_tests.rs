use niuristic::contest::torus::{from_letters, greedy, merge_step, order_by_weight, ranked, Input, EMPTY, N};
use std::time::{Duration, Instant};


fn chars(rows: &[&str]) -> Vec<Vec<char>> {
    rows.iter().map(|r| r.chars().collect()).collect()
}

#[test]
fn ranked_is_a_stable_descending_order() {
    let keys = vec![(1, 5), (3, 0), (1, 7), (3, 0)];
    assert_eq!(ranked(&keys), vec![1, 3, 2, 0]);
    assert_eq!(ranked(&vec![]), Vec::<usize>::new());
}

#[test]
fn letters_sorted_longest_first() {
    let input = from_letters(2, &chars(&["AB", "CDE", "F", "GH"]));
    assert_eq!(input.m, 2);
    assert_eq!(input.s, vec![vec![2, 3, 4], vec![0, 1], vec![6, 7], vec![5]]);
}

#[test]
fn dedup_gives_weights_to_containers() {
    let input = Input { m: 3, s: vec![vec![0, 1, 2], vec![1, 2], vec![3]] };
    let (ss, ws) = input.dedup();
    assert_eq!(ss, vec![vec![0, 1, 2], vec![3]]);
    assert_eq!(ws, vec![2, 1]);
    let same = Input { m: 2, s: vec![vec![4, 5], vec![4, 5]] };
    let (ss, ws) = same.dedup();
    assert_eq!(ss, vec![vec![4, 5]]);
    assert_eq!(ws, vec![2]);
}

#[test]
fn merge_joins_the_largest_overlap() {
    let mut ss = vec![vec![0, 1, 2], vec![2, 3]];
    let mut ws = vec![1, 1];
    assert!(merge_step(&mut ss, &mut ws));
    assert_eq!(ss, vec![vec![0, 1, 2, 3]]);
    assert_eq!(ws, vec![2]);
    assert!(!merge_step(&mut ss, &mut ws));
    assert_eq!(ss, vec![vec![0, 1, 2, 3]]);
    // overlaps (1, 0, 1) and (1, 2, 1): the greater triple wins
    let mut ss = vec![vec![5, 6], vec![6, 7], vec![1, 5, 6], vec![3]];
    let mut ws = vec![1, 2, 3, 4];
    assert!(merge_step(&mut ss, &mut ws));
    assert_eq!(ss, vec![vec![5, 6], vec![3], vec![1, 5, 6, 7]]);
    assert_eq!(ws, vec![1, 4, 5]);
}

#[test]
fn merge_respects_the_length_limit() {
    let a: Vec<usize> = (0..15).collect();
    let b: Vec<usize> = (14..30).collect();
    // 15 + 16 - 1 = 30 letters would exceed 20
    let mut ss = vec![a.clone(), b.clone()];
    let mut ws = vec![1, 1];
    assert!(!merge_step(&mut ss, &mut ws));
    assert_eq!(ss, vec![a, b]);
}

#[test]
fn order_by_weight_heaviest_then_longest() {
    let ss = vec![vec![0], vec![1, 2], vec![3, 4, 5], vec![6, 7]];
    let ws = vec![1, 2, 1, 2];
    let (rs, rw) = order_by_weight(&ss, &ws);
    assert_eq!(rs, vec![vec![1, 2], vec![6, 7], vec![3, 4, 5], vec![0]]);
    assert_eq!(rw, vec![2, 2, 1, 1]);
}

#[test]
fn greedy_places_a_string_and_counts() {
    let ss = vec![vec![0, 1, 2]];
    let mut mt = rand_pcg::Mcg128Xsl64::new(768);
    let board = greedy(&ss, &vec![1], 1, &mut mt);
    assert_eq!(board.len(), N);
    // every place fits equally on the empty board: the last cell wins
    assert_eq!(board[19][19], 0);
    let along = board[19][0] == 1 && board[19][1] == 2;
    let down = board[0][19] == 1 && board[1][19] == 2;
    assert!(along ^ down);
    let filled: usize = board.iter().map(|r| r.iter().filter(|&&v| v != EMPTY).count()).sum();
    assert_eq!(filled, 3);
    let input = Input { m: 1, s: ss.clone() };
    assert_eq!(input.counts(&board), (N * N - 3, 1));
}

#[test]
fn greedy_prefers_an_overlap() {
    // the second string shares its first letter with the end of the first
    let ss = vec![vec![0, 1, 2], vec![2, 3]];
    let mut mt = rand_pcg::Mcg128Xsl64::new(1);
    let board = greedy(&ss, &vec![1, 1], 2, &mut mt);
    let filled: usize = board.iter().map(|r| r.iter().filter(|&&v| v != EMPTY).count()).sum();
    assert_eq!(filled, 4);
    let input = Input { m: 2, s: ss };
    assert_eq!(input.counts(&board), (N * N - 4, 2));
}

#[test]
fn input_merge_joins_until_nothing_overlaps() {
    let input = Input { m: 4, s: vec![vec![0, 1, 2], vec![2, 3], vec![1, 2], vec![3, 4]] };
    let (ss, ws) = input.merge(&Instant::now(), u128::MAX);
    assert_eq!(ss, vec![vec![0, 1, 2, 3, 4]]);
    assert_eq!(ws, vec![4]);
}

#[test]
fn input_merge_out_of_time_only_drops_contained() {
    let input = Input { m: 4, s: vec![vec![0, 1, 2], vec![2, 3], vec![1, 2], vec![3, 4]] };
    let long_ago = Instant::now() - Duration::from_millis(20);
    let (ss, ws) = input.merge(&long_ago, 0);
    assert_eq!(ss, vec![vec![0, 1, 2], vec![2, 3], vec![3, 4]]);
    assert_eq!(ws, vec![2, 1, 1]);
}
