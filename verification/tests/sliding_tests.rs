use niuristic::beam::selector::BeamCandidate;
use niuristic::contest::sliding::{join_table, pop_count, Input, Progress, State};
use niuristic::beam::ett::BeamState;
use niuristic::contest::sliding_search::{AnsAction, AnsState, SlideSearch};


fn rows(lines: &[&str]) -> Vec<Vec<char>> {
    lines.iter().map(|l| l.chars().collect()).collect()
}

#[test]
fn pop_count_and_table() {
    // 4 = right end, 1 = left end: joined left to right
    assert_eq!(pop_count(4, 1, 2), 1);
    assert_eq!(pop_count(1, 4, 0), 1);
    assert_eq!(pop_count(4, 1, 0), 0);
    // 8 = down end, 2 = up end
    assert_eq!(pop_count(8, 2, 3), 1);
    assert_eq!(pop_count(2, 8, 1), 1);
    assert_eq!(pop_count(15, 0, 1), 0);
    let p = join_table();
    assert_eq!(p.len(), 1024);
    for i in 0..16u8 {
        for j in 0..16u8 {
            for d in 0..4 {
                assert_eq!(p[(i as usize * 16 + j as usize) * 4 + d], pop_count(i, j, d));
            }
        }
    }
}

#[test]
fn input_from_hex_rows() {
    let input = Input::from_rows(3, 20, &rows(&["4a1", "6f9", "05c"]));
    assert_eq!(input.n, 3);
    assert_eq!(input.t, 20);
    assert_eq!(input.s, 6);
    assert_eq!(input.c, vec![4, 10, 1, 6, 15, 9, 0, 5, 12]);
}

#[test]
fn state_tables() {
    let input = Input::from_rows(3, 20, &rows(&["4a1", "6f9", "05c"]));
    let st = State::new(&input);
    assert_eq!(st.place, (0..9).collect::<Vec<usize>>());
    assert_eq!(st.delta[0], vec![(1, 2), (3, 3)]);
    assert_eq!(st.delta[8], vec![]);
    assert_eq!(st.check[4], vec![(3, 0), (5, 2), (1, 1), (7, 3)]);
    assert_eq!(st.outer[0], vec![0, 1]);
    assert_eq!(st.outer[8], vec![2, 3]);
    assert_eq!(st.dist[0][8], 4);
    assert_eq!(st.dist[5][3], 2);
}

#[test]
fn placement_and_components() {
    // a 2 by 2 loop: right+down, left+down, right+up, left+up
    let input = Input::from_rows(2, 5, &rows(&["c9", "63"]));
    let st = State::new(&input);
    assert!(st.check_ok_placement(0));
    assert!(st.check_ok_placement(3));
    assert_eq!(st.count_components(), 1);
    let apart = Input::from_rows(2, 5, &rows(&["40", "01"]));
    let st = State::new(&apart);
    // tile 4 at (0,0) has no partner to its right
    assert!(!st.check_ok_placement(0));
    // tile 1 at (1,1) has no partner to its left
    assert!(!st.check_ok_placement(3));
    // a tile with a line end off the board
    let off = Input::from_rows(2, 5, &rows(&["c9", "6b"]));
    let st2 = State::new(&off);
    assert!(!st2.check_ok_placement(3));
    assert_eq!(st.count_components(), 4);
}

#[test]
fn swaps_undo_and_progress() {
    let input = Input::from_rows(3, 20, &rows(&["4a1", "6f9", "05c"]));
    let mut st = State::new(&input);
    let mut mt = rand_pcg::Mcg128Xsl64::new(768);
    let mut progress = Progress::new(st.count_components());
    assert_eq!(progress.best_dist, i64::MAX);
    for _ in 0..300 {
        let before = (st.place.clone(), st.c.clone());
        let (i, j, r) = st.try_swap(3, &mut mt);
        assert!(i < 9 && j < 9);
        match r {
            None => assert_eq!((st.place.clone(), st.c.clone()), before),
            Some((dd, nc)) => {
                assert_ne!(i, j);
                assert_eq!(st.place[i], before.0[j]);
                assert_eq!(nc, st.count_components());
                let expect = -st.dist[before.0[i]][j] + st.dist[before.0[i]][i]
                    - st.dist[before.0[j]][i]
                    + st.dist[before.0[j]][j];
                assert_eq!(dd, expect);
                if dd >= 0 {
                    let count = progress.swap_cnt;
                    progress.accept(&mut st, input.s, i, j, dd, nc);
                    assert_eq!(progress.swap_cnt, count + 1);
                    assert_eq!(progress.now_comps, nc);
                } else {
                    st.undo_swap(i, j);
                    assert_eq!((st.place.clone(), st.c.clone()), before);
                }
            }
        }
    }
}

#[test]
fn slide_search_moves_and_takes_back() {
    let input = Input::from_rows(3, 20, &rows(&["4a1", "6f9", "05c"]));
    let st = State::new(&input);
    // the goal swaps the first two tiles
    let goal = vec![1, 0, 2, 3, 4, 5, 6, 7, 8];
    let mut ans = AnsState::new(&input, goal, st.check.clone());
    assert_eq!(ans.s, 6);
    // tiles 0 and 1 are each one cell from their goal; the empty tile 6 is not counted
    assert_eq!(ans.dist_sum, 2);
    assert_eq!(ans.dist[0][1], 0);
    assert_eq!(ans.dist[0][8], 3);
    assert_eq!(ans.zob, 0);
    let cands = ans.next_candidates();
    assert_eq!(cands.len(), 2);
    // the neighbours in order left, right, up, down: right (7), then up (3)
    assert_eq!(cands[0].action.dir, 2);
    assert_eq!(cands[1].action.dir, 1);
    let before = (ans.place.clone(), ans.s, ans.dist_sum, ans.zob);
    for c in &cands {
        ans.forward(&c.action);
        assert_eq!(ans.dist_sum, c.score());
        assert_eq!(ans.zob, c.hash());
        ans.backward(&c.action);
        assert_eq!((ans.place.clone(), ans.s, ans.dist_sum, ans.zob), before);
    }
    // slide up: tile 3 comes down to cell 6
    ans.forward(&AnsAction { dir: 1 });
    assert_eq!(ans.s, 3);
    assert_eq!(ans.place[6], 3);
    assert_eq!(ans.place[3], 6);
    // tile 3 now sits one cell below its goal
    assert_eq!(ans.dist_sum, 3);
}

#[test]
fn swap_if_sits_refuses_same_cell_and_keeps_board() {
    let input = Input::from_rows(3, 20, &rows(&["4a1", "6f9", "05c"]));
    let mut st = State::new(&input);
    let before = (st.place.clone(), st.c.clone());
    assert_eq!(st.swap_if_sits(3, 4, 4), None);
    assert_eq!((st.place.clone(), st.c.clone()), before);
    for i in 0..9 {
        for j in 0..9 {
            let before = (st.place.clone(), st.c.clone());
            st.place.swap(i, j);
            st.c.swap(i, j);
            let sits = i != j && st.check_ok_placement(i) && st.check_ok_placement(j);
            st.place.swap(i, j);
            st.c.swap(i, j);
            let r = st.swap_if_sits(3, i, j);
            assert_eq!(r.is_some(), sits);
            match r {
                None => assert_eq!((st.place.clone(), st.c.clone()), before),
                Some((dd, nc)) => {
                    assert_ne!(i, j);
                    assert_eq!(st.place[i], before.0[j]);
                    assert_eq!(st.c[j], before.1[i]);
                    assert!(st.check_ok_placement(i) && st.check_ok_placement(j));
                    assert_eq!(nc, st.count_components());
                    let expect = -st.dist[before.0[i]][j] + st.dist[before.0[i]][i]
                        - st.dist[before.0[j]][i]
                        + st.dist[before.0[j]][j];
                    assert_eq!(dd, expect);
                    st.undo_swap(i, j);
                    assert_eq!((st.place.clone(), st.c.clone()), before);
                }
            }
        }
    }
}

#[test]
fn slide_search_takes_back_and_skips_off_board() {
    use_slide_search();
}

fn use_slide_search() {
    let input = Input::from_rows(3, 20, &rows(&["4a1", "6f9", "05c"]));
    let st = State::new(&input);
    let place: Vec<usize> = (0..9).collect();
    let mut s = SlideSearch::new(AnsState::new(&input, place, st.check.clone()));
    let before = (s.st.place.clone(), s.st.s, s.st.dist_sum, s.st.zob);
    let cands = s.next_candidates();
    assert!(!cands.is_empty());
    let a = cands[0].action;
    s.forward(&a);
    assert_eq!(s.st.dist_sum, cands[0].score);
    assert_eq!(s.st.zob, cands[0].hash);
    s.backward(&a);
    assert_eq!((s.st.place.clone(), s.st.s, s.st.dist_sum, s.st.zob), before);
    assert!(s.slid_ok.is_empty());
    // a direction that does not exist is recorded as skipped
    s.forward(&AnsAction { dir: 7 });
    assert_eq!(s.slid_ok, vec![false]);
    assert_eq!((s.st.place.clone(), s.st.s), (before.0.clone(), before.1));
    s.backward(&AnsAction { dir: 7 });
    assert!(s.slid_ok.is_empty());
}
