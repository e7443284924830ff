use niuristic::contest::tile_search::{DirOrders, TileSearch};
use niuristic::contest::tiles::{pos, Input, Pos, State, N};
use std::time::{Duration, Instant};

/// Tile 0 everywhere but a corridor of tiles 1, 2, 3 along the top row;
/// values 5 and 7 in the corridor, 100 just below its end, 1 below the start.
fn corridor() -> Input {
    let mut ts = vec![vec![0usize; N]; N];
    let mut vs = vec![vec![0usize; N]; N];
    ts[0][0] = 1;
    ts[0][1] = 2;
    ts[0][2] = 3;
    vs[0][1] = 5;
    vs[0][2] = 7;
    vs[1][2] = 100;
    vs[1][0] = 1;
    Input::new(0, 0, ts, vs)
}

#[test]
fn dir_orders_are_all_arrangements() {
    let orders = DirOrders::new();
    assert_eq!(orders.orders.len(), 24);
    for o in &orders.orders {
        let mut s = o.clone();
        s.sort();
        assert_eq!(s, vec![0, 1, 2, 3]);
    }
    assert_eq!(orders.orders[0], vec![0, 1, 2, 3]);
    assert_eq!(orders.orders[23], vec![3, 2, 1, 0]);
}

#[test]
fn init_perm_finds_the_richest_walk() {
    let input = corridor();
    assert_eq!(input.m, 4);
    let mut st = State::new(&input);
    st.init_perm(&input, &Instant::now(), u128::MAX);
    assert_eq!(st.perm, vec![pos(0, 0), pos(0, 1), pos(0, 2), pos(1, 2)]);
    assert_eq!(st.score, 112);
    assert_eq!(st.used_tile, vec![true, true, true, true]);
}

#[test]
fn init_perm_out_of_time_keeps_the_start() {
    let input = corridor();
    let mut st = State::new(&input);
    let long_ago = Instant::now() - Duration::from_millis(20);
    st.init_perm(&input, &long_ago, 0);
    assert_eq!(st.perm, vec![pos(0, 0)]);
    assert_eq!(st.score, 0);
    assert_eq!(st.used_tile, vec![false, true, false, false]);
}

fn search_to(end: Option<Pos>, thre: isize) -> TileSearch {
    TileSearch {
        perm: vec![pos(0, 0)],
        used_tile: vec![false, true, false, true],
        score: -3,
        thre,
        end,
        best_perm: vec![],
        best_used_tile: vec![],
        best_score: 0,
        tl: u128::MAX,
        stop: false,
    }
}

#[test]
fn dfs_reaches_the_end_over_the_bar() {
    let input = corridor();
    let orders = DirOrders::new();
    let mut mt = rand_pcg::Mcg128Xsl64::new(768);
    let mut s = search_to(Some(pos(0, 2)), -100);
    s.dfs(&input, &mut mt, &orders, &Instant::now());
    assert!(s.stop);
    assert_eq!(s.best_perm, vec![pos(0, 0), pos(0, 1), pos(0, 2)]);
    assert_eq!(s.best_score, -3 + 5 + 7);
    assert_eq!(s.best_used_tile, vec![false, true, true, true]);
    // the stretch itself is left as it was
    assert_eq!(s.perm, vec![pos(0, 0)]);
    assert_eq!(s.used_tile, vec![false, true, false, true]);
    assert_eq!(s.score, -3);
}

#[test]
fn dfs_below_the_bar_finds_nothing() {
    let input = corridor();
    let orders = DirOrders::new();
    let mut mt = rand_pcg::Mcg128Xsl64::new(768);
    let mut s = search_to(Some(pos(0, 2)), 9);
    s.dfs(&input, &mut mt, &orders, &Instant::now());
    assert!(!s.stop);
    assert!(s.best_perm.is_empty());
    assert_eq!(s.best_score, 0);
}

#[test]
fn dfs_without_end_keeps_the_richest() {
    let input = corridor();
    let orders = DirOrders::new();
    let mut mt = rand_pcg::Mcg128Xsl64::new(7);
    let mut s = search_to(None, 0);
    // tile 3 is free here, so the corridor and the cell below it are open
    s.used_tile = vec![false, true, false, false];
    s.dfs(&input, &mut mt, &orders, &Instant::now());
    assert_eq!(s.best_perm, vec![pos(0, 0), pos(0, 1), pos(0, 2), pos(1, 2)]);
    assert_eq!(s.best_score, -3 + 112);
    assert_eq!(s.best_used_tile, vec![true, true, true, true]);
    assert_eq!(s.perm, vec![pos(0, 0)]);
}

#[test]
fn step_dir_out_of_time_changes_nothing() {
    let input = corridor();
    let orders = DirOrders::new();
    let mut mt = rand_pcg::Mcg128Xsl64::new(768);
    let mut s = search_to(Some(pos(0, 2)), -100);
    s.tl = 10;
    assert!(!s.step_dir(&input, &mut mt, &orders, &Instant::now(), 0, 11));
    assert!(!s.stop);
    assert!(s.best_perm.is_empty());
    assert_eq!(s.perm, vec![pos(0, 0)]);
}

#[test]
fn step_dir_tries_one_direction() {
    let input = corridor();
    let orders = DirOrders::new();
    let mut mt = rand_pcg::Mcg128Xsl64::new(768);
    // up is off the board: nothing changes, the search goes on
    let mut s = search_to(Some(pos(0, 2)), -100);
    assert!(s.step_dir(&input, &mut mt, &orders, &Instant::now(), 3, 0));
    assert!(s.best_perm.is_empty());
    assert!(!s.stop);
    // down enters a cell of tile 0, which is free: the walk from there is
    // searched, and the stretch is left as it was
    assert!(s.step_dir(&input, &mut mt, &orders, &Instant::now(), 1, 0));
    assert_eq!(s.perm, vec![pos(0, 0)]);
    assert_eq!(s.used_tile, vec![false, true, false, true]);
    assert_eq!(s.score, -3);
    // right reaches the end over the bar at once
    let mut e = search_to(Some(pos(0, 1)), -100);
    assert!(e.step_dir(&input, &mut mt, &orders, &Instant::now(), 0, 0));
    assert!(e.stop);
    assert_eq!(e.best_perm, vec![pos(0, 0), pos(0, 1)]);
    assert_eq!(e.best_score, -3 + 5);
    // once done, no further step is taken
    assert!(!e.step_dir(&input, &mut mt, &orders, &Instant::now(), 1, 0));
}
