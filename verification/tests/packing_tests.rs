use niuristic::beam::leaf::BeamState;
use niuristic::contest::packing::{suffix_areas, ColumnPlaced, PackSearch, PackState, Rect};

fn start(rects: Vec<Rect>) -> PackState {
    let area_acc = suffix_areas(&rects);
    PackState {
        turn: 0,
        max_x: 573000,
        area_acc,
        max_y: 0,
        rects,
        col_idx: vec![],
        col_placed: vec![],
        dead_spaces: 0,
        free_spaces: 0,
        dead_col: 0,
        dead_line: 0,
        dead_flag: 0,
        sh: 0,
    }
}

fn two() -> Vec<Rect> {
    vec![Rect { w: 30, h: 40 }, Rect { w: 50, h: 20 }]
}

#[test]
fn rect_turns() {
    let r = Rect { w: 30, h: 40 };
    assert_eq!(r.get(false), (40, 30));
    assert_eq!(r.get(true), (30, 40));
}

#[test]
fn suffix_areas_sum_from_the_back() {
    assert_eq!(suffix_areas(&two()), vec![2200, 1000, 0]);
    assert_eq!(suffix_areas(&vec![]), vec![0]);
}

#[test]
fn first_placements_rest_on_the_floor() {
    let st = start(two());
    let acts = st.next_acts();
    assert_eq!(acts.len(), 2);
    assert_eq!((acts[0].col, acts[0].rot), (0, false));
    assert_eq!((acts[1].col, acts[1].rot), (0, true));
    assert_eq!(acts[0].free_space, 30 * 573000 - 1200);
    assert_eq!(acts[1].free_space, 40 * 573000 - 1200);
    assert_eq!((acts[0].placed.x_left, acts[0].placed.x_right, acts[0].placed.y), (0, 40, 30));
    assert_eq!((acts[1].placed.x_left, acts[1].placed.x_right, acts[1].placed.y), (0, 30, 40));
    assert_eq!(acts[0].next_max_y, 30);
    assert_eq!(acts[0].dead_space, 0);
}

#[test]
fn second_placements_and_sweep() {
    let mut st = start(two());
    let acts = st.next_acts();
    st.forward(&acts[0]);
    assert_eq!(st.turn, 1);
    assert_eq!(st.max_y, 30);
    assert_eq!(st.hash(), 1);
    assert_eq!(st.score(), 30 * 573000 - 1200 - 1000);
    let acts = st.next_acts();
    assert_eq!(acts.len(), 4);
    let keys: Vec<(usize, bool)> = acts.iter().map(|a| (a.col, a.rot)).collect();
    assert_eq!(keys, vec![(0, false), (0, true), (1, false), (1, true)]);
    // stacked on the first rectangle in its column
    assert_eq!((acts[0].placed.x_left, acts[0].placed.x_right, acts[0].placed.y), (40, 60, 50));
    assert_eq!(acts[0].free_space, 20 * 573000 - 1000);
    assert_eq!(acts[1].free_space, -1000);
    // a new column resting on the first one
    assert_eq!((acts[2].placed.x_left, acts[2].placed.x_right, acts[2].placed.y), (0, 20, 80));
    assert_eq!(acts[2].before_next_idx, vec![(0, 0)]);
    assert_eq!(acts[2].dead_space, 0);
    assert_eq!(acts[2].next_max_y, 80);
    // wider than the first column: the gap under it beyond x = 40 is dead
    assert_eq!((acts[3].placed.x_left, acts[3].placed.x_right, acts[3].placed.y), (0, 50, 50));
    assert_eq!(acts[3].before_next_idx, vec![(0, 1)]);
    assert_eq!(acts[3].dead_space, 300);
    assert_eq!(acts[3].before_next_dead_flag, (0, 1));
}

#[test]
fn backward_undoes_forward() {
    let mut st = start(two());
    let acts = st.next_acts();
    st.forward(&acts[0]);
    let acts = st.next_acts();
    for a in &acts {
        let before = (
            st.turn,
            st.max_y,
            st.col_idx.clone(),
            st.col_placed.iter().map(|c| c.iter().map(|p| (p.x_left, p.x_right, p.y)).collect::<Vec<_>>()).collect::<Vec<_>>(),
            st.dead_spaces,
            st.free_spaces,
            st.dead_col,
            st.dead_line,
            st.dead_flag,
        );
        let sh = st.sh;
        st.forward(a);
        assert_eq!(st.turn, 2);
        assert_eq!(st.dead_spaces, a.dead_space);
        assert_eq!(st.dead_flag, a.before_next_dead_flag.1);
        st.backward(a);
        let after = (
            st.turn,
            st.max_y,
            st.col_idx.clone(),
            st.col_placed.iter().map(|c| c.iter().map(|p| (p.x_left, p.x_right, p.y)).collect::<Vec<_>>()).collect::<Vec<_>>(),
            st.dead_spaces,
            st.free_spaces,
            st.dead_col,
            st.dead_line,
            st.dead_flag,
        );
        assert_eq!(before, after);
        // the hash counts every placement made, taken back or not
        assert_eq!(st.sh, sh + 1);
    }
}

#[test]
fn narrow_strip_closes_columns() {
    let mut st = start(two());
    st.max_x = 70;
    let acts = st.next_acts();
    st.forward(&acts[0]);
    let acts = st.next_acts();
    // in column 0: 40 + 20 fits, 40 + 50 does not
    let keys: Vec<(usize, bool)> = acts.iter().map(|a| (a.col, a.rot)).collect();
    assert_eq!(keys, vec![(0, false), (1, false), (1, true)]);
    // a new column with less than 30000 left beyond it closes
    assert_eq!(acts[1].dead_col_delta, 2);
    // the strip beyond x = 20 up to its top (80) counts as dead
    assert_eq!(acts[1].dead_space, 80 * 50);
    assert_eq!(acts[1].dead_line_delta, 80);
}

#[test]
fn next_acts_beside_one_column() {
    let s = PackState {
        turn: 1,
        max_x: 100000,
        area_acc: vec![0; 3],
        max_y: 2,
        rects: vec![Rect { w: 2, h: 3 }, Rect { w: 2, h: 1 }],
        col_idx: vec![0],
        col_placed: vec![vec![ColumnPlaced { x_left: 0, x_right: 3, y: 2 }]],
        dead_spaces: 0,
        free_spaces: 0,
        dead_col: 0,
        dead_line: 0,
        dead_flag: 0,
        sh: 1,
    };
    let got: Vec<(usize, bool, i64, i64, i64, i64, i64, i64)> = s
        .next_acts()
        .iter()
        .map(|a| (a.col, a.rot, a.placed.x_left, a.placed.x_right, a.placed.y, a.next_max_y, a.free_space, a.dead_space))
        .collect();
    assert_eq!(
        got,
        vec![
            (0, false, 3, 4, 2, 2, -2, 0),
            (0, true, 3, 5, 1, 2, -2, 0),
            (1, false, 0, 1, 4, 4, 199998, 0),
            (1, true, 0, 2, 3, 3, 99998, 0),
        ]
    );
}

#[test]
fn pack_search_takes_back_all_but_the_counter() {
    let mut s = PackSearch::new(start(two()));
    let acts = s.next_acts();
    assert_eq!(acts.len(), 2);
    let before = (s.st.turn, s.st.max_y, s.st.col_idx.clone(), s.st.dead_spaces, s.st.free_spaces, s.score());
    s.forward(&acts[0]);
    assert_eq!(s.st.turn, 1);
    assert_eq!(s.placed, vec![true]);
    s.backward(&acts[0]);
    assert_eq!((s.st.turn, s.st.max_y, s.st.col_idx.clone(), s.st.dead_spaces, s.st.free_spaces, s.score()), before);
    assert!(s.st.col_placed.is_empty());
    // the counter that serves as hash only goes up
    assert_eq!(s.hash(), 1);
    // a placement that does not fit is skipped, and so is its taking back
    let mut bad = acts[1].clone();
    bad.before_max_y = 12345;
    s.forward(&bad);
    assert_eq!(s.st.turn, 0);
    assert_eq!(s.placed, vec![false]);
    s.backward(&bad);
    assert!(s.placed.is_empty());
}
