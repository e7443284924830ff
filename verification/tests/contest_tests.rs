use niuristic::contest::maze::{build_moves, shortest_route, CELLS};
use niuristic::contest::online_mst::take_edge;
use niuristic::ds::union_find::UnionFind;
use niuristic::contest::servers::get_start;
use niuristic::contest::tiles::{dir_of, pos, route_letters, Input as TileInput, State as TileState, N as TILE_N};
use niuristic::contest::zero_sum::{ZeroSumSearch, ZeroSumState, N as COUNTERS, TURN};
use niuristic::beam::leaf::{BeamSearch, BeamState, SortSelector};

use niuristic::util::grid::{neighbour_lists, neighbour_slots, Bitset, N2pPos};

fn queries() -> Vec<[usize; 3]> {
    (0..TURN).map(|t| [t % COUNTERS, (t + 1) % COUNTERS, (t + 5) % COUNTERS]).collect()
}

#[test]
fn zero_sum_start() {
    let st = ZeroSumState::new(queries());
    assert_eq!(st.hash(), 0);
    assert_eq!(st.next_acts(), vec![true]);
    // every counter is zero, and can be zero again at most once per turn
    assert!(st.score() >= COUNTERS as i32);
}

#[test]
fn zero_sum_backward_undoes_forward() {
    let mut st = ZeroSumState::new(queries());
    st.forward(true);
    assert_eq!(st.next_acts(), vec![false, true]);
    let mut trail = vec![];
    for t in 1..30 {
        let act = t % 3 != 0;
        let before = (st.score(), st.hash());
        st.forward(act);
        assert_ne!(st.hash(), before.1);
        trail.push((act, before));
    }
    while let Some((act, before)) = trail.pop() {
        st.backward(act);
        assert_eq!((st.score(), st.hash()), before);
    }
}

#[test]
fn zero_sum_turns_change_the_hash() {
    // turn 0 moves counters 0, 1, 5 up; turn 1 moves counters 1, 2, 6
    let mut a = ZeroSumState::new(queries());
    a.forward(true);
    let h1 = a.hash();
    a.forward(false);
    let mut b = ZeroSumState::new(queries());
    b.forward(true);
    b.forward(true);
    assert_ne!(a.hash(), h1);
    assert_ne!(a.hash(), b.hash());
}

#[test]
fn servers_start_nearest_the_centre() {
    let n = 5;
    let mut c = vec![0u8; n * n];
    c[0] = 3;
    c[4 * 5 + 4] = 3;
    c[1 * 5 + 2] = 3;
    c[3 * 5 + 2] = 3;
    // (1, 2) and (3, 2) are both one step from (2, 2): the smaller index
    assert_eq!(get_start(n, &c, 3), 7);
    assert_eq!(get_start(n, &c, 0), 2 * 5 + 2);
    assert_eq!(get_start(n, &c, 9), usize::MAX);
}

fn open_maze() -> (Vec<Vec<char>>, Vec<Vec<char>>) {
    (vec![vec!['0'; 19]; 20], vec![vec!['0'; 20]; 19])
}

#[test]
fn maze_moves_follow_the_walls() {
    let (mut h, mut v) = open_maze();
    h[0][0] = '1';
    v[0][1] = '1';
    let g = build_moves(&h, &v);
    assert_eq!(g.len(), CELLS);
    // right from (0, 0) is walled; down is open
    assert_eq!(g[0], vec![0, 0, 20, 0]);
    // from (0, 1): right, left (walled), down (walled), up (edge)
    assert_eq!(g[1], vec![2, 1, 1, 1]);
    assert_eq!(g[399], vec![399, 398, 399, 379]);
}

fn walk(g: &Vec<Vec<usize>>, s: usize, dirs: &[usize]) -> usize {
    dirs.iter().fold(s, |x, &d| g[x][d])
}

#[test]
fn maze_route_reaches_the_goal() {
    let (mut h, v) = open_maze();
    // a wall down the middle of the top row
    h[0][4] = '1';
    let g = build_moves(&h, &v);
    let route = shortest_route(0, 5, &g);
    assert_eq!(walk(&g, 0, &route), 5);
    assert_eq!(route.len(), 7);
    let route = shortest_route(0, 399, &g);
    assert_eq!(route.len(), 38);
    assert_eq!(walk(&g, 0, &route), 399);
    assert_eq!(shortest_route(7, 7, &g), Vec::<usize>::new());
}

#[test]
fn maze_route_empty_when_goal_is_walled_in() {
    let (mut h, mut v) = open_maze();
    // wall in cell (0, 19): left of it and below it
    h[0][18] = '1';
    v[0][19] = '1';
    let g = build_moves(&h, &v);
    assert_eq!(g[19], vec![19, 19, 19, 19]);
    assert!(shortest_route(0, 19, &g).is_empty());
    assert!(shortest_route(19, 0, &g).is_empty());
    // every other cell is still reached by a shortest route
    let route = shortest_route(0, 18, &g);
    assert_eq!(route.len(), 18);
    assert_eq!(walk(&g, 0, &route), 18);
}

#[test]
fn tiles_positions_and_steps() {
    let p = pos(3, -4);
    assert_eq!(p.norm1(), 7);
    assert!(!p.is_valid());
    assert!(pos(0, 49).is_valid());
    assert!(!pos(50, 0).is_valid());
    assert_eq!(pos(1, 2).sum(pos(3, 4)), pos(4, 6));
    assert_eq!(pos(1, 2).diff(pos(3, 4)), pos(-2, -2));
    assert_eq!(pos(1, -2).scale(3), pos(3, -6));
    assert_eq!(dir_of(0), (pos(0, 1), 'R'));
    assert_eq!(dir_of(3), (pos(-1, 0), 'U'));
    let walk = vec![pos(0, 0), pos(0, 1), pos(1, 1), pos(1, 0), pos(0, 0)];
    assert_eq!(route_letters(&walk), vec!['R', 'D', 'L', 'U']);
    assert_eq!(route_letters(&vec![pos(5, 5)]), Vec::<char>::new());
}

fn tile_board() -> TileInput {
    // two cells a tile, side by side along each row
    let ts: Vec<Vec<usize>> = (0..TILE_N).map(|i| (0..TILE_N).map(|j| i * TILE_N / 2 + j / 2).collect()).collect();
    let vs: Vec<Vec<usize>> = (0..TILE_N).map(|i| (0..TILE_N).map(|j| (i * 7 + j * 3) % 100).collect()).collect();
    TileInput::new(0, 0, ts, vs)
}

#[test]
fn tiles_input() {
    let input = tile_board();
    assert_eq!(input.start, pos(0, 0));
    assert_eq!(input.m, 49 * 25 + 24 + 1);
    assert_eq!(input.get_tile(pos(0, 1)), 0);
    assert_eq!(input.get_tile(pos(1, 0)), 25);
    assert_eq!(input.get_value(pos(2, 3)), 23);
    let st = TileState::new(&input);
    assert!(st.perm.is_empty());
    assert_eq!(st.used_tile.len(), input.m);
    assert_eq!(st.score, 0);
}

#[test]
fn tiles_segments_free_and_restore() {
    let input = tile_board();
    let mut st = TileState::new(&input);
    // a walk down the first column
    for x in 0..30 {
        let p = pos(x, 0);
        st.perm.push(p);
        st.used_tile[input.get_tile(p)] = true;
        st.score += input.get_value(p);
    }
    let used = st.used_tile.clone();
    let mut mt = rand_pcg::Mcg128Xsl64::new(768);
    for _ in 0..20 {
        let seg = st.open_segment(&input, &mut mt);
        assert!(seg.j - seg.i >= 2 && seg.j - seg.i < 20);
        let hi = seg.j.min(st.perm.len());
        let mut expect = 0;
        for k in seg.i + 1..hi {
            assert!(!st.used_tile[input.get_tile(st.perm[k])]);
            expect -= input.get_value(st.perm[k]);
        }
        if seg.j < st.perm.len() {
            assert_eq!(seg.end, Some(st.perm[seg.j]));
            expect -= input.get_value(st.perm[seg.j]);
        } else {
            assert_eq!(seg.end, None);
        }
        assert_eq!(seg.score, expect);
        st.close_segment(&input, seg.i, seg.j);
        assert_eq!(st.used_tile, used);
    }
}

#[test]
fn tiles_splice() {
    let input = tile_board();
    let mut st = TileState::new(&input);
    st.perm = vec![pos(0, 0), pos(1, 0), pos(2, 0), pos(3, 0)];
    let used = vec![true; input.m];
    st.splice_segment(1, 2, vec![pos(1, 0), pos(1, 1), pos(2, 1), pos(2, 0)], used.clone());
    assert_eq!(st.perm, vec![pos(0, 0), pos(1, 0), pos(1, 1), pos(2, 1), pos(2, 0), pos(3, 0)]);
    assert_eq!(st.used_tile, used);
}

#[test]
fn grid_positions() {
    type P = N2pPos<3, 4, 2>;
    let p = P::xy(1, 2);
    assert_eq!(p.0, 6);
    assert_eq!(p.to_xy(), (1, 2));
    assert!(!p.is_dang());
    assert!(P::dang().is_dang());
    assert_eq!(p.delta(0).map(|q| q.0), Some(5));
    assert_eq!(p.delta(1).map(|q| q.0), Some(2));
    assert_eq!(p.delta(2).map(|q| q.0), None);
    assert_eq!(p.delta(3).map(|q| q.0), Some(10));
    assert_eq!(P::xy(0, 0).delta(0).map(|q| q.0), None);
    assert_eq!(P::xy(0, 0).delta(1).map(|q| q.0), None);
    assert_eq!(P::xy(2, 0).delta(3).map(|q| q.0), None);
}

#[test]
fn grid_bitset() {
    let mut b = Bitset::new(130);
    assert!(!b.get(129));
    b.set(129, true);
    b.set(64, true);
    assert!(b.get(129));
    assert!(b.get(64));
    assert!(!b.get(63));
    b.set(129, false);
    assert!(!b.get(129));
}

#[test]
fn grid_neighbour_tables() {
    let lists = neighbour_lists(3);
    assert_eq!(lists.len(), 9);
    assert_eq!(lists[0], vec![3, 1]);
    assert_eq!(lists[4], vec![1, 7, 3, 5]);
    assert_eq!(lists[8], vec![5, 7]);
    let slots = neighbour_slots(3);
    assert_eq!(slots.len(), 36);
    assert_eq!(&slots[0..4], &[usize::MAX, 3, usize::MAX, 1]);
    assert_eq!(&slots[16..20], &[1, 7, 3, 5]);
}

#[test]
fn online_mst_takes_edges_the_cases_miss() {
    let es = vec![(0, 1), (1, 2), (2, 3), (0, 3)];
    let uf = UnionFind::new(4);
    // joins 1-2, then 0-3, then 2-3, which puts 0 and 1 together: 6
    let a = vec![(3, 1, 1, 2), (4, 3, 0, 3), (6, 2, 2, 3)];
    // the edge of turn 0 itself does not count: 5
    let b = vec![(2, 0, 0, 1), (5, 3, 0, 1)];
    // never joins 0 and 1
    let c = vec![(1, 1, 2, 3)];
    let cases = vec![a.clone(), b.clone()];
    assert!(take_edge(&uf, &es, &cases, 0, 5));
    assert!(!take_edge(&uf, &es, &cases, 0, 6));
    let cases = vec![a.clone(), c.clone()];
    assert!(take_edge(&uf, &es, &cases, 0, 1_000_000_000));
    let mut joined = UnionFind::new(4);
    joined.unite(0, 1);
    assert!(!take_edge(&joined, &es, &vec![a, b, c], 0, 0));
}

#[test]
fn get_start_on_a_large_board() {
    let n = 1001;
    let mut c = vec![0u8; n * n];
    c[0] = 5;
    c[n * n - 1] = 5;
    c[(n / 2) * n + n / 2 + 3] = 5;
    assert_eq!(get_start(n, &c, 5), (n / 2) * n + n / 2 + 3);
    assert_eq!(get_start(n, &c, 0), (n / 2) * n + n / 2);
}

#[test]
fn zero_sum_turns_counted() {
    let queries: Vec<[usize; 3]> = (0..TURN).map(|i| [i % COUNTERS, (i + 1) % COUNTERS, (i + 2) % COUNTERS]).collect();
    let mut st = ZeroSumState::new(queries);
    assert_eq!(st.turn(), 0);
    st.forward(true);
    assert_eq!(st.turn(), 1);
    st.backward(true);
    assert_eq!(st.turn(), 0);
}

#[test]
fn zero_sum_search_round_trip_and_beam() {
    let mut s = ZeroSumSearch::new(ZeroSumState::new(queries()));
    let (score0, hash0) = (s.score(), s.hash());
    assert_eq!(s.next_acts(), vec![true]);
    s.forward(&true);
    assert_eq!(s.game.turn(), 1);
    assert_eq!(s.next_acts(), vec![false, true]);
    s.forward(&false);
    assert_eq!(s.game.turn(), 2);
    s.backward(&false);
    s.backward(&true);
    assert_eq!(s.game.turn(), 0);
    assert_eq!((s.score(), s.hash()), (score0, hash0));
    // a search of three steps returns the game to its start
    let mut beam = BeamSearch::new(64, 8, ZeroSumSearch::new(ZeroSumState::new(queries())));
    for _ in 0..3 {
        let mut sel = SortSelector::new(4);
        beam.extend(&mut sel);
        assert_eq!(beam.state.game.turn(), 0);
        assert!(!sel.selected.is_empty());
        sel.select(&mut beam);
    }
}
