use niuristic::contest::delivery::{Input, State, CHOSEN, OFFICE, ORDERS, POINTS, STOPS};


/// Order `i` goes from (i % 37 * 10, i / 37 * 7) to (800 - i % 41 * 9, i % 29 * 13).
fn orders() -> Vec<(i64, i64, i64, i64)> {
    (0..ORDERS as i64)
        .map(|i| (i % 37 * 10, i / 37 * 7, 800 - i % 41 * 9, i % 29 * 13))
        .collect()
}

fn length(input: &Input, perm: &[usize]) -> i64 {
    perm.windows(2).map(|w| input.dist[w[0]][w[1]]).sum()
}

fn check_tour(st: &State) {
    assert_eq!(st.perm.len(), STOPS + 2);
    assert_eq!(st.perm[0], OFFICE);
    assert_eq!(st.perm[STOPS + 1], OFFICE);
    for k in 1..=STOPS {
        assert_eq!(st.inv[st.perm[k]], k);
    }
    for o in 0..ORDERS {
        let (p, d) = (st.inv[2 * o], st.inv[2 * o + 1]);
        assert_eq!(p == usize::MAX, d == usize::MAX);
        if p != usize::MAX {
            assert!(p < d);
        }
    }
}

#[test]
fn input_points_and_distances() {
    let input = Input::new(&orders());
    assert_eq!(input.p.len(), POINTS + 1);
    assert_eq!(input.p[0], (0, 0));
    assert_eq!(input.p[1], (800, 0));
    assert_eq!(input.p[POINTS], (400, 400));
    // |0 - 400| + |0 - 400|
    assert_eq!(input.dist[0][OFFICE], 800);
    assert_eq!(input.dist[1][0], 800);
    assert_eq!(input.dist[3][3], 0);
}

#[test]
fn first_tour_and_its_length() {
    let input = Input::new(&orders());
    let st = State::init(&input);
    check_tour(&st);
    for k in 1..=CHOSEN {
        assert_eq!(st.perm[k], 2 * (k - 1));
        assert_eq!(st.perm[CHOSEN + k], 2 * (k - 1) + 1);
    }
    assert_eq!(st.score, length(&input, &st.perm));
    assert!(st.score_matches(&input));
    assert_eq!(st.chosen_orders(), (0..CHOSEN).collect::<Vec<usize>>());
}

#[test]
fn score_matches_detects_a_wrong_length() {
    let input = Input::new(&orders());
    let mut st = State::init(&input);
    st.score += 1;
    assert!(!st.score_matches(&input));
}

#[test]
fn reverse_keeps_length_up_to_date() {
    let input = Input::new(&orders());
    let mut st = State::init(&input);
    let mut mt = rand_pcg::Mcg128Xsl64::new(768);
    let mut done = 0;
    for _ in 0..200 {
        if let Some((i, j, delta)) = st.propose_reverse(&input, &mut mt) {
            assert!(1 <= i && i + 2 <= j && j <= STOPS + 1);
            let mut p = st.perm.clone();
            p[i..j].reverse();
            assert_eq!(delta, length(&input, &p) - st.score);
            let before = st.perm.clone();
            if st.commit_reverse(&input, i, j) {
                assert_eq!(st.perm, p);
                done += 1;
            } else {
                assert_eq!(st.perm, before);
            }
            check_tour(&st);
            assert_eq!(st.score, length(&input, &st.perm));
        }
    }
    assert!(done > 0);
}

#[test]
fn reverse_refused_over_a_whole_order() {
    let input = Input::new(&orders());
    let mut st = State::init(&input);
    let before = st.perm.clone();
    // positions 1..=CHOSEN + 1 hold order 0's restaurant and destination
    assert!(!st.commit_reverse(&input, 1, CHOSEN + 2));
    assert_eq!(st.perm, before);
    assert!(st.commit_reverse(&input, 1, 3));
    assert_eq!(&st.perm[1..3], &[2, 0]);
}

#[test]
fn exchange_puts_in_a_new_order() {
    let input = Input::new(&orders());
    let mut st = State::init(&input);
    let mut mt = rand_pcg::Mcg128Xsl64::new(7);
    for _ in 0..50 {
        let e = st.propose_exchange(&input, &mut mt).unwrap();
        let old = st.perm[e.i] / 2;
        let before = st.score;
        assert!(st.commit_exchange(&input, &e));
        assert_eq!(st.score, before + e.delta);
        assert_eq!(st.inv[2 * old], usize::MAX);
        assert_ne!(st.inv[2 * e.w], usize::MAX);
        check_tour(&st);
        assert_eq!(st.score, length(&input, &st.perm));
        assert_eq!(st.chosen_orders().len(), CHOSEN);
    }
}

#[test]
fn swap_takes_the_old_stops() {
    let input = Input::new(&orders());
    let mut st = State::init(&input);
    let mut mt = rand_pcg::Mcg128Xsl64::new(11);
    for _ in 0..50 {
        let e = st.propose_swap(&input, &mut mt).unwrap();
        assert_eq!(e.x, e.i);
        assert_eq!(e.y + 1, e.j);
        let (pi, pj) = (e.i, e.j);
        assert!(st.commit_exchange(&input, &e));
        assert_eq!(st.perm[pi], 2 * e.w);
        assert_eq!(st.perm[pj], 2 * e.w + 1);
        check_tour(&st);
        assert_eq!(st.score, length(&input, &st.perm));
    }
}

#[test]
fn moves_keep_orders_and_length() {
    let input = Input::new(&orders());
    let mut st = State::init(&input);
    let mut mt = rand_pcg::Mcg128Xsl64::new(3);
    let mut moved = 0;
    for round in 0..400 {
        let r = if round % 2 == 0 {
            st.propose_move_source(&input, &mut mt)
        } else {
            st.propose_move_sink(&input, &mut mt)
        };
        if let Some((i, ni, delta)) = r {
            assert_eq!(st.perm[i] % 2, round % 2);
            let mut p = st.perm.clone();
            let v = p.remove(i);
            p.insert(ni, v);
            assert_eq!(delta, length(&input, &p) - st.score);
            st.commit_move(&input, i, ni);
            assert_eq!(st.perm, p);
            check_tour(&st);
            assert_eq!(st.score, length(&input, &st.perm));
            moved += 1;
        }
    }
    assert!(moved > 0);
}

#[test]
fn move_restaurant_to_the_front() {
    let input = Input::new(&orders());
    let mut st = State::init(&input);
    // the restaurant of order 4 sits at position 5; move it to position 1
    let before = st.score;
    let (a, b, c, d) = (st.perm[0], st.perm[4], st.perm[5], st.perm[6]);
    let gain = -input.dist[b][c] - input.dist[c][d] - input.dist[a][st.perm[1]]
        + input.dist[b][d]
        + input.dist[a][c]
        + input.dist[c][st.perm[1]];
    st.commit_move(&input, 5, 1);
    assert_eq!(st.perm[1], 8);
    assert_eq!(st.perm[2], 0);
    assert_eq!(st.perm[5], 6);
    assert_eq!(st.inv[8], 1);
    assert_eq!(st.score, before + gain);
}

#[test]
fn reverse_from_draws_orders_the_ends() {
    let input = Input::new(&orders());
    let st = State::init(&input);
    assert_eq!(st.reverse_from_draws(&input, 7, 7), None);
    let (i, j, delta) = st.reverse_from_draws(&input, 9, 3).unwrap();
    assert_eq!((i, j), (3, 10));
    let mut p = st.perm.clone();
    p[3..10].reverse();
    assert_eq!(delta, length(&input, &p) - st.score);
    assert_eq!(st.reverse_from_draws(&input, 3, 9), Some((i, j, delta)));
    let (i, j, _) = st.reverse_from_draws(&input, 4, 5).unwrap();
    assert_eq!((i, j), (4, 6));
}

#[test]
fn moves_from_draws() {
    let input = Input::new(&orders());
    let st = State::init(&input);
    let a = 6;
    let (p, d) = st.order_span(&input, a);
    assert!(p < d && (p == a || d == a));
    assert_eq!(st.perm[p] % 2, 0);
    assert_eq!(st.perm[d], st.perm[p] + 1);
    // moving the restaurant onto its own place is no move
    assert_eq!(st.move_source_to(&input, a, p), None);
    let (i, ni, delta) = st.move_source_to(&input, a, 1).unwrap_or((p, 1, 0));
    if p != 1 {
        assert_eq!((i, ni), (p, 1));
        let mut q = st.perm.clone();
        let v = q.remove(i);
        q.insert(ni, v);
        assert_eq!(delta, length(&input, &q) - st.score);
    }
    assert_eq!(st.move_sink_to(&input, a, d), None);
    let (i, ni, delta) = st.move_sink_to(&input, a, STOPS).unwrap_or((d, STOPS, 0));
    if d != STOPS {
        assert_eq!((i, ni), (d, STOPS));
        let mut q = st.perm.clone();
        let v = q.remove(i);
        q.insert(ni, v);
        assert_eq!(delta, length(&input, &q) - st.score);
    }
}
