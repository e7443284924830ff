use niuristic::beam::selector::BeamCandidate;
use niuristic::beam::ett::BeamState;
use niuristic::contest::typing::{move_cost_of, shared_letters, Input, State, TypingSearch, CELLS, M, N};

fn grid() -> Vec<Vec<char>> {
    (0..N)
        .map(|i| (0..N).map(|j| (b'A' + ((i * N + j) % 26) as u8) as char).collect())
        .collect()
}

/// Words of five to seven letters, no two starting with the same five.
fn words() -> Vec<Vec<char>> {
    (0..M)
        .map(|w| {
            let head = [w % 26, w / 26, w * 3 % 26, (w * 5 + 1) % 26, (w * 11 + 2) % 26];
            let tail = (5..5 + w % 3).map(|k| (w + k) % 26);
            head.into_iter().chain(tail).map(|x| (b'A' + x as u8) as char).collect()
        })
        .collect()
}

#[test]
fn move_costs() {
    assert_eq!(move_cost_of(0, 0), 1);
    assert_eq!(move_cost_of(0, 1), 2);
    // (0, 0) to (14, 14)
    assert_eq!(move_cost_of(0, CELLS - 1), 29);
    assert_eq!(move_cost_of(16, 2), 3);
}

#[test]
fn shared_letters_of_words() {
    let a = vec![0, 1, 2, 3, 4];
    assert_eq!(shared_letters(&a, &vec![2, 3, 4, 5, 6]), 3);
    assert_eq!(shared_letters(&a, &a), 5);
    assert_eq!(shared_letters(&a, &vec![5, 6, 7, 8, 9]), 0);
    assert_eq!(shared_letters(&a, &vec![4, 0, 0, 0, 0]), 1);
    // only the first five letters of the first word count
    assert_eq!(shared_letters(&vec![0, 1, 2, 3, 4, 9], &vec![3, 4, 9, 9, 9]), 2);
}

#[test]
fn input_from_grid() {
    let input = Input::from_grid(7, 3, &grid(), &words());
    assert_eq!(input.start, 7 * N + 3);
    assert_eq!(input.a[0], 0);
    assert_eq!(input.a[27], 1);
    assert_eq!(input.t[1], vec![1, 0, 3, 6, 13, 6]);
    // the cells of letter 'A' in order, and each cell's place among them
    assert_eq!(input.k[0], vec![0, 26, 52, 78, 104, 130, 156, 182, 208]);
    assert_eq!(input.ik[52], 2);
}

#[test]
fn typing_moves_forward_and_back() {
    let input = Input::from_grid(7, 3, &grid(), &words());
    let mut st = State::new(&input);
    assert_eq!(st.word, 255);
    assert_eq!(st.pos, input.start);
    assert_eq!(st.cost, 0);
    assert_eq!(st.zob, 0);
    let cands = st.next_candidates();
    // one candidate for each cell holding a word's last letter
    let expect: usize = (0..M)
        .map(|w| {
            let last = *input.t[w].last().unwrap() as usize;
            input.k[last].len()
        })
        .sum();
    assert_eq!(cands.len(), expect);
    for c in cands.iter().take(40) {
        let before = (st.word, st.pos, st.cost, st.used.clone(), st.zob, st.hist.clone());
        assert_eq!(input.a[c.act.pos as usize], *input.t[c.act.word as usize].last().unwrap());
        st.forward(&c.act);
        assert_eq!(st.cost as i64, c.score());
        assert_eq!(st.zob, c.hash());
        assert_eq!(st.word, c.act.word as usize);
        assert!(st.used[c.act.word as usize]);
        st.backward(&c.act);
        assert_eq!((st.word, st.pos, st.cost, st.used.clone(), st.zob, st.hist.clone()), before);
    }
}

#[test]
fn used_words_are_not_offered() {
    let input = Input::from_grid(0, 0, &grid(), &words());
    let mut st = State::new(&input);
    let first = st.next_candidates()[0].act;
    st.forward(&first);
    let cands = st.next_candidates();
    assert!(cands.iter().all(|c| c.act.word != first.word));
}

#[test]
fn typed_cells_spell_the_words() {
    let input = Input::from_grid(7, 3, &grid(), &words());
    let mut st = State::new(&input);
    let first = st.next_candidates()[5].act;
    st.forward(&first);
    let second = st.next_candidates()[3].act;
    let acts = vec![first, second];
    let cells = st.typed_cells(&input, input.start, &acts).unwrap();
    let w1 = &input.t[first.word as usize];
    let w2 = &input.t[second.word as usize];
    let l = shared_letters(w1, w2);
    let mut text = w1.clone();
    text.extend_from_slice(&w2[l..]);
    assert_eq!(cells.len(), text.len());
    for (c, &x) in cells.iter().zip(text.iter()) {
        assert_eq!(input.a[*c], x);
    }
    // each word ends on its action's cell
    assert_eq!(cells[w1.len() - 1], first.pos as usize);
    assert_eq!(*cells.last().unwrap(), second.pos as usize);
}

#[test]
fn typed_cells_refuse_a_wrong_end() {
    let input = Input::from_grid(7, 3, &grid(), &words());
    let st = State::new(&input);
    let mut act = st.next_candidates()[0].act;
    act.pos = act.pos.wrapping_add(1);
    assert!(st.typed_cells(&input, input.start, &vec![act]).is_none());
    let mut act = st.next_candidates()[0].act;
    act.word = 250;
    assert!(st.typed_cells(&input, input.start, &vec![act]).is_none());
    assert_eq!(st.typed_cells(&input, input.start, &vec![]), Some(vec![]));
}

#[test]
fn typing_search_types_and_takes_back() {
    let input = Input::from_grid(7, 3, &grid(), &words());
    let mut s = TypingSearch::new(State::new(&input));
    let cands = s.next_candidates();
    assert!(!cands.is_empty());
    let direct = s.st.next_candidates();
    assert_eq!(cands.len(), direct.len());
    for (a, b) in cands.iter().zip(direct.iter()) {
        assert_eq!((a.cost, a.zob, a.act.word, a.act.pos), (b.cost, b.zob, b.act.word, b.act.pos));
    }
    let c = cands[0];
    let before = (s.st.word, s.st.pos, s.st.cost, s.st.zob, s.st.used.clone());
    s.forward(&c.act);
    assert_eq!((s.st.cost, s.st.zob), (c.cost, c.zob));
    assert_eq!(s.typed_ok, vec![true]);
    s.backward(&c.act);
    assert_eq!((s.st.word, s.st.pos, s.st.cost, s.st.zob, s.st.used.clone()), before);
    // a word already typed is skipped, and so is its taking back
    s.forward(&c.act);
    s.forward(&c.act);
    assert_eq!(s.typed_ok, vec![true, false]);
    s.backward(&c.act);
    s.backward(&c.act);
    assert_eq!((s.st.word, s.st.pos, s.st.cost, s.st.zob, s.st.used.clone()), before);
}
