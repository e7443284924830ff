use niuristic::util::pos::{Field2d, Pos};
use niuristic::util::tracker::{MultiTracker, OneTracker, Tracker, Tracking};

#[test]
fn multi_tracker() {
    let mut trs = Tracking::<char, MultiTracker<_>>::new(9);
    for i in 0..3 {
        for j in 0..3 {
            if i + 1 < 3 {
                trs.add_edge(i * 3 + j, (i + 1) * 3 + j, 'D');
            }
            if j + 1 < 3 {
                trs.add_edge(i * 3 + j, i * 3 + j + 1, 'R');
            }
        }
    }

    let mut mt = rand_pcg::Pcg64Mcg::new(768);
    for _ in 0..5 {
        println!("{}", trs.random_path(0, 8, &mut mt).unwrap().into_iter().map(|(_, c)| *c).collect::<String>());
    }
}

#[test]
fn random_path_is_a_path() {
    let mut trs = Tracking::<char, MultiTracker<_>>::new(9);
    for i in 0..3 {
        for j in 0..3 {
            if i + 1 < 3 {
                trs.add_edge(i * 3 + j, (i + 1) * 3 + j, 'D');
            }
            if j + 1 < 3 {
                trs.add_edge(i * 3 + j, i * 3 + j + 1, 'R');
            }
        }
    }
    let mut mt = rand_pcg::Pcg64Mcg::new(1);
    for _ in 0..20 {
        let p = trs.random_path(0, 8, &mut mt).unwrap();
        assert_eq!(p.len(), 4);
        assert_eq!(p[0].0, 0);
        let mut v = 0usize;
        for k in 0..p.len() {
            assert_eq!(p[k].0, v);
            v = if *p[k].1 == 'D' { v + 3 } else { v + 1 };
        }
        assert_eq!(v, 8);
        assert_eq!(p.iter().filter(|e| *e.1 == 'D').count(), 2);
    }
}

#[test]
fn first_pick_path() {
    let mut trs = Tracking::<u8, OneTracker<_>>::new(5);
    trs.add_edge(0, 1, b'a');
    trs.add_edge(1, 2, b'b');
    trs.add_edge(0, 2, b'c');
    trs.add_edge(2, 3, b'd');
    // one tracker keeps only the last edge into each vertex
    let p = trs.path(0, 3).unwrap();
    assert_eq!(p.iter().map(|e| (e.0, *e.1)).collect::<Vec<_>>(), vec![(0, b'c'), (2, b'd')]);
    assert!(trs.path(0, 4).is_none());
    assert_eq!(trs.path(3, 3).unwrap().len(), 0);
    trs.clear_backtrack(2);
    assert!(trs.path(0, 3).is_none());
}

#[test]
fn multi_first_pick_keeps_first() {
    let mut trs = Tracking::<u8, MultiTracker<_>>::new(3);
    trs.add_edge(0, 2, 1);
    trs.add_edge(1, 2, 2);
    trs.add_edge(0, 1, 3);
    let p = trs.path(0, 2).unwrap();
    assert_eq!(p.len(), 1);
    assert_eq!((p[0].0, *p[0].1), (0, 1));
}

#[test]
fn trackers_pick() {
    let mut one = OneTracker::<i32>::empty();
    assert!(one.pick().is_none());
    one.push(3);
    one.push(4);
    assert_eq!(one.pick(), Some(&4));
    one.clear();
    assert!(one.pick().is_none());
    let mut multi = MultiTracker::<i32>::empty();
    let mut mt = rand_pcg::Pcg64Mcg::new(3);
    assert!(multi.random_pick(&mut mt).is_none());
    multi.push(7);
    multi.push(8);
    assert_eq!(multi.pick(), Some(&7));
    let r = *multi.random_pick(&mut mt).unwrap();
    assert!(r == 7 || r == 8);
}

#[test]
fn field2d_index_and_step() {
    let f = Field2d::new(3, 4);
    assert_eq!(f.size(), 12);
    assert_eq!(f.idx(Pos::new(2, 3)), 11);
    assert_eq!(f.idx(Pos::from((1, 0))), 4);
    let p = f.step(Pos::new(0, 0), 1, 2).unwrap();
    assert_eq!((p.x, p.y), (1, 2));
    assert!(f.step(Pos::new(0, 0), -1, 0).is_none());
    assert!(f.step(Pos::new(2, 3), 1, 0).is_none());
    assert!(f.step(Pos::new(2, 3), 0, 1).is_none());
    let q = f.step(Pos::new(2, 3), -2, -3).unwrap();
    assert_eq!((q.x, q.y), (0, 0));
}

#[test]
fn two_edge_chain_paths() {
    let mut tr = Tracking::<char, MultiTracker<(usize, char)>>::new(3);
    tr.add_edge(0, 1, 'a');
    tr.add_edge(1, 2, 'b');
    let p = tr.path(0, 2).unwrap();
    assert_eq!(p, vec![(0, &'a'), (1, &'b')]);
    assert!(tr.path(2, 0).is_none());
    assert_eq!(tr.path(1, 1), Some(vec![]));
}

#[test]
fn random_path_on_grid_walks_down_and_right() {
    let mut tr = Tracking::<char, MultiTracker<_>>::new(9);
    for i in 0..3 {
        for j in 0..3 {
            let v = i * 3 + j;
            if i + 1 < 3 {
                tr.add_edge(v, v + 3, 'D');
            }
            if j + 1 < 3 {
                tr.add_edge(v, v + 1, 'R');
            }
        }
    }
    let mut rng = rand_pcg::Pcg64Mcg::new(11);
    for _ in 0..20 {
        let p = tr.random_path(0, 8, &mut rng).unwrap();
        assert_eq!(p.len(), 4);
        assert_eq!(p[0].0, 0);
        assert_eq!(p.iter().filter(|e| *e.1 == 'D').count(), 2);
        for k in 0..4 {
            let next = if k + 1 < 4 { p[k + 1].0 } else { 8 };
            let step = if *p[k].1 == 'D' { 3 } else { 1 };
            assert_eq!(next, p[k].0 + step);
        }
    }
    // a vertex that nothing reaches stops the walk back
    let mut cut = Tracking::<char, MultiTracker<_>>::new(3);
    cut.add_edge(1, 2, 'x');
    assert!(cut.random_path(0, 2, &mut rng).is_none());
}
