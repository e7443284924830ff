use niuristic::ds::bitset::BitVec;
use niuristic::ds::fixed_bitset::BitVec as FixedBitVec;
use niuristic::ds::fixed_queue::FixedQueue;
use niuristic::ds::union_find::UnionFind;

#[test]
fn bitset_test() {
    let mut b = BitVec::new(70);
    assert_eq!(b.words(), 2);
    b.set(5, true);
    assert_eq!(b.get(4), false);
    assert_eq!(b.get(5), true);
    b.flip(69);
    assert_eq!(b.get(69), true);
    assert_eq!(b.debug_string(), "[0000010000000000000000000000000000000000000000000000000000000000000001]");
}

#[test]
fn bitset_size_and_rounding() {
    let b = BitVec::new(64);
    assert_eq!(b.size(), 64);
    assert_eq!(b.words(), 1);
    let e = BitVec::new(0);
    assert_eq!(e.size(), 0);
    assert_eq!(e.words(), 0);
    assert_eq!(e.debug_string(), "[]");
    let c = BitVec::new(65);
    assert_eq!(c.words(), 2);
}

#[test]
fn bitset_set_get_law() {
    let mut b = BitVec::new(130);
    for i in 0..128 {
        b.set(i, i % 3 == 0);
    }
    for i in 0..128 {
        assert_eq!(b.get(i), i % 3 == 0);
    }
    b.set(3, false);
    assert!(!b.get(3));
    assert!(b.get(0));
    assert!(b.get(6));
    // bits past the size, within the last word, are addressable
    b.set(191, true);
    assert!(b.get(191));
    assert_eq!(b.size(), 130);
}

#[test]
fn bitset_flip_twice_restores() {
    let mut b = BitVec::new(10);
    b.set(7, true);
    b.flip(7);
    assert!(!b.get(7));
    b.flip(7);
    assert!(b.get(7));
    b.flip(2);
    b.flip(2);
    assert!(!b.get(2));
    assert_eq!(b.debug_string(), "[0000000100]");
}

#[test]
fn fixed_bitset_ops() {
    let mut b = FixedBitVec::new(100);
    b.set(63, true);
    b.set(64, true);
    b.flip(99);
    b.flip(64);
    let mut c = FixedBitVec::new(100);
    c.set(63, true);
    assert!(c.get(63));
    assert!(b.get(99));
    let mut d = FixedBitVec::new(1);
    d.set(0, true);
    d.set(0, false);
    assert!(!d.get(0));
}

#[test]
fn fixed_queue_fifo() {
    let mut q: FixedQueue<u32, 4> = FixedQueue::new(0);
    assert_eq!(q.len(), 0);
    assert_eq!(q.pop(), None);
    q.push(10);
    q.push(20);
    q.push(30);
    assert_eq!(q.len(), 3);
    assert_eq!(q.pop(), Some(10));
    assert_eq!(q.pop(), Some(20));
    q.push(40);
    assert_eq!(q.len(), 2);
    assert_eq!(q.pop(), Some(30));
    assert_eq!(q.pop(), Some(40));
    assert_eq!(q.pop(), None);
    assert_eq!(q.len(), 0);
}

#[test]
fn union_find_merges() {
    let mut uf = UnionFind::new(6);
    assert_eq!(uf.root(3), 3);
    assert_eq!(uf.unite(0, 1), Some((0, 1)));
    assert_eq!(uf.unite(2, 3), Some((2, 3)));
    // sizes tie: the first argument's root stays on top
    assert_eq!(uf.unite(1, 3), Some((0, 2)));
    assert_eq!(uf.unite(0, 3), None);
    assert_eq!(uf.root(3), 0);
    assert_eq!(uf.root(2), 0);
    // the smaller set goes under the larger one
    assert_eq!(uf.unite(5, 2), Some((0, 5)));
    assert_eq!(uf.root(4), 4);
    assert_eq!(uf.root(5), 0);
}

#[test]
fn union_find_root_of_root() {
    let mut uf = UnionFind::new(5);
    uf.unite(0, 1);
    uf.unite(2, 3);
    uf.unite(3, 1);
    for v in 0..5 {
        let r = uf.root(v);
        assert_eq!(uf.root(r), r);
        assert_eq!(uf.root(v), r);
    }
}

#[test]
fn union_find_clear_separates_all() {
    let mut uf = UnionFind::new(4);
    uf.unite(0, 1);
    uf.unite(2, 3);
    uf.clear();
    for v in 0..4 {
        assert_eq!(uf.root(v), v);
    }
    assert_eq!(uf.unite(1, 2), Some((1, 2)));
}
