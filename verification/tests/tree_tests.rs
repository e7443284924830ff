use niuristic::beam::chained_tree::{Cand, ChainedTree, Node, NONE, ROOT_OP};

fn root() -> Node {
    Node { op: ROOT_OP, parent: NONE, child: NONE, prev: NONE, next: NONE }
}

#[test]
fn cand_to_node() {
    let c = Cand { op: 2, parent: 7, eval_score: -3, hash: 9 };
    let n = c.to_node();
    assert_eq!((n.op, n.parent, n.child, n.prev, n.next), (2, 7, NONE, NONE, NONE));
}

#[test]
fn tree_restores_paths() {
    // free slots are taken from the low end: 1, 2, 3, ...
    let mut t = ChainedTree::new(root());
    t.add_node(Cand { op: 3, parent: 0, eval_score: 0, hash: 1 });
    let a = 1;
    t.add_node(Cand { op: 5, parent: 0, eval_score: 0, hash: 2 });
    let b = 2;
    t.add_node(Cand { op: 7, parent: a, eval_score: 0, hash: 3 });
    let c = 3;
    assert_eq!(t.restore(a), vec![3]);
    assert_eq!(t.restore(b), vec![5]);
    assert_eq!(t.restore(c), vec![3, 7]);
    assert_eq!(t.restore(0), Vec::<u8>::new());
}
