use vstd::prelude::*;

verus! {

/// The index that stands for "no node".
pub const NONE: usize = usize::MAX;

/// The most nodes the search tree holds.
pub const MAX_NODES: usize = 5000;

/// The mark of the root: the operation that `restore` stops at.
pub const ROOT_OP: u8 = 255;

/// A move proposed for the next step: its operation, the node it leaves
/// from, its evaluation and a hash of the state it leads to.
#[derive(Clone, Copy)]
pub struct Cand {
    pub op: u8,
    pub parent: usize,
    pub eval_score: i64,
    pub hash: u64,
}

/// A node of the search tree: the operation that led to it, its parent, its
/// first child, and its neighbours among its parent's children.
#[derive(Clone, Copy)]
pub struct Node {
    pub op: u8,
    pub parent: usize,
    pub child: usize,
    pub prev: usize,
    pub next: usize,
}

impl Default for Node {
    fn default() -> (n: Self)
        ensures
            n == (Node { op: 0, parent: 0, child: 0, prev: 0, next: 0 }),
    {
        Node { op: 0, parent: 0, child: 0, prev: 0, next: 0 }
    }
}

impl Cand {
    /// A childless node for this move, not yet linked to siblings.
    pub fn to_node(&self) -> (n: Node)
        ensures
            n == (Node { op: self.op, parent: self.parent, child: NONE, prev: NONE, next: NONE }),
    {
        Node { child: NONE, prev: NONE, next: NONE, op: self.op, parent: self.parent }
    }
}

/// The nodes of a search tree kept in one array: children hang from their
/// parent as a doubly linked list, and unused slots wait in `free`.
pub struct ChainedTree {
    leaf: Vec<usize>,
    next_leaf: Vec<usize>,
    nodes: Vec<Node>,
    cur_node: usize,
    free: Vec<usize>,
    live: Ghost<Set<int>>,
    depth: Ghost<Map<int, nat>>,
    rank: Ghost<Map<int, nat>>,
}

/// The links of node `v`: a parent that is live, one level up, and points
/// to `v` where `v` comes first among its siblings; a first child that
/// points back; and neighbours among its siblings that point back.
pub open spec fn link_at(nodes: Seq<Node>, live: Set<int>, depth: Map<int, nat>, v: int) -> bool {
    &&& v != 0 ==> {
        let p = nodes[v].parent as int;
        &&& live.contains(p)
        &&& depth[v] == depth[p] + 1
        &&& nodes[v].prev == NONE ==> nodes[p].child == v
    }
    &&& {
        let c = nodes[v].child;
        c == NONE || (live.contains(c as int) && nodes[c as int].parent == v && nodes[c as int].prev == NONE)
    }
    &&& {
        let n = nodes[v].next;
        n == NONE || (live.contains(n as int) && n as int != 0 && nodes[n as int].parent == nodes[v].parent
            && nodes[n as int].prev == v)
    }
    &&& {
        let q = nodes[v].prev;
        q == NONE || (live.contains(q as int) && q as int != 0 && nodes[q as int].parent == nodes[v].parent
            && nodes[q as int].next == v)
    }
}

/// The live nodes form a tree rooted at slot 0 with consistent links.
pub open spec fn tree_links_ok(nodes: Seq<Node>, live: Set<int>, depth: Map<int, nat>) -> bool {
    &&& forall|v: int| #[trigger] live.contains(v) ==> 0 <= v < nodes.len() && depth.contains_key(v)
    &&& live.contains(0)
    &&& nodes[0].parent == NONE
    &&& nodes[0].prev == NONE
    &&& nodes[0].next == NONE
    &&& forall|v: int| live.contains(v) ==> #[trigger] link_at(nodes, live, depth, v)
}

/// Each node other than the root stands at a place among its parent's
/// children: 0 for the first, one more than its predecessor otherwise.
pub open spec fn ranks_ok(nodes: Seq<Node>, live: Set<int>, rank: Map<int, nat>) -> bool {
    forall|v: int|
        #[trigger] live.contains(v) && v != 0 ==> {
            &&& rank.contains_key(v)
            &&& nodes[v].prev == NONE ==> rank[v] == 0
            &&& nodes[v].prev != NONE ==> rank[v] == rank[nodes[v].prev as int] + 1
        }
}

/// Walking up from `v`, a node marked with `ROOT_OP` comes before the root is left.
pub open spec fn reaches_mark(nodes: Seq<Node>, live: Set<int>, depth: Map<int, nat>, v: int) -> bool
    decreases depth[v],
{
    &&& live.contains(v)
    &&& (nodes[v].op == ROOT_OP || (v != 0 && depth[nodes[v].parent as int] < depth[v] && reaches_mark(
        nodes,
        live,
        depth,
        nodes[v].parent as int,
    )))
}

/// The operations from the nearest marked node above `v` down to `v`.
pub open spec fn ops_to(nodes: Seq<Node>, live: Set<int>, depth: Map<int, nat>, v: int) -> Seq<u8>
    decreases depth[v],
{
    if nodes[v].op == ROOT_OP || v == 0 || !live.contains(v) || !(depth[nodes[v].parent as int] < depth[v]) {
        Seq::empty()
    } else {
        ops_to(nodes, live, depth, nodes[v].parent as int).push(nodes[v].op)
    }
}

impl ChainedTree {
    /// The node array.
    pub closed spec fn spec_nodes(&self) -> Seq<Node> {
        self.nodes@
    }

    /// The slots in the tree.
    pub closed spec fn live(&self) -> Set<int> {
        self.live@
    }

    /// The free slots, the next one to be used last.
    pub closed spec fn spec_free(&self) -> Seq<usize> {
        self.free@
    }

    /// The nodes added since the last step.
    pub closed spec fn spec_next_leaf(&self) -> Seq<usize> {
        self.next_leaf@
    }

    /// How far below the root node `v` stands.
    pub closed spec fn depth_of(&self, v: int) -> nat {
        self.depth@[v]
    }

    /// The leaves of the last step.
    pub closed spec fn spec_leaf(&self) -> Seq<usize> {
        self.leaf@
    }

    /// The links form a tree rooted at slot 0 and the free slots are unused.
    pub closed spec fn wf(&self) -> bool {
        &&& self.nodes@.len() == MAX_NODES
        &&& tree_links_ok(self.nodes@, self.live@, self.depth@)
        &&& ranks_ok(self.nodes@, self.live@, self.rank@)
        &&& self.depth@[0] == 0
        &&& forall|k: int| 0 <= k < self.free@.len() ==> (#[trigger] self.free@[k]) < MAX_NODES
            && !self.live@.contains(self.free@[k] as int)
        &&& forall|a: int, b: int|
            0 <= a < b < self.free@.len() ==> #[trigger] self.free@[a] != #[trigger] self.free@[b]
    }

    /// A tree holding only the root `node`; every other slot is free.
    pub fn new(node: Node) -> (t: Self)
        requires
            node.parent == NONE,
            node.child == NONE,
            node.prev == NONE,
            node.next == NONE,
        ensures
            t.wf(),
            t.live() == Set::<int>::empty().insert(0),
            t.spec_nodes()[0] == node,
            t.spec_free() == Seq::new((MAX_NODES - 1) as nat, |k: int| (MAX_NODES - 1 - k) as usize),
            t.spec_leaf() == seq![0usize],
            t.spec_next_leaf() == Seq::<usize>::empty(),
    {
        let mut nodes: Vec<Node> = Vec::new();
        let mut i: usize = 0;
        while i < MAX_NODES
            invariant
                i <= MAX_NODES,
                nodes@.len() == i,
            decreases MAX_NODES - i,
        {
            nodes.push(Node::default());
            i = i + 1;
        }
        nodes.set(0, node);
        let mut free: Vec<usize> = Vec::new();
        let mut k: usize = MAX_NODES;
        while k > 1
            invariant
                1 <= k <= MAX_NODES,
                free@.len() == MAX_NODES - k,
                forall|j: int| 0 <= j < free@.len() ==> #[trigger] free@[j] == (MAX_NODES - 1 - j) as usize,
            decreases k,
        {
            k = k - 1;
            free.push(k);
        }
        let ghost live = Set::<int>::empty().insert(0);
        let ghost depth = Map::<int, nat>::empty().insert(0, 0nat);
        let t = ChainedTree {
            leaf: vec![0usize],
            next_leaf: Vec::new(),
            nodes,
            cur_node: 0,
            free,
            live: Ghost(live),
            depth: Ghost(depth),
            rank: Ghost(Map::empty()),
        };
        assert(t.spec_free() =~= Seq::new((MAX_NODES - 1) as nat, |k: int| (MAX_NODES - 1 - k) as usize));
        t
    }

    /// Puts the move `cand` into a free slot as the first child of its parent.
    pub fn add_node(&mut self, cand: Cand)
        requires
            old(self).wf(),
            old(self).live().contains(cand.parent as int),
            old(self).spec_free().len() > 0,
        ensures
            final(self).wf(),
            ({
                let o = old(self).spec_nodes();
                let f = final(self).spec_nodes();
                let p = cand.parent as int;
                let c = o[p].child;
                let nw = old(self).spec_free().last();
                &&& final(self).spec_free() == old(self).spec_free().drop_last()
                &&& final(self).spec_next_leaf() == old(self).spec_next_leaf().push(nw)
                &&& final(self).spec_leaf() == old(self).spec_leaf()
                &&& final(self).live() == old(self).live().insert(nw as int)
                &&& !old(self).live().contains(nw as int)
                &&& final(self).depth_of(nw as int) == old(self).depth_of(p) + 1
                &&& forall|v: int| #[trigger] old(self).live().contains(v) ==> final(self).depth_of(v) == old(self).depth_of(v)
                &&& f.len() == o.len()
                &&& f[nw as int] == (Node { op: cand.op, parent: cand.parent, child: NONE, prev: NONE, next: c })
                &&& f[p] == (Node { op: o[p].op, parent: o[p].parent, child: nw, prev: o[p].prev, next: o[p].next })
                &&& c != NONE ==> f[c as int] == (Node {
                    op: o[c as int].op,
                    parent: o[c as int].parent,
                    child: o[c as int].child,
                    prev: nw,
                    next: o[c as int].next,
                })
                &&& forall|u: int|
                    0 <= u < o.len() && u != nw as int && u != p && (c == NONE || u != c as int) ==> #[trigger] f[u]
                        == o[u]
            }),
    {
        let p = cand.parent;
        let next = self.nodes[p].child;
        let nw = self.free.pop().unwrap();
        let ghost o = self.nodes@;
        proof {
            assert(self.free@.len() + 1 == old(self).free@.len());
            assert(old(self).free@[old(self).free@.len() - 1] == nw);
            assert(!self.live@.contains(nw as int));
            assert(link_at(o, self.live@, self.depth@, p as int));
            if next != NONE {
                assert(self.live@.contains(next as int));
                assert(link_at(o, self.live@, self.depth@, next as int));
                assert(next != nw);
                assert(next != p) by {
                    if next == p {
                        assert(o[p as int].parent == p);
                        assert(p != 0);
                    }
                }
            }
        }
        if next != NONE {
            let mut nn = self.nodes[next];
            nn.prev = nw;
            self.nodes.set(next, nn);
        }
        let mut pn = self.nodes[p];
        pn.child = nw;
        self.nodes.set(p, pn);
        self.next_leaf.push(nw);
        let mut node = cand.to_node();
        node.next = next;
        self.nodes.set(nw, node);
        proof {
            let nl = self.live@.insert(nw as int);
            let nd = self.depth@.insert(nw as int, self.depth@[p as int] + 1);
            let f = self.nodes@;
            assert forall|u: int| 0 <= u < o.len() && u != nw as int && u != p as int && (next == NONE || u != next as int)
                implies #[trigger] f[u] == o[u] by {}
            let ol = self.live@;
            let od = self.depth@;
            assert(tree_links_ok(f, nl, nd)) by {
                assert forall|v: int| #[trigger] nl.contains(v) implies 0 <= v < f.len() && nd.contains_key(v) by {}
                assert forall|v: int| nl.contains(v) implies #[trigger] link_at(f, nl, nd, v) by {
                    if v == nw as int {
                        if next != NONE {
                            assert(o[next as int].parent == p);
                            assert(next != 0usize);
                        }
                    } else {
                        assert(ol.contains(v));
                        assert(link_at(o, ol, od, v));
                        if v != 0 {
                            let q = o[v].parent as int;
                            assert(q != nw as int);
                            if f[v].prev == NONE {
                                assert(v != next as int);
                                assert(o[q].child == v);
                            }
                        }
                        let cc = o[v].child;
                        if v != p as int && cc != NONE {
                            assert(cc != next || next == NONE) by {
                                if cc == next && next != NONE {
                                    assert(o[next as int].parent == p);
                                }
                            }
                            assert(cc != nw);
                        }
                        let n = o[v].next;
                        if n != NONE {
                            assert(n != next || next == NONE) by {
                                if n == next && next != NONE {
                                    assert(o[next as int].prev == NONE);
                                }
                            }
                            assert(n != nw);
                        }
                        let q = o[v].prev;
                        if q != NONE && v != next as int {
                            assert(q != nw);
                        }
                    }
                }
            }
            let o_rank = self.rank@;
            let nr = Map::new(
                |v: int| nl.contains(v),
                |v: int|
                    if v == nw as int {
                        0nat
                    } else if v != 0 && f[v].parent == p {
                        (o_rank[v] + 1) as nat
                    } else {
                        o_rank[v]
                    },
            );
            assert(ranks_ok(f, nl, nr)) by {
                assert forall|v: int| #[trigger] nl.contains(v) && v != 0 implies ({
                    &&& nr.contains_key(v)
                    &&& f[v].prev == NONE ==> nr[v] == 0
                    &&& f[v].prev != NONE ==> nr[v] == nr[f[v].prev as int] + 1
                }) by {
                    if v != nw as int {
                        assert(self.live@.contains(v));
                        assert(link_at(o, self.live@, self.depth@, v));
                        if v == next as int {
                            assert(o[v].prev == NONE);
                            assert(o[v].parent == p);
                        } else if v != p as int {
                            let q = o[v].prev;
                            if q != NONE {
                                assert(self.live@.contains(q as int));
                                assert(o[q as int].parent == o[v].parent);
                                assert(q != nw);
                                assert(q as int != 0);
                            } else {
                                assert(o[v].parent != p) by {
                                    if o[v].parent == p {
                                        assert(o[p as int].child == v);
                                    }
                                }
                            }
                        } else {
                            let q = o[v].prev;
                            assert(o[v].parent != p);
                            if q != NONE {
                                assert(o[q as int].parent == o[v].parent);
                                assert(q != nw);
                            }
                        }
                    }
                }
            }
            self.live = Ghost(nl);
            self.depth = Ghost(nd);
            self.rank = Ghost(nr);
            assert forall|k: int| 0 <= k < self.free@.len() implies (#[trigger] self.free@[k]) < MAX_NODES
                && !self.live@.contains(self.free@[k] as int) by {
                assert(self.free@[k] == old(self).free@[k]);
                assert(old(self).free@[k] != old(self).free@[old(self).free@.len() - 1]);
            }
            assert forall|a: int, b: int|
                0 <= a < b < self.free@.len() implies #[trigger] self.free@[a] != #[trigger] self.free@[b] by {
                assert(self.free@[a] == old(self).free@[a]);
                assert(self.free@[b] == old(self).free@[b]);
            }
        }
    }

    /// Whether the walk up from `v` meets a marked node inside the tree.
    pub closed spec fn restorable(&self, v: int) -> bool {
        reaches_mark(self.nodes@, self.live@, self.depth@, v)
    }

    /// The operations leading to `v` from the nearest marked node above it.
    pub closed spec fn ops_path(&self, v: int) -> Seq<u8> {
        ops_to(self.nodes@, self.live@, self.depth@, v)
    }

    /// The operations from the nearest marked node above `idx` down to `idx`.
    pub fn restore(&self, idx: usize) -> (r: Vec<u8>)
        requires
            self.wf(),
            self.restorable(idx as int),
        ensures
            r@ == self.ops_path(idx as int),
    {
        let mut ret: Vec<u8> = Vec::new();
        let mut idx = idx;
        let ghost start = idx as int;
        proof {
            assert(ret@.reverse() =~= Seq::<u8>::empty());
            assert(ops_to(self.nodes@, self.live@, self.depth@, start) =~= ops_to(self.nodes@, self.live@, self.depth@, start) + ret@.reverse());
        }
        loop
            invariant
                forall|v: int| #[trigger] self.live@.contains(v) ==> 0 <= v < self.nodes@.len(),
                reaches_mark(self.nodes@, self.live@, self.depth@, idx as int),
                ops_to(self.nodes@, self.live@, self.depth@, start) == ops_to(
                    self.nodes@,
                    self.live@,
                    self.depth@,
                    idx as int,
                ) + ret@.reverse(),
            ensures
                ops_to(self.nodes@, self.live@, self.depth@, start) == ret@.reverse(),
            decreases self.depth@[idx as int],
        {
            let node = self.nodes[idx];
            if node.op == ROOT_OP {
                proof {
                    assert(ops_to(self.nodes@, self.live@, self.depth@, idx as int) =~= Seq::empty());
                    assert(ops_to(self.nodes@, self.live@, self.depth@, start) =~= ret@.reverse());
                }
                break;
            }
            let ghost prev_ret = ret@;
            ret.push(node.op);
            proof {
                let pr = node.parent as int;
                assert(ret@.reverse() =~= seq![node.op] + prev_ret.reverse());
                assert(ops_to(self.nodes@, self.live@, self.depth@, idx as int) == ops_to(
                    self.nodes@,
                    self.live@,
                    self.depth@,
                    pr,
                ).push(node.op));
                assert(ops_to(self.nodes@, self.live@, self.depth@, pr).push(node.op) + prev_ret.reverse()
                    =~= ops_to(self.nodes@, self.live@, self.depth@, pr) + ret@.reverse());
            }
            idx = node.parent;
        }
        let mut out: Vec<u8> = Vec::new();
        let n = ret.len();
        let mut k: usize = 0;
        while k < n
            invariant
                n == ret@.len(),
                k <= n,
                out@ == ret@.reverse().take(k as int),
            decreases n - k,
        {
            out.push(ret[n - 1 - k]);
            proof {
                assert(out@ =~= ret@.reverse().take(k + 1));
            }
            k = k + 1;
        }
        proof {
            assert(out@ =~= ret@.reverse());
        }
        out
    }
}

/// A live node has a first sibling that its parent points to.
pub proof fn lemma_parent_has_child(nodes: Seq<Node>, live: Set<int>, depth: Map<int, nat>, rank: Map<int, nat>, w: int)
    requires
        tree_links_ok(nodes, live, depth),
        ranks_ok(nodes, live, rank),
        nodes.len() <= MAX_NODES,
        live.contains(w),
        w != 0,
    ensures
        nodes[nodes[w].parent as int].child != NONE,
    decreases rank[w],
{
    assert(link_at(nodes, live, depth, w));
    if nodes[w].prev != NONE {
        let q = nodes[w].prev as int;
        lemma_parent_has_child(nodes, live, depth, rank, q);
    }
}

/// A node with no siblings is its parent's only child.
pub proof fn lemma_only_child(nodes: Seq<Node>, live: Set<int>, depth: Map<int, nat>, rank: Map<int, nat>, v: int, w: int)
    requires
        tree_links_ok(nodes, live, depth),
        ranks_ok(nodes, live, rank),
        nodes.len() <= MAX_NODES,
        live.contains(v),
        v != 0,
        nodes[v].prev == NONE,
        nodes[v].next == NONE,
        live.contains(w),
        w != 0,
        nodes[w].parent == nodes[v].parent,
    ensures
        w == v,
    decreases rank[w],
{
    assert(link_at(nodes, live, depth, w));
    assert(link_at(nodes, live, depth, v));
    if nodes[w].prev != NONE {
        let q = nodes[w].prev as int;
        lemma_only_child(nodes, live, depth, rank, v, q);
        assert(nodes[q].next == w);
    }
}

/// Two children of one parent at the same place are the same node.
pub proof fn lemma_rank_unique(nodes: Seq<Node>, live: Set<int>, depth: Map<int, nat>, rank: Map<int, nat>, a: int, b: int)
    requires
        tree_links_ok(nodes, live, depth),
        ranks_ok(nodes, live, rank),
        nodes.len() <= MAX_NODES,
        live.contains(a),
        live.contains(b),
        a != 0,
        b != 0,
        nodes[a].parent == nodes[b].parent,
        rank[a] == rank[b],
    ensures
        a == b,
    decreases rank[a],
{
    assert(link_at(nodes, live, depth, a));
    assert(link_at(nodes, live, depth, b));
    if nodes[a].prev != NONE {
        let qa = nodes[a].prev as int;
        let qb = nodes[b].prev as int;
        lemma_rank_unique(nodes, live, depth, rank, qa, qb);
        assert(nodes[qa].next == a);
        assert(nodes[qb].next == b);
    }
}

/// Walking up from `v` through only children meets a node with a sibling
/// before the root.
pub open spec fn del_stops(nodes: Seq<Node>, live: Set<int>, depth: Map<int, nat>, v: int) -> bool
    decreases depth[v],
{
    &&& live.contains(v)
    &&& v != 0
    &&& (nodes[v].prev != NONE || nodes[v].next != NONE || (depth[nodes[v].parent as int] < depth[v] && del_stops(
        nodes,
        live,
        depth,
        nodes[v].parent as int,
    )))
}

/// The nodes freed from `v` up, in order: `v`, and while the freed node is
/// an only child, its parent too.
pub open spec fn del_chain(nodes: Seq<Node>, live: Set<int>, depth: Map<int, nat>, v: int) -> Seq<usize>
    decreases depth[v],
{
    if nodes[v].prev != NONE || nodes[v].next != NONE || !(depth[nodes[v].parent as int] < depth[v]) {
        seq![v as usize]
    } else {
        seq![v as usize] + del_chain(nodes, live, depth, nodes[v].parent as int)
    }
}

/// The live nodes left once `gone` is freed.
pub open spec fn without(live: Set<int>, gone: Seq<usize>) -> Set<int> {
    Set::new(|v: int| live.contains(v) && !gone.contains(v as usize))
}

impl ChainedTree {
    /// Walking up from `v` through only children meets a node with a sibling
    /// before the root.
    pub closed spec fn can_delete(&self, v: int) -> bool {
        del_stops(self.nodes@, self.live@, self.depth@, v)
    }

    /// The nodes `del_node(v)` frees, in order.
    pub closed spec fn deleted_chain(&self, v: int) -> Seq<usize> {
        del_chain(self.nodes@, self.live@, self.depth@, v)
    }

    /// Frees the childless node `idx`, and its parent while the freed node
    /// was an only child, and takes the last one freed out of its
    /// siblings' list. Every node left keeps its path.
    pub fn del_node(&mut self, idx: usize)
        requires
            old(self).wf(),
            old(self).can_delete(idx as int),
            old(self).spec_nodes()[idx as int].child == NONE,
        ensures
            final(self).wf(),
            ({
                let chain = old(self).deleted_chain(idx as int);
                &&& final(self).spec_free() == old(self).spec_free() + chain
                &&& final(self).live() == without(old(self).live(), chain)
            }),
            final(self).spec_leaf() == old(self).spec_leaf(),
            final(self).spec_next_leaf() == old(self).spec_next_leaf(),
            forall|v: int| #[trigger] final(self).depth_of(v) == old(self).depth_of(v),
            final(self).spec_nodes().len() == old(self).spec_nodes().len(),
            forall|u: int| 0 <= u < old(self).spec_nodes().len() ==> (#[trigger] final(self).spec_nodes()[u]).op
                == old(self).spec_nodes()[u].op && final(self).spec_nodes()[u].parent == old(self).spec_nodes()[u].parent,
            forall|u: int|
                0 <= u < old(self).spec_nodes().len() && (#[trigger] final(self).spec_nodes()[u]).child != old(
                    self,
                ).spec_nodes()[u].child ==> old(self).spec_nodes()[u].child != NONE && old(self).live().contains(u)
                    && old(self).depth_of(u) < old(self).depth_of(idx as int),
            forall|k: int|
                0 < k < old(self).deleted_chain(idx as int).len() ==> old(self).spec_nodes()[#[trigger] old(
                    self,
                ).deleted_chain(idx as int)[k] as int].child != NONE,
            old(self).deleted_chain(idx as int)[0] == idx,
            forall|k: int|
                0 < k < old(self).deleted_chain(idx as int).len() ==> old(self).depth_of(
                    #[trigger] old(self).deleted_chain(idx as int)[k] as int,
                ) < old(self).depth_of(idx as int),
            forall|v: int| #[trigger] final(self).live().contains(v) ==> final(self).restorable(v) == old(self).restorable(v)
                && final(self).ops_path(v) == old(self).ops_path(v),
    {
        let ghost on = self.nodes@;
        let ghost ol = self.live@;
        let ghost od = self.depth@;
        let ghost orank = self.rank@;
        let ghost of = self.free@;
        let ghost start = idx as int;
        let mut idx = idx;
        let ghost mut chain: Seq<usize> = Seq::empty();
        loop
            invariant_except_break
                self.free@ == of + chain,
            invariant
                on.len() == MAX_NODES,
                tree_links_ok(on, ol, od),
                ranks_ok(on, ol, orank),
                od[0] == 0,
                forall|k: int| 0 <= k < of.len() ==> (#[trigger] of[k]) < MAX_NODES && !ol.contains(of[k] as int),
                forall|a: int, b: int| 0 <= a < b < of.len() ==> #[trigger] of[a] != #[trigger] of[b],
                self.nodes@ == on,
                self.live@ == ol,
                self.depth@ == od,
                self.rank@ == orank,
                self.leaf@ == old(self).leaf@,
                self.next_leaf@ == old(self).next_leaf@,
                of == old(self).free@,
                on == old(self).nodes@,
                ol == old(self).live@,
                od == old(self).depth@,
                del_chain(on, ol, od, start) == chain + del_chain(on, ol, od, idx as int),
                del_stops(on, ol, od, idx as int),
                chain.len() == 0 ==> idx as int == start && on[start].child == NONE,
                chain.len() > 0 ==> on[chain.last() as int].parent == idx,
                forall|k: int| 0 <= k < chain.len() ==> ol.contains(#[trigger] chain[k] as int) && chain[k] != 0
                    && on[chain[k] as int].prev == NONE && on[chain[k] as int].next == NONE
                    && od[chain[k] as int] > od[idx as int],
                forall|k: int| 0 < k < chain.len() ==> #[trigger] chain[k] == on[chain[k - 1] as int].parent,
                chain.len() > 0 ==> chain[0] == start,
            ensures
                self.nodes@ == on,
                self.free@ == of + chain.push(idx),
                del_chain(on, ol, od, start) == chain.push(idx),
                on[idx as int].prev != NONE || on[idx as int].next != NONE,
                ol.contains(idx as int),
                idx != 0,
                chain.len() == 0 ==> idx as int == start && on[start].child == NONE,
                chain.len() > 0 ==> on[chain.last() as int].parent == idx,
                forall|k: int| 0 <= k < chain.len() ==> ol.contains(#[trigger] chain[k] as int) && chain[k] != 0
                    && on[chain[k] as int].prev == NONE && on[chain[k] as int].next == NONE
                    && od[chain[k] as int] > od[idx as int],
                forall|k: int| 0 < k < chain.len() ==> #[trigger] chain[k] == on[chain[k - 1] as int].parent,
                chain.len() > 0 ==> chain[0] == start,
            decreases od[idx as int],
        {
            let ghost cur = idx as int;
            assert(ol.contains(cur) && cur != 0);
            assert(link_at(on, ol, od, cur));
            let node = self.nodes[idx];
            self.free.push(idx);
            if node.prev == NONE && node.next == NONE {
                proof {
                    let p = node.parent as int;
                    assert(ol.contains(p));
                    assert(od[cur] == od[p] + 1);
                    assert(del_chain(on, ol, od, cur) == seq![idx] + del_chain(on, ol, od, p));
                    assert(chain + (seq![idx] + del_chain(on, ol, od, p)) =~= chain.push(idx) + del_chain(on, ol, od, p));
                    assert(self.free@ =~= of + chain.push(idx));
                    chain = chain.push(idx);
                }
                idx = node.parent;
            } else {
                proof {
                    assert(del_chain(on, ol, od, cur) == seq![idx]);
                    assert(chain + seq![idx] =~= chain.push(idx));
                    assert(self.free@ =~= of + chain.push(idx));
                }
                break;
            }
        }
        let node = self.nodes[idx];
        let ghost x = idx as int;
        let ghost p = node.parent as int;
        proof {
            assert(link_at(on, ol, od, x));
            assert(ol.contains(p));
            assert(od[x] == od[p] + 1);
            if node.prev != NONE {
                assert(link_at(on, ol, od, node.prev as int));
                assert(od[node.prev as int] == od[p] + 1);
                assert(orank[x] == orank[node.prev as int] + 1);
            }
            if node.next != NONE {
                assert(link_at(on, ol, od, node.next as int));
                assert(od[node.next as int] == od[p] + 1);
                assert(on[node.next as int].prev == x as usize);
                assert(node.next != 0usize);
                assert(orank[node.next as int] == orank[x] + 1);
            }
            assert(node.prev != NONE ==> ol.contains(node.prev as int) && on[node.prev as int].parent == node.parent);
            assert(node.next != NONE ==> ol.contains(node.next as int) && on[node.next as int].parent == node.parent);
        }
        if node.prev != NONE {
            let mut pn = self.nodes[node.prev];
            pn.next = node.next;
            self.nodes.set(node.prev, pn);
        } else {
            let mut pp = self.nodes[node.parent];
            pp.child = node.next;
            self.nodes.set(node.parent, pp);
        }
        if node.next != NONE {
            let mut nn = self.nodes[node.next];
            nn.prev = node.prev;
            self.nodes.set(node.next, nn);
        }
        proof {
            let nn = self.nodes@;
            let gone = chain.push(x as usize);
            lemma_chain_depth(on, ol, od, chain, x);
            assert forall|k: int| 0 < k < gone.len() implies on[#[trigger] gone[k] as int].child != NONE by {
                let c = gone[k - 1] as int;
                if k < chain.len() {
                    assert(gone[k] == chain[k]);
                    assert(chain[k] == on[chain[k - 1] as int].parent);
                    assert(gone[k - 1] == chain[k - 1]);
                } else {
                    assert(gone[k] == x as usize);
                    assert(gone[k - 1] == chain.last());
                }
                lemma_parent_has_child(on, ol, od, orank, c);
            }
            lemma_unlink(on, nn, ol, od, orank, chain, x, start);
            let nl = without(ol, gone);
            let nr = Map::new(
                |v: int| nl.contains(v),
                |v: int| if on[v].parent as int == p && orank[v] > orank[x] { (orank[v] - 1) as nat } else { orank[v] },
            );
            self.live = Ghost(nl);
            self.rank = Ghost(nr);
            assert forall|k: int| 0 <= k < self.free@.len() implies (#[trigger] self.free@[k]) < MAX_NODES
                && !self.live@.contains(self.free@[k] as int) by {
                if k < of.len() {
                    assert(self.free@[k] == of[k]);
                    assert(!ol.contains(of[k] as int));
                } else {
                    assert(self.free@[k] == gone[k - of.len()]);
                    assert(gone.contains(self.free@[k]));
                    assert(ol.contains(gone[k - of.len()] as int));
                }
            }
            assert forall|a: int, b: int|
                0 <= a < b < self.free@.len() implies #[trigger] self.free@[a] != #[trigger] self.free@[b] by {
                if b < of.len() {
                    assert(self.free@[a] == of[a] && self.free@[b] == of[b]);
                } else if a < of.len() {
                    assert(self.free@[a] == of[a]);
                    assert(self.free@[b] == gone[b - of.len()]);
                    assert(ol.contains(gone[b - of.len()] as int));
                    assert(!ol.contains(of[a] as int));
                } else {
                    assert(self.free@[a] == gone[a - of.len()]);
                    assert(self.free@[b] == gone[b - of.len()]);
                    assert(od[gone[a - of.len()] as int] != od[gone[b - of.len()] as int]);
                }
            }
        }
    }
}

impl ChainedTree {
    /// Whether walking up from `v` through only children meets a node with
    /// a sibling before the root.
    pub fn deletable(&self, v: usize) -> (r: bool)
        requires
            self.wf(),
            self.live().contains(v as int),
        ensures
            r == self.can_delete(v as int),
    {
        let mut cur = v;
        loop
            invariant
                self.wf(),
                self.live@.contains(cur as int),
                del_stops(self.nodes@, self.live@, self.depth@, v as int) == del_stops(
                    self.nodes@,
                    self.live@,
                    self.depth@,
                    cur as int,
                ),
            decreases self.depth@[cur as int],
        {
            if cur == 0 {
                return false;
            }
            let node = self.nodes[cur];
            if node.prev != NONE || node.next != NONE {
                return true;
            }
            proof {
                assert(link_at(self.nodes@, self.live@, self.depth@, cur as int));
            }
            cur = node.parent;
        }
    }

    /// One step of the search: each move of `cands` becomes a leaf under its
    /// parent, in order, in the free slots from the last; then each leaf of
    /// the last step left without a child is freed, with the ancestors that
    /// had no other child; then the new leaves become the leaves. Returns
    /// `false`, and stops before the exchange, at a leaf whose freeing would
    /// reach the root.
    pub fn update(&mut self, cands: Vec<Cand>) -> (r: bool)
        requires
            old(self).wf(),
            forall|j: int| 0 <= j < cands@.len() ==> old(self).live().contains(#[trigger] cands@[j].parent as int),
            cands@.len() <= old(self).spec_free().len(),
            forall|k: int|
                0 <= k < old(self).spec_leaf().len() ==> old(self).live().contains(#[trigger] old(self).spec_leaf()[k] as int),
            forall|a: int, b: int|
                0 <= a < b < old(self).spec_leaf().len() ==> #[trigger] old(self).spec_leaf()[a] != #[trigger] old(
                    self,
                ).spec_leaf()[b],
            forall|a: int, b: int|
                0 <= a < old(self).spec_leaf().len() && 0 <= b < old(self).spec_leaf().len() ==> old(self).depth_of(
                    #[trigger] old(self).spec_leaf()[a] as int,
                ) == old(self).depth_of(#[trigger] old(self).spec_leaf()[b] as int),
        ensures
            final(self).wf(),
            r ==> final(self).spec_next_leaf() == old(self).spec_leaf(),
            r ==> final(self).spec_leaf().len() == cands@.len(),
            r ==> forall|j: int|
                0 <= j < cands@.len() ==> #[trigger] final(self).spec_leaf()[j] == old(self).spec_free()[old(
                    self,
                ).spec_free().len() - 1 - j],
            r ==> forall|j: int|
                0 <= j < cands@.len() ==> {
                    let t = #[trigger] final(self).spec_leaf()[j] as int;
                    &&& final(self).live().contains(t)
                    &&& final(self).spec_nodes()[t].op == cands@[j].op
                    &&& final(self).spec_nodes()[t].parent == cands@[j].parent
                    &&& final(self).spec_nodes()[t].child == NONE
                },
            r ==> forall|k: int|
                0 <= k < old(self).spec_leaf().len() ==> (final(self).live().contains(
                    #[trigger] old(self).spec_leaf()[k] as int,
                ) <==> (old(self).spec_nodes()[old(self).spec_leaf()[k] as int].child != NONE || exists|j: int|
                    0 <= j < cands@.len() && cands@[j].parent == old(self).spec_leaf()[k])),
            !r ==> exists|k: int|
                0 <= k < old(self).spec_leaf().len() && final(self).live().contains(
                    #[trigger] old(self).spec_leaf()[k] as int,
                ) && final(self).spec_nodes()[old(self).spec_leaf()[k] as int].child == NONE
                    && !final(self).can_delete(old(self).spec_leaf()[k] as int),
    {
        self.next_leaf.clear();
        let ghost s0 = *self;
        let ghost f0 = old(self).free@;
        let ghost nodes0 = old(self).nodes@;
        let ghost live0 = old(self).live@;
        let ghost depth0 = old(self).depth@;
        let mut j: usize = 0;
        while j < cands.len()
            invariant
                self.wf(),
                s0.wf(),
                s0.free@ == f0,
                s0.nodes@ == nodes0,
                s0.live@ == live0,
                s0.leaf@ == old(self).leaf@,
                f0 == old(self).free@,
                nodes0 == old(self).nodes@,
                live0 == old(self).live@,
                depth0 == old(self).depth@,
                j <= cands@.len(),
                cands@.len() <= f0.len(),
                forall|i: int| 0 <= i < cands@.len() ==> live0.contains(#[trigger] cands@[i].parent as int),
                self.leaf@ == old(self).leaf@,
                self.free@ == f0.subrange(0, f0.len() - j),
                self.next_leaf@.len() == j,
                forall|i: int| 0 <= i < j ==> #[trigger] self.next_leaf@[i] == f0[f0.len() - 1 - i],
                forall|v: int| #[trigger] self.live@.contains(v) <==> (live0.contains(v) || exists|i: int|
                    0 <= i < j && self.next_leaf@[i] == v),
                forall|i: int| 0 <= i < j ==> !live0.contains(#[trigger] self.next_leaf@[i] as int),
                forall|i: int|
                    0 <= i < j ==> {
                        let t = #[trigger] self.next_leaf@[i] as int;
                        &&& self.nodes@[t].op == cands@[i].op
                        &&& self.nodes@[t].parent == cands@[i].parent
                        &&& self.nodes@[t].child == NONE
                    },
                forall|v: int| #[trigger] live0.contains(v) ==> self.depth@[v] == depth0[v],
                forall|v: int|
                    #[trigger] live0.contains(v) ==> self.nodes@[v].op == nodes0[v].op && self.nodes@[v].parent
                        == nodes0[v].parent && ((self.nodes@[v].child != NONE) <==> (nodes0[v].child != NONE
                        || exists|i: int| 0 <= i < j && cands@[i].parent == v)),
            decreases cands@.len() - j,
        {
            let cand = cands[j];
            let ghost pre = *self;
            proof {
                assert(self.live@.contains(cand.parent as int));
                assert(self.free@.len() > 0);
            }
            self.add_node(cand);
            proof {
                let nw = pre.free@.last();
                assert(nw == f0[f0.len() - 1 - j]);
                assert(self.free@ =~= f0.subrange(0, f0.len() - (j + 1)));
                assert(!live0.contains(nw as int)) by {
                    assert(!pre.live@.contains(nw as int));
                }
                assert forall|v: int| #[trigger] self.live@.contains(v) <==> (live0.contains(v) || exists|i: int|
                    0 <= i < j + 1 && self.next_leaf@[i] == v) by {
                    if self.live@.contains(v) && !live0.contains(v) {
                        if v != nw as int {
                            let i = choose|i: int| 0 <= i < j && pre.next_leaf@[i] == v;
                            assert(self.next_leaf@[i] == v);
                        } else {
                            assert(self.next_leaf@[j as int] == v);
                        }
                    }
                    if exists|i: int| 0 <= i < j + 1 && self.next_leaf@[i] == v {
                        let i = choose|i: int| 0 <= i < j + 1 && self.next_leaf@[i] == v;
                        if i < j {
                            assert(pre.next_leaf@[i] == v);
                        }
                    }
                }
                assert forall|i: int| 0 <= i < j + 1 implies {
                    let t = #[trigger] self.next_leaf@[i] as int;
                    &&& self.nodes@[t].op == cands@[i].op
                    &&& self.nodes@[t].parent == cands@[i].parent
                    &&& self.nodes@[t].child == NONE
                } by {
                    if i < j {
                        let t = pre.next_leaf@[i] as int;
                        assert(self.next_leaf@[i] == pre.next_leaf@[i]);
                        assert(t != cand.parent as int);
                    }
                }
                assert forall|v: int| #[trigger] live0.contains(v) implies self.nodes@[v].op == nodes0[v].op
                    && self.nodes@[v].parent == nodes0[v].parent && ((self.nodes@[v].child != NONE) <==> (nodes0[v].child
                    != NONE || exists|i: int| 0 <= i < j + 1 && cands@[i].parent == v)) by {
                    assert(pre.live@.contains(v));
                    assert(v != nw as int);
                    if v == cand.parent as int {
                        assert(cands@[j as int].parent == v);
                    } else {
                        if exists|i: int| 0 <= i < j + 1 && cands@[i].parent == v {
                            let i = choose|i: int| 0 <= i < j + 1 && cands@[i].parent == v;
                            assert(i < j);
                        }
                    }
                }
                assert forall|v: int| #[trigger] live0.contains(v) implies self.depth@[v] == depth0[v] by {
                    assert(pre.live@.contains(v));
                }
            }
            j = j + 1;
        }
        let ghost mid = *self;
        let ghost newl = self.next_leaf@;
        let ghost leaves = old(self).leaf@;
        let ghost dl = if leaves.len() > 0 { depth0[leaves[0] as int] } else { 0 };
        let n_leaves = self.leaf.len();
        proof {
            assert forall|a: int, b: int| 0 <= a < b < leaves.len() implies #[trigger] leaves[a] != #[trigger] leaves[b] by {
                assert(old(self).spec_leaf()[a] == leaves[a] && old(self).spec_leaf()[b] == leaves[b]);
            }
            assert forall|k: int| 0 <= k < leaves.len() implies #[trigger] self.depth@[leaves[k] as int] == dl by {
                assert(old(self).spec_leaf()[k] == leaves[k]);
                assert(old(self).spec_leaf()[0] == leaves[0]);
                assert(old(self).depth_of(leaves[k] as int) == old(self).depth_of(leaves[0] as int));
                assert(live0.contains(leaves[k] as int));
            }
        }
        let mut i: usize = 0;
        while i < n_leaves
            invariant
                self.wf(),
                n_leaves == leaves.len(),
                self.leaf@ == leaves,
                self.next_leaf@ == newl,
                leaves == old(self).leaf@,
                newl.len() == cands@.len(),
                forall|a: int, b: int| 0 <= a < b < leaves.len() ==> #[trigger] leaves[a] != #[trigger] leaves[b],
                forall|k: int| 0 <= k < leaves.len() ==> #[trigger] self.depth@[leaves[k] as int] == dl,
                forall|k: int| 0 <= k < leaves.len() ==> live0.contains(#[trigger] leaves[k] as int),
                forall|t: int| 0 <= t < newl.len() ==> !live0.contains(#[trigger] newl[t] as int),
                i <= n_leaves,
                forall|k: int|
                    0 <= k < i ==> (self.live@.contains(#[trigger] leaves[k] as int) <==> mid.nodes@[leaves[k] as int].child
                        != NONE),
                forall|k: int|
                    i <= k < leaves.len() ==> self.live@.contains(#[trigger] leaves[k] as int) && self.nodes@[leaves[k] as int].child
                        == mid.nodes@[leaves[k] as int].child,
                forall|t: int|
                    0 <= t < newl.len() ==> {
                        let u = #[trigger] newl[t] as int;
                        &&& self.live@.contains(u)
                        &&& self.nodes@[u].op == mid.nodes@[u].op
                        &&& self.nodes@[u].parent == mid.nodes@[u].parent
                        &&& self.nodes@[u].child == NONE
                    },
            decreases n_leaves - i,
        {
            let n = self.leaf[i];
            if self.nodes[n].child == NONE {
                if !self.deletable(n) {
                    proof {
                        assert(old(self).spec_leaf()[i as int] == n);
                        assert(self.live@.contains(leaves[i as int] as int));
                    }
                    return false;
                }
                let ghost pre = *self;
                self.del_node(n);
                proof {
                    let chain = pre.deleted_chain(n as int);
                    assert forall|k: int| 0 <= k < leaves.len() && k != i implies !chain.contains(#[trigger] leaves[k]) by {
                        if chain.contains(leaves[k]) {
                            let c = choose|c: int| 0 <= c < chain.len() && chain[c] == leaves[k];
                            if c == 0 {
                                if k < i {
                                    assert(leaves[k] != leaves[i as int]);
                                } else {
                                    assert(leaves[i as int] != leaves[k]);
                                }
                            } else {
                                assert(pre.depth_of(chain[c] as int) < pre.depth_of(n as int));
                            }
                        }
                    }
                    assert forall|t: int| 0 <= t < newl.len() implies !chain.contains(#[trigger] newl[t]) by {
                        if chain.contains(newl[t]) {
                            let c = choose|c: int| 0 <= c < chain.len() && chain[c] == newl[t];
                            if c == 0 {
                                assert(live0.contains(n as int));
                            } else {
                                assert(pre.spec_nodes()[chain[c] as int].child != NONE);
                            }
                        }
                    }
                    assert(chain.contains(n)) by {
                        assert(chain[0] == n);
                    }
                    assert forall|k: int| 0 <= k < leaves.len() implies #[trigger] self.depth@[leaves[k] as int] == dl by {
                        assert(self.depth_of(leaves[k] as int) == pre.depth_of(leaves[k] as int));
                    }
                    assert forall|k: int|
                        i + 1 <= k < leaves.len() implies self.live@.contains(#[trigger] leaves[k] as int)
                            && self.nodes@[leaves[k] as int].child == mid.nodes@[leaves[k] as int].child by {
                        assert(!chain.contains(leaves[k]));
                        if self.nodes@[leaves[k] as int].child != pre.nodes@[leaves[k] as int].child {
                            assert(pre.depth_of(leaves[k] as int) < pre.depth_of(n as int));
                        }
                    }
                    assert forall|k: int|
                        0 <= k < i + 1 implies (self.live@.contains(#[trigger] leaves[k] as int) <==> mid.nodes@[leaves[k] as int].child
                            != NONE) by {
                        if k < i {
                            assert(!chain.contains(leaves[k]));
                        }
                    }
                    assert forall|t: int| 0 <= t < newl.len() implies {
                        let u = #[trigger] newl[t] as int;
                        &&& self.live@.contains(u)
                        &&& self.nodes@[u].op == mid.nodes@[u].op
                        &&& self.nodes@[u].parent == mid.nodes@[u].parent
                        &&& self.nodes@[u].child == NONE
                    } by {
                        assert(!chain.contains(newl[t]));
                        assert(pre.live@.contains(newl[t] as int));
                    }
                }
            }
            i = i + 1;
        }
        std::mem::swap(&mut self.leaf, &mut self.next_leaf);
        proof {
            assert forall|k: int| 0 <= k < leaves.len() implies (self.live@.contains(#[trigger] leaves[k] as int) <==> (
            nodes0[leaves[k] as int].child != NONE || exists|j2: int|
                0 <= j2 < cands@.len() && cands@[j2].parent == leaves[k])) by {
                assert(live0.contains(leaves[k] as int));
            }
        }
        true
    }
}

/// Along the freed chain the depth drops by one at each step, down to the
/// last node freed.
pub proof fn lemma_chain_depth(nodes: Seq<Node>, live: Set<int>, depth: Map<int, nat>, chain: Seq<usize>, x: int)
    requires
        tree_links_ok(nodes, live, depth),
        nodes.len() <= MAX_NODES,
        live.contains(x),
        chain.len() > 0 ==> nodes[chain.last() as int].parent == x,
        forall|k: int| 0 <= k < chain.len() ==> live.contains(#[trigger] chain[k] as int) && chain[k] != 0,
        forall|k: int| 0 < k < chain.len() ==> #[trigger] chain[k] == nodes[chain[k - 1] as int].parent,
    ensures
        forall|k: int| 0 <= k < chain.len() ==> #[trigger] depth[chain[k] as int] == depth[x] + chain.len() - k,
        forall|k: int| 0 <= k <= chain.len() ==> #[trigger] depth[chain.push(x as usize)[k] as int] == depth[x] + chain.len() - k,
    decreases chain.len(),
{
    if chain.len() > 0 {
        let c = chain.drop_first();
        assert forall|k: int| 0 < k < c.len() implies #[trigger] c[k] == nodes[c[k - 1] as int].parent by {
            assert(c[k] == chain[k + 1]);
            assert(c[k - 1] == chain[k]);
        }
        assert forall|k: int| 0 <= k < c.len() implies live.contains(#[trigger] c[k] as int) && c[k] != 0 by {
            assert(c[k] == chain[k + 1]);
        }
        if c.len() > 0 {
            assert(c.last() == chain.last());
        }
        lemma_chain_depth(nodes, live, depth, c, x);
        assert(link_at(nodes, live, depth, chain[0] as int));
        assert forall|k: int| 0 <= k < chain.len() implies #[trigger] depth[chain[k] as int] == depth[x] + chain.len() - k by {
            if k == 0 {
                if chain.len() > 1 {
                    assert(chain[1] == nodes[chain[0] as int].parent);
                    assert(c[0] == chain[1]);
                    assert(depth[chain[0] as int] == depth[nodes[chain[0] as int].parent as int] + 1);
                } else {
                    assert(depth[chain[0] as int] == depth[nodes[chain[0] as int].parent as int] + 1);
                }
            } else {
                assert(chain[k] == c[k - 1]);
            }
        }
    }
    assert forall|k: int| 0 <= k <= chain.len() implies #[trigger] depth[chain.push(x as usize)[k] as int] == depth[x] + chain.len() - k by {
        if k < chain.len() {
            assert(chain.push(x as usize)[k] == chain[k]);
        } else {
            assert(chain.push(x as usize)[k] == x as usize);
        }
    }
}

/// After the chain is freed and the last node freed taken out of its
/// siblings' list, the links still form a tree, the places among siblings
/// close up, and every node left keeps its path.
pub proof fn lemma_unlink(
    on: Seq<Node>,
    nn: Seq<Node>,
    ol: Set<int>,
    od: Map<int, nat>,
    orank: Map<int, nat>,
    chain: Seq<usize>,
    x: int,
    start: int,
)
    requires
        tree_links_ok(on, ol, od),
        ranks_ok(on, ol, orank),
        on.len() <= MAX_NODES,
        ol.contains(x),
        x != 0,
        on[x].prev != NONE || on[x].next != NONE,
        chain.len() == 0 ==> x == start && on[start].child == NONE,
        chain.len() > 0 ==> on[chain.last() as int].parent == x && chain[0] == start && on[start].child == NONE,
        forall|k: int| 0 <= k < chain.len() ==> ol.contains(#[trigger] chain[k] as int) && chain[k] != 0
            && on[chain[k] as int].prev == NONE && on[chain[k] as int].next == NONE && od[chain[k] as int] > od[x],
        forall|k: int| 0 < k < chain.len() ==> #[trigger] chain[k] == on[chain[k - 1] as int].parent,
        forall|k: int| 0 <= k < chain.len() ==> #[trigger] od[chain[k] as int] == od[x] + chain.len() - k,
        nn.len() == on.len(),
        ({
            let (pv, nx, p) = (on[x].prev, on[x].next, on[x].parent);
            &&& pv != NONE ==> nn[pv as int] == (Node { next: nx, ..on[pv as int] })
            &&& pv == NONE ==> nn[p as int] == (Node { child: nx, ..on[p as int] })
            &&& nx != NONE ==> nn[nx as int] == (Node { prev: pv, ..on[nx as int] })
            &&& forall|u: int|
                0 <= u < on.len() && (pv != NONE || u != p) && (pv == NONE || u != pv) && (nx == NONE || u != nx)
                    ==> #[trigger] nn[u] == on[u]
        }),
    ensures
        ({
            let gone = chain.push(x as usize);
            let nl = without(ol, gone);
            let p = on[x].parent as int;
            let nr = Map::new(
                |v: int| nl.contains(v),
                |v: int| if on[v].parent as int == p && orank[v] > orank[x] { (orank[v] - 1) as nat } else { orank[v] },
            );
            &&& tree_links_ok(nn, nl, od)
            &&& ranks_ok(nn, nl, nr)
            &&& forall|v: int| #[trigger] nl.contains(v) ==> reaches_mark(nn, nl, od, v) == reaches_mark(on, ol, od, v)
                && ops_to(nn, nl, od, v) == ops_to(on, ol, od, v)
        }),
{
    let gone = chain.push(x as usize);
    let nl = without(ol, gone);
    let (pv, nx, p) = (on[x].prev, on[x].next, on[x].parent as int);
    let nr = Map::new(
        |v: int| nl.contains(v),
        |v: int| if on[v].parent as int == p && orank[v] > orank[x] { (orank[v] - 1) as nat } else { orank[v] },
    );
    assert(gone.contains(x as usize)) by {
        assert(gone[chain.len() as int] == x as usize);
    }
    assert(link_at(on, ol, od, x));
    // no node left hangs from a freed one
    assert forall|y: int| #[trigger] nl.contains(y) && y != 0 implies !gone.contains(on[y].parent) by {
        if gone.contains(on[y].parent) {
            let k = choose|k: int| 0 <= k < gone.len() && gone[k] == on[y].parent;
            if k == 0 {
                if chain.len() == 0 {
                    assert(gone[0] == x as usize);
                    assert(on[y].parent as int == start);
                } else {
                    assert(gone[0] == chain[0]);
                }
                lemma_parent_has_child(on, ol, od, orank, y);
            } else {
                let c = gone[k - 1] as int;
                if k < chain.len() {
                    assert(gone[k] == chain[k]);
                    assert(gone[k - 1] == chain[k - 1]);
                    assert(chain[k] == on[chain[k - 1] as int].parent);
                } else {
                    assert(gone[k - 1] == chain.last());
                }
                lemma_only_child(on, ol, od, orank, c, y);
                assert(gone.contains(y as usize)) by {
                    assert(gone[k - 1] == y as usize);
                }
            }
        }
    }
    // the freed nodes below `x` lie deeper than `x`'s siblings and parent
    assert forall|k: int| 0 <= k < chain.len() implies od[#[trigger] chain[k] as int] > od[x] by {}
    assert(ol.contains(p) && od[x] == od[p] + 1);
    assert(!gone.contains(p as usize)) by {
        if gone.contains(p as usize) {
            let k = choose|k: int| 0 <= k < gone.len() && gone[k] == p as usize;
            if k < chain.len() {
                assert(gone[k] == chain[k]);
            }
        }
    }
    if pv != NONE {
        assert(ol.contains(pv as int) && on[pv as int].parent == on[x].parent && on[pv as int].next == x);
        assert(link_at(on, ol, od, pv as int));
        assert(orank[x] == orank[pv as int] + 1);
        assert(od[pv as int] == od[x]);
        assert(!gone.contains(pv)) by {
            if gone.contains(pv) {
                let k = choose|k: int| 0 <= k < gone.len() && gone[k] == pv;
                if k < chain.len() {
                    assert(gone[k] == chain[k]);
                }
            }
        }
        assert(pv as int != p);
    }
    if nx != NONE {
        assert(ol.contains(nx as int) && on[nx as int].parent == on[x].parent && on[nx as int].prev == x);
        assert(link_at(on, ol, od, nx as int));
        assert(on[nx as int].prev == x as usize);
        assert(nx != 0usize);
        assert(orank[nx as int] == orank[x] + 1);
        assert(od[nx as int] == od[x]);
        assert(!gone.contains(nx)) by {
            if gone.contains(nx) {
                let k = choose|k: int| 0 <= k < gone.len() && gone[k] == nx;
                if k < chain.len() {
                    assert(gone[k] == chain[k]);
                }
            }
        }
        assert(nx as int != p);
        assert(pv == NONE || pv != nx);
    }
    assert forall|u: int| 0 <= u < on.len() implies #[trigger] nn[u].parent == on[u].parent && nn[u].op == on[u].op by {
        if pv != NONE && u == pv as int {
        } else if pv == NONE && u == p {
        } else if nx != NONE && u == nx as int {
        }
    }
    assert(tree_links_ok(nn, nl, od)) by {
        assert forall|v: int| #[trigger] nl.contains(v) implies 0 <= v < nn.len() && od.contains_key(v) by {}
        assert(nl.contains(0)) by {
            assert(!gone.contains(0usize)) by {
                if gone.contains(0usize) {
                    let k = choose|k: int| 0 <= k < gone.len() && gone[k] == 0usize;
                    if k < chain.len() {
                        assert(gone[k] == chain[k]);
                    }
                }
            }
        }
        assert(nn[0].parent == NONE && nn[0].prev == NONE && nn[0].next == NONE) by {
            if pv != NONE {
                assert(pv != 0usize);
            }
            if nx != NONE {
                assert(nx != 0usize);
            }
        }
        assert forall|v: int| #[trigger] nl.contains(v) && v != 0 implies ({
            let q = nn[v].parent as int;
            &&& nl.contains(q)
            &&& od[v] == od[q] + 1
            &&& nn[v].prev == NONE ==> nn[q].child == v
        }) by {
            assert(ol.contains(v));
            assert(link_at(on, ol, od, v));
            assert(nn[v].parent == on[v].parent);
            let q = on[v].parent as int;
            assert(!gone.contains(on[v].parent));
            if nn[v].prev == NONE {
                if nx != NONE && v == nx as int {
                    assert(nn[nx as int].prev == pv);
                } else {
                    assert(on[v].prev == NONE);
                    assert(on[q].child == v);
                    if q == p && pv == NONE {
                        assert(v == x) by {
                            lemma_rank_unique(on, ol, od, orank, v, x);
                        }
                    }
                }
            }
        }
        assert forall|v: int| #[trigger] nl.contains(v) implies ({
            let c = nn[v].child;
            c == NONE || (nl.contains(c as int) && nn[c as int].parent == v && nn[c as int].prev == NONE)
        }) by {
            assert(ol.contains(v));
            assert(link_at(on, ol, od, v));
            let c = nn[v].child;
            if c != NONE {
                if v == p && pv == NONE {
                    assert(c == nx);
                } else {
                    assert(c == on[v].child);
                    assert(on[c as int].parent == v);
                    assert(!gone.contains(c)) by {
                        if gone.contains(c) {
                            let k = choose|k: int| 0 <= k < gone.len() && gone[k] == c;
                            if k < chain.len() {
                                assert(gone[k] == chain[k]);
                                if k + 1 < chain.len() {
                                    assert(chain[k + 1] == on[chain[k] as int].parent);
                                    assert(gone.contains(v as usize)) by {
                                        assert(gone[k + 1] == v as usize);
                                    }
                                } else {
                                    assert(gone.contains(v as usize)) by {
                                        assert(gone[k + 1] == v as usize);
                                    }
                                }
                            } else {
                                assert(c == x as usize);
                                assert(on[x].prev == NONE);
                            }
                        }
                    }
                    assert(c != nx || nx == NONE) by {
                        if nx != NONE && c == nx {
                            assert(on[nx as int].prev == x);
                        }
                    }
                }
            }
        }
        assert forall|v: int| #[trigger] nl.contains(v) implies ({
            let n = nn[v].next;
            n == NONE || (nl.contains(n as int) && n as int != 0 && nn[n as int].parent == nn[v].parent
                && nn[n as int].prev == v)
        }) by {
            assert(ol.contains(v));
            assert(link_at(on, ol, od, v));
            let n = nn[v].next;
            if n != NONE {
                if pv != NONE && v == pv as int {
                    assert(n == nx);
                } else {
                    assert(n == on[v].next);
                    assert(on[n as int].prev == v);
                    assert(!gone.contains(n)) by {
                        if gone.contains(n) {
                            let k = choose|k: int| 0 <= k < gone.len() && gone[k] == n;
                            if k < chain.len() {
                                assert(gone[k] == chain[k]);
                            } else {
                                assert(n == x as usize);
                            }
                        }
                    }
                    if nx != NONE && n == nx {
                        assert(v == x);
                    }
                }
            }
        }
        assert forall|v: int| #[trigger] nl.contains(v) implies ({
            let q = nn[v].prev;
            q == NONE || (nl.contains(q as int) && q as int != 0 && nn[q as int].parent == nn[v].parent
                && nn[q as int].next == v)
        }) by {
            assert(ol.contains(v));
            assert(link_at(on, ol, od, v));
            let q = nn[v].prev;
            if q != NONE {
                if nx != NONE && v == nx as int {
                    assert(q == pv);
                } else {
                    assert(q == on[v].prev);
                    assert(on[q as int].next == v);
                    assert(!gone.contains(q)) by {
                        if gone.contains(q) {
                            let k = choose|k: int| 0 <= k < gone.len() && gone[k] == q;
                            if k < chain.len() {
                                assert(gone[k] == chain[k]);
                            } else {
                                assert(q == x as usize);
                            }
                        }
                    }
                    if pv != NONE && q == pv {
                        assert(v == x);
                    }
                }
            }
        }
    }
    assert(ranks_ok(nn, nl, nr)) by {
        assert forall|v: int| #[trigger] nl.contains(v) && v != 0 implies ({
            &&& nr.contains_key(v)
            &&& nn[v].prev == NONE ==> nr[v] == 0
            &&& nn[v].prev != NONE ==> nr[v] == nr[nn[v].prev as int] + 1
        }) by {
            assert(ol.contains(v));
            assert(link_at(on, ol, od, v));
            if nx != NONE && v == nx as int {
                if pv != NONE {
                    assert(nl.contains(pv as int));
                }
            } else {
                let q = on[v].prev;
                assert(nn[v].prev == q);
                if q != NONE {
                    assert(on[q as int].parent == on[v].parent);
                    if on[v].parent as int == p {
                        if orank[v] == orank[x] {
                            lemma_rank_unique(on, ol, od, orank, v, x);
                        }
                        if orank[v] > orank[x] && orank[q as int] == orank[x] {
                            lemma_rank_unique(on, ol, od, orank, q as int, x);
                            assert(on[x].next == v);
                        }
                    }
                    assert(nl.contains(q as int)) by {
                        assert(!gone.contains(q)) by {
                            if gone.contains(q) {
                                let k = choose|k: int| 0 <= k < gone.len() && gone[k] == q;
                                if k < chain.len() {
                                    assert(gone[k] == chain[k]);
                                } else {
                                    assert(q == x as usize);
                                }
                            }
                        }
                    }
                } else {
                    if on[v].parent as int == p && orank[v] == orank[x] {
                        lemma_rank_unique(on, ol, od, orank, v, x);
                    }
                }
            }
        }
    }
    assert forall|v: int| #[trigger] nl.contains(v) implies reaches_mark(nn, nl, od, v) == reaches_mark(on, ol, od, v)
        && ops_to(nn, nl, od, v) == ops_to(on, ol, od, v) by {
        lemma_paths_kept(on, nn, ol, nl, od, gone, v);
    }
}

/// A node left keeps its walk up and its operations.
pub proof fn lemma_paths_kept(on: Seq<Node>, nn: Seq<Node>, ol: Set<int>, nl: Set<int>, od: Map<int, nat>, gone: Seq<usize>, v: int)
    requires
        tree_links_ok(on, ol, od),
        nl == without(ol, gone),
        nn.len() == on.len(),
        forall|u: int| 0 <= u < on.len() ==> #[trigger] nn[u].op == on[u].op && nn[u].parent == on[u].parent,
        forall|y: int| #[trigger] nl.contains(y) && y != 0 ==> !gone.contains(on[y].parent),
        nl.contains(v),
    ensures
        reaches_mark(nn, nl, od, v) == reaches_mark(on, ol, od, v),
        ops_to(nn, nl, od, v) == ops_to(on, ol, od, v),
    decreases od[v],
{
    assert(nn[v].op == on[v].op && nn[v].parent == on[v].parent);
    assert(link_at(on, ol, od, v));
    if v != 0 {
        let q = on[v].parent as int;
        assert(ol.contains(q) && od[v] == od[q] + 1);
        assert(nl.contains(q));
        lemma_paths_kept(on, nn, ol, nl, od, gone, q);
    }
}

} // verus!
