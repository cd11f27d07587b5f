use vstd::prelude::*;
use crate::aabb::{
    AABB, Vec2, join_spec, area, contains, segment_hits, lemma_join_bounds, lemma_area_bound,
    lemma_hits_grow, lemma_join_commutative,
};

verus! {

/// Index of a node in the tree's arena; an index stays valid for the tree's lifetime.
pub type NodeIdx = usize;

/// What a node is: an internal node with exactly two children, or a leaf with its payload.
pub enum NodeKind<D> {
    Internal { child1: NodeIdx, child2: NodeIdx },
    Leaf { data: D },
}

/// A node of the hierarchy.
pub struct Node<D> {
    /// `None` only for the root.
    pub parent: Option<NodeIdx>,
    /// For a leaf, the inserted volume; for an internal node, the join of its children's.
    pub volume: AABB,
    pub kind: NodeKind<D>,
}

/// A dynamic bounding-volume hierarchy over leaves with payloads of type `D`.
pub struct Tree<D> {
    nodes: Vec<Node<D>>,
    root_idx: Option<NodeIdx>,
    /// A rank for each node, strictly smaller than its parent's and at most the root's;
    /// it bounds every walk up or down the tree.
    rank: Ghost<Seq<nat>>,
}

/// Node `i`'s children exist and name `i` as their parent.
pub open spec fn child_links<D>(nodes: Seq<Node<D>>, i: int) -> bool {
    match nodes[i].kind {
        NodeKind::Internal { child1, child2 } => {
            &&& child1 < nodes.len()
            &&& child2 < nodes.len()
            &&& child1 != child2
            &&& nodes[child1 as int].parent == Some(i as usize)
            &&& nodes[child2 as int].parent == Some(i as usize)
        },
        NodeKind::Leaf { .. } => true,
    }
}

/// Node `i`'s parent exists, has a greater rank, and holds `i` in one of its child slots;
/// a node without a parent is the root.
pub open spec fn parent_link<D>(nodes: Seq<Node<D>>, rank: Seq<nat>, root: Option<NodeIdx>, i: int) -> bool {
    match nodes[i].parent {
        Some(p) => {
            &&& p < nodes.len()
            &&& rank[i] < rank[p as int]
            &&& match nodes[p as int].kind {
                NodeKind::Internal { child1, child2 } => child1 as int == i || child2 as int == i,
                NodeKind::Leaf { .. } => false,
            }
        },
        None => root == Some(i as usize),
    }
}

/// The parent and child links form one strict binary tree under `root`.
pub open spec fn links_ok<D>(nodes: Seq<Node<D>>, rank: Seq<nat>, root: Option<NodeIdx>) -> bool {
    &&& rank.len() == nodes.len()
    &&& nodes.len() <= usize::MAX
    &&& match root {
        Some(r) => {
            &&& r < nodes.len()
            &&& nodes[r as int].parent is None
            &&& forall|i: int| 0 <= i < nodes.len() ==> #[trigger] rank[i] <= rank[r as int]
        },
        None => nodes.len() == 0,
    }
    &&& forall|i: int| 0 <= i < nodes.len() ==> #[trigger] child_links(nodes, i)
    &&& forall|i: int| 0 <= i < nodes.len() ==> #[trigger] parent_link(nodes, rank, root, i)
}

/// An internal node's volume is the join of its children's.
pub open spec fn node_fits<D>(nodes: Seq<Node<D>>, i: int) -> bool {
    match nodes[i].kind {
        NodeKind::Internal { child1, child2 } => nodes[i].volume == join_spec(
            nodes[child1 as int].volume,
            nodes[child2 as int].volume,
        ),
        NodeKind::Leaf { .. } => true,
    }
}

pub open spec fn volumes_valid<D>(nodes: Seq<Node<D>>) -> bool {
    forall|i: int| 0 <= i < nodes.len() ==> (#[trigger] nodes[i]).volume.valid()
}

pub open spec fn all_fit<D>(nodes: Seq<Node<D>>) -> bool {
    forall|i: int| 0 <= i < nodes.len() ==> #[trigger] node_fits(nodes, i)
}

/// Number of leaves.
pub open spec fn leaf_count<D>(nodes: Seq<Node<D>>) -> nat
    decreases nodes.len(),
{
    if nodes.len() == 0 {
        0
    } else {
        leaf_count(nodes.drop_last()) + if nodes.last().kind is Leaf {
            1nat
        } else {
            0nat
        }
    }
}

/// Number of internal nodes.
pub open spec fn internal_count<D>(nodes: Seq<Node<D>>) -> nat
    decreases nodes.len(),
{
    if nodes.len() == 0 {
        0
    } else {
        internal_count(nodes.drop_last()) + if nodes.last().kind is Internal {
            1nat
        } else {
            0nat
        }
    }
}

pub open spec fn tree_ok<D>(nodes: Seq<Node<D>>, rank: Seq<nat>, root: Option<NodeIdx>) -> bool {
    &&& links_ok(nodes, rank, root)
    &&& volumes_valid(nodes)
    &&& all_fit(nodes)
    &&& nodes.len() > 0 ==> leaf_count(nodes) == internal_count(nodes) + 1
}

/// Node `k` lies in the subtree under node `s` (`s` itself included).
pub open spec fn in_subtree<D>(nodes: Seq<Node<D>>, rank: Seq<nat>, s: int, k: int) -> bool
    decreases rank[s],
{
    if !(0 <= s < nodes.len()) {
        false
    } else if s == k {
        true
    } else {
        match nodes[s].kind {
            NodeKind::Internal { child1, child2 } => {
                ||| (if child1 < nodes.len() && rank[child1 as int] < rank[s] {
                    in_subtree(nodes, rank, child1 as int, k)
                } else {
                    false
                })
                ||| (if child2 < nodes.len() && rank[child2 as int] < rank[s] {
                    in_subtree(nodes, rank, child2 as int, k)
                } else {
                    false
                })
            },
            NodeKind::Leaf { .. } => false,
        }
    }
}

/// A node of a subtree lies in range and has a rank no greater than the subtree's top.
proof fn lemma_subtree_rank<D>(nodes: Seq<Node<D>>, rank: Seq<nat>, s: int, k: int)
    requires
        in_subtree(nodes, rank, s, k),
    ensures
        0 <= s < nodes.len(),
        0 <= k < nodes.len(),
        rank[k] <= rank[s],
        s != k ==> rank[k] < rank[s],
    decreases rank[s],
{
    if s != k {
        match nodes[s].kind {
            NodeKind::Internal { child1, child2 } => {
                if child1 < nodes.len() && rank[child1 as int] < rank[s] && in_subtree(
                    nodes,
                    rank,
                    child1 as int,
                    k,
                ) {
                    lemma_subtree_rank(nodes, rank, child1 as int, k);
                } else {
                    lemma_subtree_rank(nodes, rank, child2 as int, k);
                }
            },
            NodeKind::Leaf { .. } => {},
        }
    }
}

/// A child of a node in a subtree is in the subtree too.
proof fn lemma_subtree_extend<D>(
    nodes: Seq<Node<D>>,
    rank: Seq<nat>,
    root: Option<NodeIdx>,
    a: int,
    p: int,
    k: int,
)
    requires
        links_ok(nodes, rank, root),
        in_subtree(nodes, rank, a, p),
        0 <= k < nodes.len(),
        nodes[k].parent == Some(p as usize),
    ensures
        in_subtree(nodes, rank, a, k),
    decreases rank[a],
{
    lemma_subtree_rank(nodes, rank, a, p);
    assert(parent_link(nodes, rank, root, k));
    assert(child_links(nodes, p));
    assert(in_subtree(nodes, rank, k, k));
    if a == p {
        assert(rank[k] < rank[p]);
        assert(in_subtree(nodes, rank, p, k));
    } else {
        match nodes[a].kind {
            NodeKind::Internal { child1, child2 } => {
                if child1 < nodes.len() && rank[child1 as int] < rank[a] && in_subtree(
                    nodes,
                    rank,
                    child1 as int,
                    p,
                ) {
                    lemma_subtree_extend(nodes, rank, root, child1 as int, p, k);
                } else {
                    lemma_subtree_extend(nodes, rank, root, child2 as int, p, k);
                }
            },
            NodeKind::Leaf { .. } => {},
        }
    }
}

/// Every node lies under the root.
proof fn lemma_root_reaches<D>(nodes: Seq<Node<D>>, rank: Seq<nat>, root: Option<NodeIdx>, k: int)
    requires
        links_ok(nodes, rank, root),
        0 <= k < nodes.len(),
    ensures
        root is Some,
        in_subtree(nodes, rank, root->0 as int, k),
    decreases rank[root->0 as int] - rank[k],
{
    assert(parent_link(nodes, rank, root, k));
    let r = root->0 as int;
    assert(rank[k] <= rank[r]);
    if k != r {
        assert(nodes[k].parent is Some);
        let p = nodes[k].parent->0 as int;
        assert(rank[k] < rank[p]);
        assert(rank[p] <= rank[r]);
        lemma_root_reaches(nodes, rank, root, p);
        lemma_subtree_extend(nodes, rank, root, r, p, k);
    }
}

/// A proper ancestor of `c` is an ancestor of `c`'s parent.
proof fn lemma_subtree_up<D>(
    nodes: Seq<Node<D>>,
    rank: Seq<nat>,
    root: Option<NodeIdx>,
    i: int,
    c: int,
)
    requires
        links_ok(nodes, rank, root),
        in_subtree(nodes, rank, i, c),
        i != c,
    ensures
        nodes[c].parent is Some,
        in_subtree(nodes, rank, i, nodes[c].parent->0 as int),
    decreases rank[i],
{
    lemma_subtree_rank(nodes, rank, i, c);
    assert(child_links(nodes, i));
    match nodes[i].kind {
        NodeKind::Internal { child1, child2 } => {
            let ci = if child1 < nodes.len() && rank[child1 as int] < rank[i] && in_subtree(
                nodes,
                rank,
                child1 as int,
                c,
            ) {
                child1 as int
            } else {
                child2 as int
            };
            assert(in_subtree(nodes, rank, ci, c));
            lemma_subtree_rank(nodes, rank, ci, c);
            if ci == c {
                assert(nodes[c].parent == Some(i as usize));
                assert(in_subtree(nodes, rank, i, i));
            } else {
                lemma_subtree_up(nodes, rank, root, ci, c);
                let pc = nodes[c].parent->0 as int;
                lemma_subtree_rank(nodes, rank, ci, pc);
                assert(in_subtree(nodes, rank, i, pc));
            }
        },
        NodeKind::Leaf { .. } => {},
    }
}

/// A node's volume contains the volume of every node under it.
proof fn lemma_subtree_contained<D>(
    nodes: Seq<Node<D>>,
    rank: Seq<nat>,
    root: Option<NodeIdx>,
    s: int,
    k: int,
)
    requires
        tree_ok(nodes, rank, root),
        in_subtree(nodes, rank, s, k),
    ensures
        contains(nodes[s].volume, nodes[k].volume),
    decreases rank[s],
{
    lemma_subtree_rank(nodes, rank, s, k);
    if s != k {
        assert(child_links(nodes, s));
        assert(node_fits(nodes, s));
        match nodes[s].kind {
            NodeKind::Internal { child1, child2 } => {
                let c1 = child1 as int;
                let c2 = child2 as int;
                assert(nodes[c1].volume.valid());
                assert(nodes[c2].volume.valid());
                lemma_join_bounds(nodes[c1].volume, nodes[c2].volume);
                if c1 < nodes.len() && rank[c1] < rank[s] && in_subtree(nodes, rank, c1, k) {
                    lemma_subtree_contained(nodes, rank, root, c1, k);
                } else {
                    lemma_subtree_contained(nodes, rank, root, c2, k);
                }
            },
            NodeKind::Leaf { .. } => {},
        }
    }
}

/// Rewriting volumes keeps the links.
proof fn lemma_links_same_shape<D>(
    a: Seq<Node<D>>,
    b: Seq<Node<D>>,
    rank: Seq<nat>,
    root: Option<NodeIdx>,
)
    requires
        links_ok(a, rank, root),
        a.len() == b.len(),
        forall|i: int|
            0 <= i < a.len() ==> (#[trigger] b[i]).kind == a[i].kind && b[i].parent == a[i].parent,
    ensures
        links_ok(b, rank, root),
{
    assert forall|i: int| 0 <= i < b.len() implies #[trigger] child_links(b, i) by {
        assert(child_links(a, i));
        assert(b[i].kind == a[i].kind);
        match a[i].kind {
            NodeKind::Internal { child1, child2 } => {
                assert(b[child1 as int].parent == a[child1 as int].parent);
                assert(b[child2 as int].parent == a[child2 as int].parent);
            },
            NodeKind::Leaf { .. } => {},
        }
    }
    assert forall|i: int| 0 <= i < b.len() implies #[trigger] parent_link(b, rank, root, i) by {
        assert(parent_link(a, rank, root, i));
        assert(b[i].parent == a[i].parent);
        match a[i].parent {
            Some(p) => {
                assert(b[p as int].kind == a[p as int].kind);
            },
            None => {},
        }
    }
    match root {
        Some(r) => {
            assert(b[r as int].parent == a[r as int].parent);
        },
        None => {},
    }
}

/// Growth of the cost of a node of volume `c` when it is refitted to include `v`.
pub open spec fn delta_spec(v: AABB, c: AABB) -> int {
    area(join_spec(c, v)) - area(c)
}

/// Sum of `delta_spec(v, a)` over the volumes `a` of the proper ancestors of node `k`;
/// `top` bounds the ranks met on the way up.
pub open spec fn inherited<D>(nodes: Seq<Node<D>>, rank: Seq<nat>, top: int, v: AABB, k: int) -> int
    decreases top - rank[k],
{
    if 0 <= k < nodes.len() && nodes[k].parent is Some {
        let p = nodes[k].parent->0 as int;
        if 0 <= p < nodes.len() && rank[k] < rank[p] && rank[p] <= top {
            inherited(nodes, rank, top, v, p) + delta_spec(v, nodes[p].volume)
        } else {
            0
        }
    } else {
        0
    }
}

/// Going down from a node, the inherited cost never shrinks, and below the node it has
/// grown by at least the node's own growth.
proof fn lemma_inherit_below<D>(
    nodes: Seq<Node<D>>,
    rank: Seq<nat>,
    root: Option<NodeIdx>,
    v: AABB,
    s: int,
    k: int,
)
    requires
        tree_ok(nodes, rank, root),
        v.valid(),
        in_subtree(nodes, rank, s, k),
    ensures
        root is Some,
        inherited(nodes, rank, rank[root->0 as int] as int, v, k) >= inherited(
            nodes,
            rank,
            rank[root->0 as int] as int,
            v,
            s,
        ),
        k != s ==> inherited(nodes, rank, rank[root->0 as int] as int, v, k) >= inherited(
            nodes,
            rank,
            rank[root->0 as int] as int,
            v,
            s,
        ) + delta_spec(v, nodes[s].volume),
    decreases rank[s],
{
    lemma_subtree_rank(nodes, rank, s, k);
    let top = rank[root->0 as int] as int;
    if s != k {
        assert(child_links(nodes, s));
        assert(nodes[s].volume.valid());
        lemma_join_bounds(nodes[s].volume, v);
        match nodes[s].kind {
            NodeKind::Internal { child1, child2 } => {
                let ci = if child1 < nodes.len() && rank[child1 as int] < rank[s] && in_subtree(
                    nodes,
                    rank,
                    child1 as int,
                    k,
                ) {
                    child1 as int
                } else {
                    child2 as int
                };
                assert(parent_link(nodes, rank, root, ci));
                assert(rank[s] <= top);
                assert(inherited(nodes, rank, top, v, ci) == inherited(nodes, rank, top, v, s)
                    + delta_spec(v, nodes[s].volume));
                lemma_inherit_below(nodes, rank, root, v, ci, k);
            },
            NodeKind::Leaf { .. } => {},
        }
    }
}

/// The counts depend only on which nodes are leaves.
proof fn lemma_counts_same_kinds<D>(a: Seq<Node<D>>, b: Seq<Node<D>>)
    requires
        a.len() == b.len(),
        forall|i: int| 0 <= i < a.len() ==> ((#[trigger] a[i]).kind is Leaf <==> b[i].kind is Leaf),
    ensures
        leaf_count(a) == leaf_count(b),
        internal_count(a) == internal_count(b),
    decreases a.len(),
{
    if a.len() > 0 {
        let a1 = a.drop_last();
        let b1 = b.drop_last();
        assert forall|i: int| 0 <= i < a1.len() implies ((#[trigger] a1[i]).kind is Leaf <==> b1[i].kind is Leaf) by {
            assert(a1[i] == a[i]);
            assert(b1[i] == b[i]);
        }
        lemma_counts_same_kinds(a1, b1);
        assert(a.last() == a[a.len() - 1]);
    }
}

/// `kind` with the child slot that holds `from` made to hold `to`.
pub open spec fn replace_child<D>(kind: NodeKind<D>, from: NodeIdx, to: NodeIdx) -> NodeKind<D> {
    match kind {
        NodeKind::Internal { child1, child2 } => NodeKind::Internal {
            child1: if child1 == from {
                to
            } else {
                child1
            },
            child2: if child2 == from {
                to
            } else {
                child2
            },
        },
        NodeKind::Leaf { data } => NodeKind::Leaf { data },
    }
}

/// The tree right after a new internal node at `n + 1` took the place of node `s` and holds
/// it and a new leaf at `n`: the links are whole again, and only the proper ancestors of the
/// leaf may still need a refit.
proof fn lemma_splice_ok<D>(
    old_nodes: Seq<Node<D>>,
    old_rank: Seq<nat>,
    old_root: Option<NodeIdx>,
    nodes: Seq<Node<D>>,
    rank: Seq<nat>,
    root: Option<NodeIdx>,
    s: int,
    v: AABB,
)
    requires
        tree_ok(old_nodes, old_rank, old_root),
        old_root is Some,
        v.valid(),
        0 <= s < old_nodes.len(),
        old_nodes.len() + 2 <= usize::MAX,
        nodes.len() == old_nodes.len() + 2,
        nodes[old_nodes.len() as int].parent == Some((old_nodes.len() + 1) as usize),
        nodes[old_nodes.len() as int].volume == v,
        nodes[old_nodes.len() as int].kind is Leaf,
        nodes[old_nodes.len() + 1int].parent == old_nodes[s].parent,
        nodes[old_nodes.len() + 1int].volume == join_spec(v, old_nodes[s].volume),
        nodes[old_nodes.len() + 1int].kind == (NodeKind::Internal::<D> {
            child1: s as usize,
            child2: old_nodes.len() as usize,
        }),
        forall|i: int|
            0 <= i < old_nodes.len() ==> {
                &&& (#[trigger] nodes[i]).volume == old_nodes[i].volume
                &&& nodes[i].parent == if i == s {
                    Some((old_nodes.len() + 1) as usize)
                } else {
                    old_nodes[i].parent
                }
                &&& nodes[i].kind == replace_child(
                    old_nodes[i].kind,
                    s as usize,
                    (old_nodes.len() + 1) as usize,
                )
            },
        rank == Seq::new(
            (old_nodes.len() + 2) as nat,
            |i: int|
                if i < old_nodes.len() {
                    2 * old_rank[i]
                } else if i == old_nodes.len() {
                    0nat
                } else {
                    2 * old_rank[s] + 1
                },
        ),
        root == if old_nodes[s].parent is None {
            Some((old_nodes.len() + 1) as usize)
        } else {
            old_root
        },
    ensures
        links_ok(nodes, rank, root),
        volumes_valid(nodes),
        leaf_count(nodes) == internal_count(nodes) + 1,
        forall|i: int|
            0 <= i < nodes.len() ==> #[trigger] node_fits(nodes, i) || in_subtree(
                nodes,
                rank,
                i,
                old_nodes.len() as int,
            ),
{
    let n = old_nodes.len() as int;
    let p = n + 1;
    let r = old_root->0 as int;
    let op = old_nodes[s].parent;
    assert(parent_link(old_nodes, old_rank, old_root, s));
    assert(child_links(old_nodes, s));
    assert(old_nodes[s].volume.valid());
    lemma_join_bounds(v, old_nodes[s].volume);
    lemma_join_commutative(v, old_nodes[s].volume);
    // children name their parents
    assert forall|i: int| 0 <= i < nodes.len() implies #[trigger] child_links(nodes, i) by {
        if i < n {
            assert(child_links(old_nodes, i));
            match old_nodes[i].kind {
                NodeKind::Internal { child1, child2 } => {
                    assert(old_nodes[child1 as int].parent == Some(i as usize));
                    assert(old_nodes[child2 as int].parent == Some(i as usize));
                    assert(nodes[child1 as int].parent == old_nodes[child1 as int].parent
                        || child1 == s);
                    assert(nodes[child2 as int].parent == old_nodes[child2 as int].parent
                        || child2 == s);
                },
                NodeKind::Leaf { .. } => {},
            }
        }
    }
    // parents hold their children, with greater ranks
    assert forall|i: int| 0 <= i < nodes.len() implies #[trigger] parent_link(nodes, rank, root, i) by {
        if i < n && i != s {
            assert(parent_link(old_nodes, old_rank, old_root, i));
            match old_nodes[i].parent {
                Some(q) => {
                    assert(nodes[q as int].kind == replace_child(
                        old_nodes[q as int].kind,
                        s as usize,
                        p as usize,
                    ));
                },
                None => {
                    assert(op is Some);
                },
            }
        }
        if i == p {
            match op {
                Some(q) => {
                    assert(nodes[q as int].kind == replace_child(
                        old_nodes[q as int].kind,
                        s as usize,
                        p as usize,
                    ));
                },
                None => {},
            }
        }
    }
    // the root is the node of greatest rank
    match op {
        Some(q) => {
            assert(r != s);
            assert(nodes[r].parent == old_nodes[r].parent);
            assert(old_rank[s] < old_rank[q as int]);
            assert(old_rank[q as int] <= old_rank[r]);
            assert(old_rank[s] <= old_rank[r]);
            assert forall|i: int| 0 <= i < nodes.len() implies #[trigger] rank[i] <= rank[r] by {
                if i < n {
                    assert(old_rank[i] <= old_rank[r]);
                }
            }
        },
        None => {
            assert(old_root == Some(s as usize));
            assert forall|i: int| 0 <= i < nodes.len() implies #[trigger] rank[i] <= rank[p] by {
                if i < n {
                    assert(old_rank[i] <= old_rank[s]);
                }
            }
        },
    }
    assert(links_ok(nodes, rank, root));
    assert forall|i: int| 0 <= i < nodes.len() implies (#[trigger] nodes[i]).volume.valid() by {
        if i < n {
            assert(old_nodes[i].volume.valid());
        }
    }
    // only the old parent of the sibling may no longer fit
    assert(in_subtree(nodes, rank, n, n));
    assert(in_subtree(nodes, rank, p, n));
    assert forall|i: int| 0 <= i < nodes.len() implies #[trigger] node_fits(nodes, i) || in_subtree(
        nodes,
        rank,
        i,
        n,
    ) by {
        if i < n {
            assert(child_links(old_nodes, i));
            assert(node_fits(old_nodes, i));
            if op == Some(i as usize) {
                assert(child_links(nodes, i));
                assert(parent_link(nodes, rank, root, p));
                assert(in_subtree(nodes, rank, i, n));
            } else {
                match old_nodes[i].kind {
                    NodeKind::Internal { child1, child2 } => {
                        assert(child1 != s && child2 != s);
                        assert(nodes[child1 as int].volume == old_nodes[child1 as int].volume);
                        assert(nodes[child2 as int].volume == old_nodes[child2 as int].volume);
                    },
                    NodeKind::Leaf { .. } => {},
                }
            }
        }
    }
    // one more leaf and one more internal node
    let mid = nodes.subrange(0, n);
    assert forall|i: int| 0 <= i < n implies ((#[trigger] old_nodes[i]).kind is Leaf <==> mid[i].kind is Leaf) by {
        assert(mid[i] == nodes[i]);
    }
    lemma_counts_same_kinds(old_nodes, mid);
    assert(nodes.drop_last() =~= mid.push(nodes[n]));
    assert(mid.push(nodes[n]).drop_last() =~= mid);
    assert(nodes.last() == nodes[p]);
    assert(mid.push(nodes[n]).last() == nodes[n]);
    assert(leaf_count(mid.push(nodes[n])) == leaf_count(mid) + 1);
    assert(internal_count(mid.push(nodes[n])) == internal_count(mid));
    assert(leaf_count(nodes) == leaf_count(mid) + 1);
    assert(internal_count(nodes) == internal_count(mid) + 1);
}

impl<D> View for Tree<D> {
    type V = Seq<Node<D>>;

    /// The arena's nodes, by index.
    closed spec fn view(&self) -> Seq<Node<D>> {
        self.nodes@
    }
}

impl<D> Tree<D> {
    pub closed spec fn spec_root(&self) -> Option<NodeIdx> {
        self.root_idx
    }

    /// The tree's shape and bounding invariants hold.
    pub closed spec fn wf(&self) -> bool {
        tree_ok(self.nodes@, self.rank@, self.root_idx)
    }

    /// Node `k` lies in the subtree under node `s`.
    pub closed spec fn in_subtree(&self, s: int, k: int) -> bool {
        in_subtree(self.nodes@, self.rank@, s, k)
    }

    /// Growth of the costs of the proper ancestors of node `k` when they are refitted to
    /// include `v`: zero at the root, and below it the parent's inherited cost plus
    /// `delta_spec(v, parent volume)`.
    pub closed spec fn inherited_cost(&self, v: AABB, k: int) -> int {
        inherited(self.nodes@, self.rank@, self.rank@[self.root_idx->0 as int] as int, v, k)
    }

    /// Cost of making node `k` the sibling of a new leaf of volume `v`: the cost of the new
    /// parent node plus the growth of the costs of its ancestors.
    pub open spec fn sibling_cost(&self, v: AABB, k: int) -> int {
        area(join_spec(v, self@[k].volume)) + self.inherited_cost(v, k)
    }

    /// `new` is this non-empty tree after a leaf of volume `v` was inserted: the leaf, at the
    /// first free index `n`, and a new internal node at `n + 1` that took the place of a best
    /// sibling and holds it and the leaf; nothing else changed but the volumes above.
    pub open spec fn inserted_beside(&self, new: Tree<D>, v: AABB) -> bool {
        let n = self@.len();
        let s = new@[n + 1int].kind->child1;
        &&& new@.len() == n + 2
        &&& self.is_best_sibling(v, s as int)
        &&& new@[n as int].parent == Some((n + 1) as usize)
        &&& new@[n + 1int].kind == (NodeKind::Internal::<D> { child1: s, child2: n as usize })
        &&& new@[n + 1int].parent == self@[s as int].parent
        &&& new.spec_root() == if self@[s as int].parent is None {
            Some((n + 1) as usize)
        } else {
            self.spec_root()
        }
        &&& forall|i: int|
            0 <= i < n ==> {
                &&& (#[trigger] new@[i]).parent == if i == s {
                    Some((n + 1) as usize)
                } else {
                    self@[i].parent
                }
                &&& new@[i].kind == replace_child(self@[i].kind, s, (n + 1) as usize)
                &&& self@[i].kind is Leaf ==> new@[i].volume == self@[i].volume
            }
    }

    /// Some leaf's volume has a point of the segment from `p1` to `p2`.
    pub open spec fn ray_hits_leaf(&self, p1: Vec2, p2: Vec2) -> bool {
        exists|k: int|
            0 <= k < self@.len() && self@[k].kind is Leaf && #[trigger] segment_hits(
                self@[k].volume,
                p1,
                p2,
            )
    }

    /// Node `s` is a sibling of least cost for a new leaf of volume `v`.
    pub open spec fn is_best_sibling(&self, v: AABB, s: int) -> bool {
        &&& 0 <= s < self@.len()
        &&& forall|k: int|
            0 <= k < self@.len() ==> self.sibling_cost(v, s) <= #[trigger] self.sibling_cost(v, k)
    }

    /// An empty tree.
    pub fn new() -> (r: Self)
        ensures
            r.wf(),
            r@.len() == 0,
            r.spec_root() is None,
    {
        Tree { nodes: Vec::new(), root_idx: None, rank: Ghost(Seq::empty()) }
    }

    /// Inserts a leaf of volume `volume` with payload `data` and returns its index. The leaf
    /// becomes the root of an empty tree; otherwise a new internal node takes the place of
    /// the best sibling and holds it and the leaf, and the volumes above are refitted.
    pub fn insert_leaf(&mut self, volume: AABB, data: D) -> (r: NodeIdx)
        requires
            old(self).wf(),
            volume.valid(),
            old(self)@.len() + 2 <= usize::MAX,
        ensures
            final(self).wf(),
            r == old(self)@.len(),
            final(self)@[r as int].volume == volume,
            final(self)@[r as int].kind == (NodeKind::Leaf { data }),
            old(self)@.len() == 0 ==> {
                &&& final(self)@.len() == 1
                &&& final(self).spec_root() == Some(r)
                &&& final(self)@[r as int].parent is None
            },
            old(self)@.len() > 0 ==> old(self).inserted_beside(*final(self), volume),
    {
        let ghost old_nodes = self.nodes@;
        let ghost old_rank = self.rank@;
        let ghost old_root = self.root_idx;
        let n = self.nodes.len();
        if let Some(root_idx) = self.root_idx {
            // 1. tree is non-empty, so search for the best sibling
            // to join with the leaf under a new parent node
            let sibling_idx: NodeIdx = find_best_sibling(self, root_idx, &volume);
            let old_parent_idx = self.nodes[sibling_idx].parent;
            // 2: replace sibling with new_parent, whose children are sibling and leaf
            let new_parent_volume = AABB::join(&volume, &self.nodes[sibling_idx].volume);
            let leaf_idx: NodeIdx = n;
            let new_parent_idx: NodeIdx = n + 1;
            self.nodes.push(
                Node { parent: Some(new_parent_idx), volume, kind: NodeKind::Leaf { data } },
            );
            self.nodes.push(
                Node {
                    parent: old_parent_idx,
                    volume: new_parent_volume,
                    kind: NodeKind::Internal { child1: sibling_idx, child2: leaf_idx },
                },
            );
            // set new_parent to be the parent of sibling
            self.nodes[sibling_idx].parent = Some(new_parent_idx);
            proof {
                assert(parent_link(old_nodes, old_rank, old_root, sibling_idx as int));
            }
            // ensure that old_parent points to new_parent
            if let Some(old_parent_idx) = old_parent_idx {
                // sibling was not the root, so replace
                // it with new_parent under old_parent
                if let NodeKind::Internal { child1, child2 } = self.nodes[old_parent_idx].kind {
                    let c1 = if child1 == sibling_idx {
                        new_parent_idx
                    } else {
                        child1
                    };
                    let c2 = if child2 == sibling_idx {
                        new_parent_idx
                    } else {
                        child2
                    };
                    self.nodes[old_parent_idx].kind = NodeKind::Internal { child1: c1, child2: c2 };
                }
            } else {
                // sibling was the root, so
                // make new_parent the root
                self.root_idx = Some(new_parent_idx);
            }
            let ghost new_rank = Seq::new(
                (n + 2) as nat,
                |i: int|
                    if i < n {
                        2 * old_rank[i]
                    } else if i == n {
                        0nat
                    } else {
                        2 * old_rank[sibling_idx as int] + 1
                    },
            );
            self.rank = Ghost(new_rank);
            proof {
                let nodes = self.nodes@;
                assert(parent_link(old_nodes, old_rank, old_root, sibling_idx as int));
                assert forall|i: int| 0 <= i < n implies {
                    &&& (#[trigger] nodes[i]).volume == old_nodes[i].volume
                    &&& nodes[i].parent == if i == sibling_idx {
                        Some(new_parent_idx)
                    } else {
                        old_nodes[i].parent
                    }
                    &&& nodes[i].kind == replace_child(old_nodes[i].kind, sibling_idx, new_parent_idx)
                } by {
                    assert(child_links(old_nodes, i));
                }
                lemma_splice_ok(
                    old_nodes,
                    old_rank,
                    old_root,
                    nodes,
                    new_rank,
                    self.root_idx,
                    sibling_idx as int,
                    volume,
                );
            }
            let ghost spliced = self.nodes@;
            // 3: walk back up the tree, refitting AABBs
            self.refit_ancestors(leaf_idx);
            proof {
                assert forall|i: int| 0 <= i < spliced.len() implies ((#[trigger] spliced[i]).kind is Leaf
                    <==> self.nodes@[i].kind is Leaf) by {
                    assert(self.nodes@[i].kind == spliced[i].kind);
                }
                lemma_counts_same_kinds(spliced, self.nodes@);
                assert forall|i: int| 0 <= i < n implies (#[trigger] self.nodes@[i]).parent == (if i
                    == sibling_idx {
                    Some(new_parent_idx)
                } else {
                    old_nodes[i].parent
                }) && self.nodes@[i].kind == replace_child(old_nodes[i].kind, sibling_idx, new_parent_idx)
                    && (old_nodes[i].kind is Leaf ==> self.nodes@[i].volume == old_nodes[i].volume) by {
                    assert(self.nodes@[i].parent == spliced[i].parent);
                    assert(self.nodes@[i].kind == spliced[i].kind);
                    if old_nodes[i].kind is Leaf {
                        assert(self.nodes@[i] == spliced[i]);
                    }
                }
                assert(self.nodes@[n as int] == spliced[n as int]);
                assert(tree_ok(self.nodes@, self.rank@, self.root_idx));
            }
            leaf_idx
        } else {
            // tree was empty, use new leaf as root
            self.nodes.push(Node { parent: None, volume, kind: NodeKind::Leaf { data } });
            self.root_idx = Some(n);
            self.rank = Ghost(Seq::empty().push(0nat));
            proof {
                let nodes = self.nodes@;
                assert(child_links(nodes, 0));
                assert(parent_link(nodes, self.rank@, self.root_idx, 0));
                assert(node_fits(nodes, 0));
                assert(nodes.drop_last() =~= Seq::<Node<D>>::empty());
                assert(leaf_count(nodes.drop_last()) == 0);
                assert(internal_count(nodes.drop_last()) == 0);
                assert(nodes.last() == nodes[0]);
                assert(leaf_count(nodes) == 1);
                assert(internal_count(nodes) == 0);
                assert(tree_ok(nodes, self.rank@, self.root_idx));
            }
            n
        }
    }

    /// Whether the segment from `p1` to `p2` reaches a leaf: a depth-first walk from the root
    /// that skips every subtree whose volume the segment misses.
    pub fn ray_cast(&self, p1: Vec2, p2: Vec2) -> (r: bool)
        requires
            self.wf(),
        ensures
            r == self.ray_hits_leaf(p1, p2),
    {
        let ghost nodes = self.nodes@;
        let ghost rank = self.rank@;
        match self.root_idx {
            None => false,
            Some(root_idx) => {
                // list of boxes to check for collisions
                let mut stack: Vec<NodeIdx> = vec![root_idx];
                proof {
                    assert forall|k: int|
                        0 <= k < nodes.len() && nodes[k].kind is Leaf && #[trigger] segment_hits(
                            nodes[k].volume,
                            p1,
                            p2,
                        ) implies stacked(nodes, rank, stack@, k) by {
                        lemma_root_reaches(nodes, rank, self.root_idx, k);
                        assert(in_subtree(nodes, rank, stack@[0] as int, k));
                    }
                }
                while stack.len() > 0
                    invariant
                        self.wf(),
                        self.nodes@ == nodes,
                        self.rank@ == rank,
                        forall|j: int| 0 <= j < stack@.len() ==> #[trigger] stack@[j] < nodes.len(),
                        forall|k: int|
                            0 <= k < nodes.len() && nodes[k].kind is Leaf && #[trigger] segment_hits(
                                nodes[k].volume,
                                p1,
                                p2,
                            ) ==> stacked(nodes, rank, stack@, k),
                    decreases stack_weight(rank, stack@),
                {
                    let ghost s0 = stack@;
                    let top_idx = stack.pop().unwrap();
                    let ghost s1 = stack@;
                    proof {
                        assert(s1 =~= s0.drop_last());
                        assert(top_idx == s0[s0.len() - 1]);
                        assert(child_links(nodes, top_idx as int));
                        lemma_stack_weight_nonneg(rank, s1);
                        lemma_rank_weight_grows_base(rank[top_idx as int]);
                    }
                    let node = &self.nodes[top_idx];
                    // skip the subtree if the ray misses its volume
                    if !node.volume.ray_cast(p1, p2) {
                        proof {
                            assert forall|k: int|
                                0 <= k < nodes.len() && nodes[k].kind is Leaf && #[trigger] segment_hits(
                                    nodes[k].volume,
                                    p1,
                                    p2,
                                ) implies stacked(nodes, rank, s1, k) by {
                                let j = choose|j: int|
                                    0 <= j < s0.len() && #[trigger] in_subtree(nodes, rank, s0[j] as int, k);
                                if j == s0.len() - 1 {
                                    lemma_subtree_contained(nodes, rank, self.root_idx, top_idx as int, k);
                                    lemma_hits_grow(nodes[k].volume, node.volume, p1, p2);
                                } else {
                                    assert(s1[j] == s0[j]);
                                }
                            }
                        }
                        continue;
                    }
                    match node.kind {
                        // a leaf that the ray reaches
                        NodeKind::Leaf { .. } => {
                            return true;
                        },
                        // ray cast children of internal nodes
                        NodeKind::Internal { child1, child2 } => {
                            stack.push(child1);
                            stack.push(child2);
                            proof {
                                let s2 = stack@;
                                assert(parent_link(nodes, rank, self.root_idx, child1 as int));
                                assert(parent_link(nodes, rank, self.root_idx, child2 as int));
                                assert(s2.drop_last() =~= s1.push(child1));
                                assert(s1.push(child1).drop_last() =~= s1);
                                assert(s1.push(child1).last() == child1);
                                assert(s2.last() == child2);
                                assert(stack_weight(rank, s1.push(child1)) == stack_weight(rank, s1)
                                    + rank_weight(rank[child1 as int]));
                                assert(stack_weight(rank, s2) == stack_weight(rank, s1) + rank_weight(
                                    rank[child1 as int],
                                ) + rank_weight(rank[child2 as int]));
                                lemma_rank_weight_grows(rank[child1 as int], (rank[top_idx as int] - 1) as nat);
                                lemma_rank_weight_grows(rank[child2 as int], (rank[top_idx as int] - 1) as nat);
                                assert(rank_weight(rank[top_idx as int]) == 3 * rank_weight(
                                    (rank[top_idx as int] - 1) as nat,
                                ));
                                assert forall|k: int|
                                    0 <= k < nodes.len() && nodes[k].kind is Leaf && #[trigger] segment_hits(
                                        nodes[k].volume,
                                        p1,
                                        p2,
                                    ) implies stacked(nodes, rank, s2, k) by {
                                    let j = choose|j: int|
                                        0 <= j < s0.len() && #[trigger] in_subtree(nodes, rank, s0[j] as int, k);
                                    if j == s0.len() - 1 {
                                        let c = top_idx as int;
                                        if child1 < nodes.len() && rank[child1 as int] < rank[c]
                                            && in_subtree(nodes, rank, child1 as int, k) {
                                            assert(in_subtree(nodes, rank, s2[s1.len() as int] as int, k));
                                        } else {
                                            assert(in_subtree(nodes, rank, s2[s1.len() + 1int] as int, k));
                                        }
                                    } else {
                                        assert(s2[j] == s0[j]);
                                    }
                                }
                            }
                        },
                    }
                }
                false
            },
        }
    }

    /// The root's index, `None` for an empty tree.
    pub fn root(&self) -> (r: Option<NodeIdx>)
        ensures
            r == self.spec_root(),
    {
        self.root_idx
    }

    /// Number of nodes, leaves and internal nodes together.
    pub fn len(&self) -> (r: usize)
        ensures
            r == self@.len(),
    {
        self.nodes.len()
    }

    /// The node at `idx`.
    pub fn node(&self, idx: NodeIdx) -> (r: &Node<D>)
        requires
            idx < self@.len(),
        ensures
            *r == self@[idx as int],
    {
        &self.nodes[idx]
    }

    /// Recomputes one internal node's volume as the join of its children's; a leaf is left as is.
    fn refit_node(&mut self, node_idx: NodeIdx)
        requires
            links_ok(old(self).nodes@, old(self).rank@, old(self).root_idx),
            node_idx < old(self).nodes@.len(),
        ensures
            final(self).rank == old(self).rank,
            final(self).root_idx == old(self).root_idx,
            final(self).nodes@.len() == old(self).nodes@.len(),
            forall|i: int|
                0 <= i < old(self).nodes@.len() && i != node_idx ==> #[trigger] final(self).nodes@[i]
                    == old(self).nodes@[i],
            final(self).nodes@[node_idx as int].parent == old(self).nodes@[node_idx as int].parent,
            final(self).nodes@[node_idx as int].kind == old(self).nodes@[node_idx as int].kind,
            node_fits(final(self).nodes@, node_idx as int),
            old(self).nodes@[node_idx as int].kind is Leaf ==> final(self).nodes@[node_idx as int]
                == old(self).nodes@[node_idx as int],
    {
        proof {
            assert(child_links(self.nodes@, node_idx as int));
        }
        if let NodeKind::Internal { child1, child2 } = self.nodes[node_idx].kind {
            let new_volume = AABB::join(&self.nodes[child1].volume, &self.nodes[child2].volume);
            self.nodes[node_idx].volume = new_volume;
        }
    }
    /// Refits the volume of `leaf_idx` and of all its ancestors, from the bottom up.
    fn refit_ancestors(&mut self, leaf_idx: NodeIdx)
        requires
            links_ok(old(self).nodes@, old(self).rank@, old(self).root_idx),
            volumes_valid(old(self).nodes@),
            leaf_idx < old(self).nodes@.len(),
            forall|i: int|
                0 <= i < old(self).nodes@.len() ==> #[trigger] node_fits(old(self).nodes@, i)
                    || in_subtree(old(self).nodes@, old(self).rank@, i, leaf_idx as int),
        ensures
            final(self).rank == old(self).rank,
            final(self).root_idx == old(self).root_idx,
            final(self).nodes@.len() == old(self).nodes@.len(),
            forall|i: int|
                0 <= i < old(self).nodes@.len() ==> {
                    &&& (#[trigger] final(self).nodes@[i]).kind == old(self).nodes@[i].kind
                    &&& final(self).nodes@[i].parent == old(self).nodes@[i].parent
                    &&& old(self).nodes@[i].kind is Leaf ==> final(self).nodes@[i] == old(
                        self,
                    ).nodes@[i]
                },
            links_ok(final(self).nodes@, final(self).rank@, final(self).root_idx),
            volumes_valid(final(self).nodes@),
            all_fit(final(self).nodes@),
    {
        let ghost shape = self.nodes@;
        let ghost rank = self.rank@;
        let ghost root = self.root_idx;
        let ghost top: int = rank[root->0 as int] as int;
        let mut current: Option<NodeIdx> = Some(leaf_idx);
        while current.is_some()
            invariant
                links_ok(shape, rank, root),
                root is Some,
                top == rank[root->0 as int],
                self.rank@ == rank,
                self.root_idx == root,
                self.nodes@.len() == shape.len(),
                forall|i: int|
                    0 <= i < shape.len() ==> {
                        &&& (#[trigger] self.nodes@[i]).kind == shape[i].kind
                        &&& self.nodes@[i].parent == shape[i].parent
                        &&& shape[i].kind is Leaf ==> self.nodes@[i] == shape[i]
                    },
                links_ok(self.nodes@, rank, root),
                volumes_valid(self.nodes@),
                match current {
                    Some(c) => {
                        &&& c < shape.len()
                        &&& forall|i: int|
                            0 <= i < shape.len() ==> #[trigger] node_fits(self.nodes@, i)
                                || in_subtree(shape, rank, i, c as int)
                    },
                    None => all_fit(self.nodes@),
                },
            decreases
                match current {
                    Some(c) => top + 1 - rank[c as int],
                    None => 0,
                },
        {
            let idx = current.unwrap();
            let ghost before = self.nodes@;
            proof {
                assert(child_links(before, idx as int));
                assert(node_fits(before, idx as int) || in_subtree(shape, rank, idx as int, idx as int));
            }
            self.refit_node(idx);
            let ghost after = self.nodes@;
            proof {
                lemma_links_same_shape(shape, after, rank, root);
                assert(child_links(before, idx as int));
                match before[idx as int].kind {
                    NodeKind::Internal { child1, child2 } => {
                        assert(before[child1 as int].volume.valid());
                        assert(before[child2 as int].volume.valid());
                        lemma_join_bounds(before[child1 as int].volume, before[child2 as int].volume);
                    },
                    NodeKind::Leaf { .. } => {},
                }
                assert forall|i: int| 0 <= i < after.len() implies (#[trigger] after[i]).volume.valid() by {
                    if i != idx {
                        assert(before[i].volume.valid());
                    }
                }
                assert(parent_link(shape, rank, root, idx as int));
                assert(rank[idx as int] <= top);
                let parent = shape[idx as int].parent;
                assert forall|i: int| 0 <= i < shape.len() implies #[trigger] node_fits(after, i)
                    || (parent is Some && in_subtree(shape, rank, i, parent->0 as int)) by {
                    if i != idx {
                        assert(after[i] == before[i]);
                        assert(child_links(shape, i));
                        match shape[i].kind {
                            NodeKind::Internal { child1, child2 } => {
                                if child1 == idx || child2 == idx {
                                    assert(parent == Some(i as usize));
                                    assert(in_subtree(shape, rank, i, i));
                                } else {
                                    assert(after[child1 as int] == before[child1 as int]);
                                    assert(after[child2 as int] == before[child2 as int]);
                                    if !node_fits(before, i) {
                                        assert(in_subtree(shape, rank, i, idx as int));
                                        lemma_subtree_up(shape, rank, root, i, idx as int);
                                    }
                                }
                            },
                            NodeKind::Leaf { .. } => {},
                        }
                    }
                }
                match parent {
                    Some(p) => {
                        assert(rank[idx as int] < rank[p as int]);
                        assert(rank[p as int] <= top);
                    },
                    None => {
                        assert forall|i: int| 0 <= i < after.len() implies #[trigger] node_fits(after, i) by {
                            assert(node_fits(after, i) || in_subtree(shape, rank, i, idx as int));
                            if !node_fits(after, i) {
                                lemma_subtree_rank(shape, rank, i, idx as int);
                                assert(rank[i] <= top);
                            }
                        }
                    },
                }
            }
            current = self.nodes[idx].parent;
        }
    }
}

/// Shape: every internal node has two distinct children that name it as their parent; every
/// node but the root has a parent that holds it in a child slot; and a non-empty tree has one
/// more leaf than internal nodes.
pub proof fn lemma_shape<D>(t: &Tree<D>)
    requires
        t.wf(),
    ensures
        forall|i: int|
            0 <= i < t@.len() && (#[trigger] t@[i]).kind is Internal ==> {
                let c1 = t@[i].kind->child1 as int;
                let c2 = t@[i].kind->child2 as int;
                &&& 0 <= c1 < t@.len()
                &&& 0 <= c2 < t@.len()
                &&& c1 != c2
                &&& t@[c1].parent == Some(i as usize)
                &&& t@[c2].parent == Some(i as usize)
            },
        forall|i: int|
            0 <= i < t@.len() ==> match (#[trigger] t@[i]).parent {
                Some(p) => p < t@.len() && t@[p as int].kind is Internal && (t@[p as int].kind->child1
                    == i || t@[p as int].kind->child2 == i),
                None => t.spec_root() == Some(i as usize),
            },
        t@.len() == 0 <==> t.spec_root() is None,
        t@.len() > 0 ==> leaf_count(t@) == internal_count(t@) + 1,
{
    assert forall|i: int| 0 <= i < t@.len() && (#[trigger] t@[i]).kind is Internal implies {
        let c1 = t@[i].kind->child1 as int;
        let c2 = t@[i].kind->child2 as int;
        &&& 0 <= c1 < t@.len()
        &&& 0 <= c2 < t@.len()
        &&& c1 != c2
        &&& t@[c1].parent == Some(i as usize)
        &&& t@[c2].parent == Some(i as usize)
    } by {
        assert(child_links(t.nodes@, i));
    }
    assert forall|i: int| 0 <= i < t@.len() implies match (#[trigger] t@[i]).parent {
        Some(p) => p < t@.len() && t@[p as int].kind is Internal && (t@[p as int].kind->child1 == i
            || t@[p as int].kind->child2 == i),
        None => t.spec_root() == Some(i as usize),
    } by {
        assert(parent_link(t.nodes@, t.rank@, t.root_idx, i));
    }
}

/// Bounding: an internal node's volume is the join of its children's volumes.
pub proof fn lemma_bounding<D>(t: &Tree<D>)
    requires
        t.wf(),
    ensures
        forall|i: int|
            0 <= i < t@.len() && (#[trigger] t@[i]).kind is Internal ==> t@[i].volume == join_spec(
                t@[t@[i].kind->child1 as int].volume,
                t@[t@[i].kind->child2 as int].volume,
            ),
{
    assert forall|i: int| 0 <= i < t@.len() && (#[trigger] t@[i]).kind is Internal implies t@[i].volume
        == join_spec(t@[t@[i].kind->child1 as int].volume, t@[t@[i].kind->child2 as int].volume) by {
        assert(node_fits(t.nodes@, i));
    }
}

/// Containment: the root's volume contains the volume of every node, so of every leaf's
/// inserted volume.
pub proof fn lemma_root_contains_all<D>(t: &Tree<D>)
    requires
        t.wf(),
        t.spec_root() is Some,
    ensures
        forall|k: int|
            0 <= k < t@.len() ==> contains(t@[t.spec_root()->0 as int].volume, #[trigger] t@[k].volume),
{
    assert forall|k: int| 0 <= k < t@.len() implies contains(
        t@[t.spec_root()->0 as int].volume,
        #[trigger] t@[k].volume,
    ) by {
        lemma_root_reaches(t.nodes@, t.rank@, t.root_idx, k);
        lemma_subtree_contained(t.nodes@, t.rank@, t.root_idx, t.root_idx->0 as int, k);
    }
}

/// A segment that misses the root's volume reaches no leaf, so a ray cast along it is false.
pub proof fn lemma_ray_outside_root<D>(t: &Tree<D>, p1: Vec2, p2: Vec2)
    requires
        t.wf(),
        t.spec_root() is Some,
        !segment_hits(t@[t.spec_root()->0 as int].volume, p1, p2),
    ensures
        !t.ray_hits_leaf(p1, p2),
{
    lemma_root_contains_all(t);
    if t.ray_hits_leaf(p1, p2) {
        let k = choose|k: int|
            0 <= k < t@.len() && t@[k].kind is Leaf && #[trigger] segment_hits(t@[k].volume, p1, p2);
        lemma_hits_grow(t@[k].volume, t@[t.spec_root()->0 as int].volume, p1, p2);
    }
}

/// In a tree of one leaf, a segment that meets the leaf's volume makes a ray cast true.
pub proof fn lemma_ray_single_leaf<D>(t: &Tree<D>, p1: Vec2, p2: Vec2)
    requires
        t.wf(),
        t@.len() == 1,
        segment_hits(t@[0].volume, p1, p2),
    ensures
        t@[0].kind is Leaf,
        t.ray_hits_leaf(p1, p2),
{
    let nodes = t.nodes@;
    assert(nodes.drop_last() =~= Seq::<Node<D>>::empty());
    assert(leaf_count(nodes.drop_last()) == 0);
    assert(internal_count(nodes.drop_last()) == 0);
    assert(nodes.last() == nodes[0]);
}

/// The inherited cost is zero at the root, and below it the parent's inherited cost plus the
/// growth of the parent's cost when it is refitted to include `v`.
pub proof fn lemma_inherited_cost_steps<D>(t: &Tree<D>, v: AABB, k: int)
    requires
        t.wf(),
        0 <= k < t@.len(),
    ensures
        t@[k].parent is None ==> t.inherited_cost(v, k) == 0,
        t@[k].parent is Some ==> t.inherited_cost(v, k) == t.inherited_cost(
            v,
            t@[k].parent->0 as int,
        ) + delta_spec(v, t@[t@[k].parent->0 as int].volume),
{
    assert(parent_link(t.nodes@, t.rank@, t.root_idx, k));
    let r = t.root_idx->0 as int;
    if t@[k].parent is Some {
        assert(t.rank@[t@[k].parent->0 as int] <= t.rank@[r]);
    }
}

/// Sum of the costs of the internal nodes.
pub open spec fn internal_area_sum<D>(nodes: Seq<Node<D>>) -> int
    decreases nodes.len(),
{
    if nodes.len() == 0 {
        0
    } else {
        internal_area_sum(nodes.drop_last()) + if nodes.last().kind is Internal {
            area(nodes.last().volume)
        } else {
            0
        }
    }
}

/// Total cost of a tree: the summed cost of its internal nodes. Trees with the same leaves
/// differ only there.
pub fn tree_cost<D>(tree: &Tree<D>) -> (r: i128)
    requires
        tree.wf(),
    ensures
        r == internal_area_sum(tree@),
{
    let mut cost: i128 = 0;
    let mut i: usize = 0;
    while i < tree.nodes.len()
        invariant
            tree.wf(),
            i <= tree@.len(),
            cost == internal_area_sum(tree@.subrange(0, i as int)),
            0 <= cost <= i * COST_BOUND,
        decreases tree@.len() - i,
    {
        let node = &tree.nodes[i];
        proof {
            assert(tree@.subrange(0, i + 1).drop_last() =~= tree@.subrange(0, i as int));
            assert(tree@.subrange(0, i + 1).last() == tree@[i as int]);
            assert(tree.nodes@[i as int].volume.valid());
            lemma_area_bound(node.volume);
        }
        if let NodeKind::Internal { .. } = node.kind {
            cost = cost + node.volume.surface_area() as i128;
        }
        i = i + 1;
    }
    proof {
        assert(tree@.subrange(0, i as int) =~= tree@);
    }
    cost
}

/// A node waiting in the sibling search.
#[derive(Clone, Copy)]
struct Candidate {
    /// lower bound on the cost of making this node, or any node under it, the sibling
    cost_estimate: i64,
    /// increased surface area caused by refitting all ancestors of this node to include the
    /// new volume
    cost_inherit: i64,
    /// index of this candidate
    idx: NodeIdx,
}

impl Candidate {
    fn new(cost_estimate: i64, cost_inherit: i64, idx: NodeIdx) -> (r: Self)
        ensures
            r.cost_estimate == cost_estimate,
            r.cost_inherit == cost_inherit,
            r.idx == idx,
    {
        Candidate { cost_estimate, cost_inherit, idx }
    }
}

/// `a` leaves the queue before `b`: lower estimate first, then lower inherited cost, then
/// higher index.
spec fn goes_before(a: Candidate, b: Candidate) -> bool {
    ||| a.cost_estimate < b.cost_estimate
    ||| a.cost_estimate == b.cost_estimate && a.cost_inherit < b.cost_inherit
    ||| a.cost_estimate == b.cost_estimate && a.cost_inherit == b.cost_inherit && a.idx > b.idx
}

/// Position of the candidate that leaves the queue first.
fn first_out(queue: &Vec<Candidate>) -> (i: usize)
    requires
        queue@.len() > 0,
    ensures
        i < queue@.len(),
        forall|j: int| 0 <= j < queue@.len() ==> !goes_before(#[trigger] queue@[j], queue@[i as int]),
{
    let mut best: usize = 0;
    let mut j: usize = 1;
    while j < queue.len()
        invariant
            1 <= j <= queue@.len(),
            best < j,
            forall|m: int| 0 <= m < j ==> !goes_before(#[trigger] queue@[m], queue@[best as int]),
        decreases queue@.len() - j,
    {
        let a = queue[j];
        let b = queue[best];
        if a.cost_estimate < b.cost_estimate || (a.cost_estimate == b.cost_estimate && (a.cost_inherit
            < b.cost_inherit || (a.cost_inherit == b.cost_inherit && a.idx > b.idx))) {
            best = j;
        }
        j = j + 1;
    }
    best
}

/// Bound on every cost that the sibling search holds: four times the coordinate range.
pub const COST_BOUND: i64 = 0x4_0000_0000;

/// Weight of a node of rank `r` in the search queue: greater than that of its two children.
spec fn rank_weight(r: nat) -> nat
    decreases r,
{
    if r == 0 {
        1
    } else {
        3 * rank_weight((r - 1) as nat)
    }
}

proof fn lemma_rank_weight_grows(a: nat, b: nat)
    requires
        a <= b,
    ensures
        1 <= rank_weight(a) <= rank_weight(b),
    decreases b,
{
    if b > 0 && a < b {
        lemma_rank_weight_grows(a, (b - 1) as nat);
    }
    if b == 0 || a == b {
        lemma_rank_weight_grows_base(a);
    }
}

proof fn lemma_rank_weight_grows_base(a: nat)
    ensures
        1 <= rank_weight(a),
    decreases a,
{
    if a > 0 {
        lemma_rank_weight_grows_base((a - 1) as nat);
    }
}

spec fn queue_weight(rank: Seq<nat>, q: Seq<Candidate>) -> int
    decreases q.len(),
{
    if q.len() == 0 {
        0
    } else {
        queue_weight(rank, q.drop_last()) + rank_weight(rank[q.last().idx as int])
    }
}

proof fn lemma_queue_weight_remove(rank: Seq<nat>, q: Seq<Candidate>, i: int)
    requires
        0 <= i < q.len(),
    ensures
        queue_weight(rank, q.remove(i)) + rank_weight(rank[q[i].idx as int]) == queue_weight(rank, q),
    decreases q.len(),
{
    if i == q.len() - 1 {
        assert(q.remove(i) =~= q.drop_last());
    } else {
        lemma_queue_weight_remove(rank, q.drop_last(), i);
        assert(q.remove(i).drop_last() =~= q.drop_last().remove(i));
        assert(q.remove(i).last() == q.last());
    }
}

proof fn lemma_queue_weight_nonneg(rank: Seq<nat>, q: Seq<Candidate>)
    ensures
        queue_weight(rank, q) >= 0,
    decreases q.len(),
{
    if q.len() > 0 {
        lemma_queue_weight_nonneg(rank, q.drop_last());
    }
}

/// Node `k` lies under one of the stacked nodes.
spec fn stacked<D>(nodes: Seq<Node<D>>, rank: Seq<nat>, stack: Seq<NodeIdx>, k: int) -> bool {
    exists|j: int| 0 <= j < stack.len() && #[trigger] in_subtree(nodes, rank, stack[j] as int, k)
}

spec fn stack_weight(rank: Seq<nat>, s: Seq<NodeIdx>) -> int
    decreases s.len(),
{
    if s.len() == 0 {
        0
    } else {
        stack_weight(rank, s.drop_last()) + rank_weight(rank[s.last() as int])
    }
}

proof fn lemma_stack_weight_nonneg(rank: Seq<nat>, s: Seq<NodeIdx>)
    ensures
        stack_weight(rank, s) >= 0,
    decreases s.len(),
{
    if s.len() > 0 {
        lemma_stack_weight_nonneg(rank, s.drop_last());
    }
}

/// Increased surface area due to refitting node `idx` to include `volume`.
pub fn delta_cost<D>(tree: &Tree<D>, volume: &AABB, idx: NodeIdx) -> (r: i64)
    requires
        tree.wf(),
        idx < tree@.len(),
        volume.valid(),
    ensures
        r == delta_spec(*volume, tree@[idx as int].volume),
        0 <= r <= COST_BOUND,
{
    let node = &tree.nodes[idx];
    proof {
        assert(node.volume.valid());
        lemma_join_bounds(node.volume, *volume);
        lemma_area_bound(join_spec(node.volume, *volume));
        lemma_area_bound(node.volume);
    }
    let old_cost = node.volume.surface_area();
    let new_cost = AABB::join(&node.volume, volume).surface_area();
    new_cost - old_cost
}

/// The queued candidate stands for node `idx` with its exact inherited cost.
spec fn candidate_ok<D>(tree: &Tree<D>, v: AABB, c: Candidate) -> bool {
    &&& c.idx < tree@.len()
    &&& c.cost_inherit == tree.inherited_cost(v, c.idx as int)
    &&& 0 <= c.cost_inherit <= COST_BOUND
    &&& 0 <= c.cost_estimate <= COST_BOUND
}

/// Node `k` lies under one of the queued candidates.
spec fn covered<D>(tree: &Tree<D>, q: Seq<Candidate>, k: int) -> bool {
    exists|j: int| 0 <= j < q.len() && #[trigger] tree.in_subtree(q[j].idx as int, k)
}

/// Branch-and-bound search, from the root down, for the node that pairs at least cost with a
/// new leaf of volume `volume` under a new parent.
pub fn find_best_sibling<D>(tree: &Tree<D>, root_idx: NodeIdx, volume: &AABB) -> (r: NodeIdx)
    requires
        tree.wf(),
        tree.spec_root() == Some(root_idx),
        volume.valid(),
    ensures
        tree.is_best_sibling(*volume, r as int),
{
    let ghost nodes = tree.nodes@;
    let ghost rank = tree.rank@;
    let ghost root = tree.root_idx;
    let ghost top = rank[root_idx as int] as int;
    let ghost v = *volume;
    proof {
        assert(nodes[root_idx as int].volume.valid());
        lemma_join_bounds(v, nodes[root_idx as int].volume);
        lemma_area_bound(join_spec(v, nodes[root_idx as int].volume));
        lemma_area_bound(v);
    }
    let volume_area = volume.surface_area();
    // Cost(Root) = Area(V join Root)
    let root_cost = AABB::join(volume, &tree.nodes[root_idx].volume).surface_area();
    let mut priority_queue: Vec<Candidate> = Vec::new();
    priority_queue.push(Candidate::new(root_cost, 0, root_idx));
    // branch and bound
    let mut best_idx = root_idx;
    let mut best_cost = root_cost;
    proof {
        assert(tree.inherited_cost(v, root_idx as int) == 0);
        assert forall|k: int| 0 <= k < nodes.len() implies best_cost <= tree.sibling_cost(v, k)
            || covered(tree, priority_queue@, k) by {
            lemma_root_reaches(nodes, rank, root, k);
            assert(tree.in_subtree(priority_queue@[0].idx as int, k));
        }
    }
    while priority_queue.len() > 0
        invariant
            tree.wf(),
            tree.nodes@ == nodes,
            tree.rank@ == rank,
            tree.root_idx == root,
            root == Some(root_idx),
            top == rank[root_idx as int],
            v == *volume,
            v.valid(),
            volume_area == area(v),
            0 <= volume_area <= COST_BOUND,
            best_idx < nodes.len(),
            best_cost == tree.sibling_cost(v, best_idx as int),
            0 <= best_cost <= COST_BOUND,
            forall|j: int|
                0 <= j < priority_queue@.len() ==> candidate_ok(tree, v, #[trigger] priority_queue@[j]),
            forall|k: int|
                0 <= k < nodes.len() ==> best_cost <= #[trigger] tree.sibling_cost(v, k) || covered(
                    tree,
                    priority_queue@,
                    k,
                ),
        decreases queue_weight(rank, priority_queue@),
    {
        let ghost q0 = priority_queue@;
        let ghost best0 = best_cost;
        let i = first_out(&priority_queue);
        let current = priority_queue.remove(i);
        let ghost q1 = priority_queue@;
        proof {
            assert(candidate_ok(tree, v, q0[i as int]));
            lemma_queue_weight_remove(rank, q0, i as int);
        }
        // current volume C
        let current_node = &tree.nodes[current.idx];
        proof {
            assert(current_node.volume.valid());
            lemma_join_bounds(v, current_node.volume);
            lemma_area_bound(join_spec(v, current_node.volume));
        }
        // direct cost is the surface area of the new internal
        // node that will be created to hold new leaf and sibling
        //   DirectCost(C) = Area(C join V)
        let direct_cost = AABB::join(volume, &current_node.volume).surface_area();
        // increased surface area caused by refitting C to include V
        //   DeltaCost(C) = Area(C join V) - Area(C)
        let delta = delta_cost(tree, volume, current.idx);
        // inherited cost is the increased surface area
        // caused by refitting volumes of all ancestors
        let inherited_cost = current.cost_inherit;
        // TotalCost(C) = DirectCost(C) + InheritedCost(C)
        let total_cost = direct_cost + inherited_cost;
        if total_cost < best_cost {
            best_idx = current.idx;
            best_cost = total_cost;
        }
        let ghost pushed = false;
        proof {
            assert(child_links(nodes, current.idx as int));
        }
        // consider pushing this node's children onto the queue
        if let NodeKind::Internal { child1, child2 } = current_node.kind {
            // For any descendant D of C, we have the following lower bound:
            //   Cost(D)
            //     = DirectCost(D) + InheritedCost(D)                   (by definition)
            //    >= Area(V)       + InheritedCost(D)                   (the join contains V)
            //    >= Area(V)       + InheritedCost(C) + DeltaCost(C)    (deltas are not negative)
            let cost_passed_to_children = inherited_cost + delta;
            let child_lower_bound = volume_area + cost_passed_to_children;
            if child_lower_bound < best_cost {
                proof {
                    assert(parent_link(nodes, rank, root, child1 as int));
                    assert(parent_link(nodes, rank, root, child2 as int));
                    assert(rank[current.idx as int] <= top);
                    assert(tree.inherited_cost(v, child1 as int) == cost_passed_to_children);
                    assert(tree.inherited_cost(v, child2 as int) == cost_passed_to_children);
                }
                priority_queue.push(Candidate::new(child_lower_bound, cost_passed_to_children, child1));
                priority_queue.push(Candidate::new(child_lower_bound, cost_passed_to_children, child2));
                proof {
                    pushed = true;
                    let q2 = priority_queue@;
                    assert(q2 =~= q1.push(q2[q1.len() as int]).push(q2[q1.len() + 1int]));
                    assert(q1.push(q2[q1.len() as int]).drop_last() =~= q1);
                    assert(q2.drop_last() =~= q1.push(q2[q1.len() as int]));
                    lemma_rank_weight_grows(rank[child1 as int], (rank[current.idx as int] - 1) as nat);
                    lemma_rank_weight_grows(rank[child2 as int], (rank[current.idx as int] - 1) as nat);
                    let m = q1.push(q2[q1.len() as int]);
                    assert(q2[q1.len() as int].idx == child1);
                    assert(q2.last().idx == child2);
                    assert(queue_weight(rank, m) == queue_weight(rank, q1) + rank_weight(
                        rank[child1 as int],
                    ));
                    assert(queue_weight(rank, q2) == queue_weight(rank, q1) + rank_weight(
                        rank[child1 as int],
                    ) + rank_weight(rank[child2 as int]));
                    assert(rank_weight(rank[current.idx as int]) == 3 * rank_weight(
                        (rank[current.idx as int] - 1) as nat,
                    ));
                }
            }
        }
        proof {
            let q2 = priority_queue@;
            let c = current.idx as int;
            assert(q2.len() >= q1.len());
            assert forall|j: int| 0 <= j < q1.len() implies q2[j] == q1[j] by {}
            assert forall|j: int| 0 <= j < q2.len() implies candidate_ok(tree, v, #[trigger] q2[j]) by {
                if j < q1.len() {
                    if j < i {
                        assert(q1[j] == q0[j]);
                    } else {
                        assert(q1[j] == q0[j + 1]);
                    }
                }
            }
            assert forall|k: int| 0 <= k < nodes.len() implies best_cost <= #[trigger] tree.sibling_cost(
                v,
                k,
            ) || covered(tree, q2, k) by {
                if !(best0 <= tree.sibling_cost(v, k)) {
                    assert(covered(tree, q0, k));
                    let j = choose|j: int| 0 <= j < q0.len() && #[trigger] tree.in_subtree(q0[j].idx as int, k);
                    if j < i {
                        assert(q2[j] == q0[j]);
                    } else if j > i {
                        assert(q2[j - 1] == q0[j]);
                    } else if k != c {
                        assert(tree.in_subtree(c, k));
                        lemma_inherit_below(nodes, rank, root, v, c, k);
                        lemma_subtree_rank(nodes, rank, c, k);
                        assert(nodes[k].volume.valid());
                        lemma_join_bounds(v, nodes[k].volume);
                        match nodes[c].kind {
                            NodeKind::Internal { child1, child2 } => {
                                if pushed {
                                    if child1 < nodes.len() && rank[child1 as int] < rank[c]
                                        && in_subtree(nodes, rank, child1 as int, k) {
                                        assert(tree.in_subtree(q2[q1.len() as int].idx as int, k));
                                    } else {
                                        assert(tree.in_subtree(q2[q1.len() + 1int].idx as int, k));
                                    }
                                }
                            },
                            NodeKind::Leaf { .. } => {},
                        }
                    }
                }
            }
            lemma_queue_weight_nonneg(rank, q1);
            lemma_rank_weight_grows_base(rank[c]);
        }
    }
    best_idx
}

} // verus!
