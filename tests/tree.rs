use wasm_physics::aabb::{Vec2, AABB};
use wasm_physics::tree::{delta_cost, find_best_sibling, tree_cost, NodeIdx, NodeKind, Tree};

fn bx(lx: i32, ly: i32, ux: i32, uy: i32) -> AABB {
    AABB { lower_bound: Vec2::new(lx, ly), upper_bound: Vec2::new(ux, uy) }
}

fn contains(outer: &AABB, inner: &AABB) -> bool {
    outer.lower_bound.x <= inner.lower_bound.x
        && outer.lower_bound.y <= inner.lower_bound.y
        && inner.upper_bound.x <= outer.upper_bound.x
        && inner.upper_bound.y <= outer.upper_bound.y
}

fn children<D>(t: &Tree<D>, i: NodeIdx) -> Option<(NodeIdx, NodeIdx)> {
    match t.node(i).kind {
        NodeKind::Internal { child1, child2 } => Some((child1, child2)),
        NodeKind::Leaf { .. } => None,
    }
}

/// Checks the shape and bounding invariants node by node.
fn check_invariants<D>(t: &Tree<D>) {
    let mut leaves = 0usize;
    let mut internals = 0usize;
    for i in 0..t.len() {
        match children(t, i) {
            Some((c1, c2)) => {
                internals += 1;
                assert_ne!(c1, c2);
                assert_eq!(t.node(c1).parent, Some(i));
                assert_eq!(t.node(c2).parent, Some(i));
                assert_eq!(t.node(i).volume, AABB::join(&t.node(c1).volume, &t.node(c2).volume));
            }
            None => leaves += 1,
        }
        match t.node(i).parent {
            Some(p) => {
                let (c1, c2) = children(t, p).expect("a parent is internal");
                assert!(c1 == i || c2 == i);
            }
            None => assert_eq!(t.root(), Some(i)),
        }
    }
    if t.len() > 0 {
        assert_eq!(leaves, internals + 1);
        let root = t.node(t.root().unwrap()).volume;
        for i in 0..t.len() {
            assert!(contains(&root, &t.node(i).volume));
        }
    } else {
        assert_eq!(t.root(), None);
    }
}

/// Cost of pairing node `k` with a new leaf of volume `v`, computed by walking up to the root.
fn brute_cost<D>(t: &Tree<D>, v: &AABB, k: NodeIdx) -> i64 {
    let mut cost = AABB::join(v, &t.node(k).volume).surface_area();
    let mut cur = t.node(k).parent;
    while let Some(p) = cur {
        let vol = t.node(p).volume;
        cost += AABB::join(&vol, v).surface_area() - vol.surface_area();
        cur = t.node(p).parent;
    }
    cost
}

fn brute_best_cost<D>(t: &Tree<D>, v: &AABB) -> i64 {
    (0..t.len()).map(|k| brute_cost(t, v, k)).min().unwrap()
}

#[test]
fn empty_tree_has_no_root() {
    let t: Tree<()> = Tree::new();
    assert_eq!(t.len(), 0);
    assert_eq!(t.root(), None);
    check_invariants(&t);
}

#[test]
fn single_leaf_becomes_root() {
    let mut t = Tree::new();
    let idx = t.insert_leaf(bx(0, 0, 1, 1), ());
    assert_eq!(idx, 0);
    assert_eq!(t.len(), 1);
    assert_eq!(t.root(), Some(idx));
    assert_eq!(t.node(idx).parent, None);
    assert!(matches!(t.node(idx).kind, NodeKind::Leaf { .. }));
    assert_eq!(t.node(idx).volume, bx(0, 0, 1, 1));
    check_invariants(&t);
}

#[test]
fn two_leaves_share_internal_root() {
    let mut t = Tree::new();
    let a = t.insert_leaf(bx(0, 0, 1, 1), 'a');
    let b = t.insert_leaf(bx(5, 5, 6, 6), 'b');
    assert_eq!(t.len(), 3);
    let root = t.root().unwrap();
    assert_eq!(root, 2);
    assert_eq!(t.node(root).volume, bx(0, 0, 6, 6));
    assert_eq!(children(&t, root), Some((a, b)));
    assert_eq!(t.node(a).parent, Some(root));
    assert_eq!(t.node(b).parent, Some(root));
    assert_eq!(t.node(root).parent, None);
    check_invariants(&t);
}

#[test]
fn third_leaf_pairs_with_nearby_leaf() {
    let mut t = Tree::new();
    let a = t.insert_leaf(bx(0, 0, 1, 1), 1u32);
    let b = t.insert_leaf(bx(10, 10, 11, 11), 2u32);
    let root = t.root().unwrap();
    let c = t.insert_leaf(bx(1, 1, 2, 2), 3u32);
    assert_eq!(c, 3);
    let p = t.node(c).parent.unwrap();
    assert_eq!(p, 4);
    assert_eq!(children(&t, p), Some((a, c)));
    assert_eq!(t.node(a).parent, Some(p));
    assert_eq!(t.node(p).parent, Some(root));
    assert_eq!(children(&t, root), Some((p, b)));
    assert_eq!(t.root(), Some(root));
    assert_eq!(t.node(p).volume, bx(0, 0, 2, 2));
    assert_eq!(t.node(root).volume, bx(0, 0, 11, 11));
    check_invariants(&t);
}

#[test]
fn leaf_outside_root_volume_grows_root() {
    let mut t = Tree::new();
    t.insert_leaf(bx(0, 0, 1, 1), ());
    t.insert_leaf(bx(2, 0, 3, 1), ());
    t.insert_leaf(bx(-20, 30, -19, 31), ());
    let root = t.root().unwrap();
    assert_eq!(t.node(root).volume, bx(-20, 0, 3, 31));
    check_invariants(&t);
}

#[test]
fn far_leaf_pairs_with_root() {
    let mut t = Tree::new();
    t.insert_leaf(bx(0, 0, 1, 1), ());
    t.insert_leaf(bx(1, 0, 2, 1), ());
    let old_root = t.root().unwrap();
    let far = t.insert_leaf(bx(1000, 1000, 1001, 1001), ());
    let new_root = t.root().unwrap();
    assert_ne!(new_root, old_root);
    assert_eq!(children(&t, new_root), Some((old_root, far)));
    assert_eq!(t.node(old_root).parent, Some(new_root));
    check_invariants(&t);
}

#[test]
fn payload_is_kept_in_leaf() {
    let mut t = Tree::new();
    let a = t.insert_leaf(bx(0, 0, 1, 1), String::from("first"));
    let b = t.insert_leaf(bx(4, 4, 5, 5), String::from("second"));
    match &t.node(a).kind {
        NodeKind::Leaf { data } => assert_eq!(data, "first"),
        NodeKind::Internal { .. } => panic!("leaf expected"),
    }
    match &t.node(b).kind {
        NodeKind::Leaf { data } => assert_eq!(data, "second"),
        NodeKind::Internal { .. } => panic!("leaf expected"),
    }
}

#[test]
fn invariants_hold_after_many_insertions() {
    let mut t = Tree::new();
    let mut seed: u32 = 12345;
    let mut volumes = Vec::new();
    for n in 0..60u32 {
        seed = seed.wrapping_mul(1103515245).wrapping_add(12345);
        let x = ((seed >> 8) % 200) as i32 - 100;
        seed = seed.wrapping_mul(1103515245).wrapping_add(12345);
        let y = ((seed >> 8) % 200) as i32 - 100;
        let w = (n % 7) as i32;
        let h = (n % 5) as i32;
        let v = bx(x, y, x + w, y + h);
        let idx = t.insert_leaf(v, n);
        volumes.push((idx, v));
        check_invariants(&t);
    }
    assert_eq!(t.len(), 119);
    for (idx, v) in volumes {
        assert_eq!(t.node(idx).volume, v);
        assert!(matches!(t.node(idx).kind, NodeKind::Leaf { .. }));
    }
}

#[test]
fn best_sibling_matches_exhaustive_search() {
    let shapes = [
        bx(0, 0, 1, 1),
        bx(5, 5, 6, 6),
        bx(1, 1, 2, 2),
        bx(-3, 4, -1, 9),
        bx(2, -6, 3, -5),
        bx(0, 0, 6, 6),
    ];
    let probes = [
        bx(0, 0, 1, 1),
        bx(4, 4, 7, 7),
        bx(-10, -10, -9, -9),
        bx(1, 0, 2, 1),
        bx(0, 0, 6, 6),
        bx(3, 3, 3, 3),
    ];
    // trees of one, three and five nodes
    for leaves in 1..=3 {
        for start in 0..shapes.len() {
            let mut t = Tree::new();
            for j in 0..leaves {
                t.insert_leaf(shapes[(start + j) % shapes.len()], ());
            }
            assert!(t.len() <= 5);
            let root = t.root().unwrap();
            for v in probes.iter() {
                let best = find_best_sibling(&t, root, v);
                assert_eq!(brute_cost(&t, v, best), brute_best_cost(&t, v));
            }
        }
    }
}

#[test]
fn best_sibling_is_root_for_single_leaf() {
    let mut t = Tree::new();
    let a = t.insert_leaf(bx(0, 0, 1, 1), ());
    assert_eq!(find_best_sibling(&t, a, &bx(7, 7, 8, 8)), a);
}

#[test]
fn delta_cost_is_growth_of_node_cost() {
    let mut t = Tree::new();
    let a = t.insert_leaf(bx(0, 0, 2, 2), ());
    assert_eq!(delta_cost(&t, &bx(3, 0, 4, 1), a), 4);
    assert_eq!(delta_cost(&t, &bx(1, 1, 2, 2), a), 0);
}

#[test]
fn tree_cost_sums_internal_nodes() {
    let mut t = Tree::new();
    assert_eq!(tree_cost(&t), 0);
    t.insert_leaf(bx(0, 0, 1, 1), ());
    assert_eq!(tree_cost(&t), 0);
    t.insert_leaf(bx(5, 5, 6, 6), ());
    assert_eq!(tree_cost(&t), 24);
    t.insert_leaf(bx(1, 1, 2, 2), ());
    // root [(0,0),(6,6)] and new parent [(0,0),(2,2)]
    assert_eq!(tree_cost(&t), 24 + 8);
}

#[test]
fn ray_cast_hits_single_leaf() {
    // a unit box and a horizontal segment through its middle, at double scale
    let mut t = Tree::new();
    t.insert_leaf(bx(0, 0, 2, 2), ());
    assert!(t.ray_cast(Vec2::new(-2, 1), Vec2::new(4, 1)));
}

#[test]
fn ray_cast_misses_single_leaf() {
    let mut t = Tree::new();
    t.insert_leaf(bx(0, 0, 2, 2), ());
    assert!(!t.ray_cast(Vec2::new(20, 20), Vec2::new(40, 40)));
}

#[test]
fn ray_cast_on_empty_tree_is_false() {
    let t: Tree<()> = Tree::new();
    assert!(!t.ray_cast(Vec2::new(-1, 0), Vec2::new(2, 0)));
}

#[test]
fn ray_cast_outside_root_volume_is_false() {
    let mut t = Tree::new();
    t.insert_leaf(bx(0, 0, 1, 1), ());
    t.insert_leaf(bx(5, 5, 6, 6), ());
    t.insert_leaf(bx(1, 1, 2, 2), ());
    assert!(!t.ray_cast(Vec2::new(-5, 7), Vec2::new(-1, 7)));
    assert!(!t.ray_cast(Vec2::new(0, 7), Vec2::new(7, 14)));
}

#[test]
fn ray_cast_through_gap_between_leaves_is_false() {
    let mut t = Tree::new();
    t.insert_leaf(bx(0, 0, 1, 1), ());
    t.insert_leaf(bx(5, 5, 6, 6), ());
    // inside the root's volume but between the two leaves
    assert!(!t.ray_cast(Vec2::new(0, 3), Vec2::new(3, 6)));
    assert!(t.ray_cast(Vec2::new(0, 3), Vec2::new(6, 5)));
}

#[test]
fn ray_cast_reaches_deep_leaf() {
    let mut t = Tree::new();
    for i in 0..10 {
        t.insert_leaf(bx(10 * i, 0, 10 * i + 1, 1), ());
    }
    assert!(t.ray_cast(Vec2::new(96, -5), Vec2::new(86, 5)));
    assert!(!t.ray_cast(Vec2::new(95, -5), Vec2::new(95, 5)));
}

#[test]
fn insertions_at_coordinate_extremes() {
    let mut t = Tree::new();
    t.insert_leaf(bx(i32::MIN, i32::MIN, i32::MIN + 1, i32::MIN + 1), ());
    t.insert_leaf(bx(i32::MAX - 1, i32::MAX - 1, i32::MAX, i32::MAX), ());
    t.insert_leaf(bx(i32::MIN, i32::MAX - 1, i32::MIN + 1, i32::MAX), ());
    t.insert_leaf(bx(i32::MAX - 1, i32::MIN, i32::MAX, i32::MIN + 1), ());
    t.insert_leaf(bx(i32::MIN, i32::MIN, i32::MAX, i32::MAX), ());
    check_invariants(&t);
    let root = t.root().unwrap();
    assert_eq!(t.node(root).volume, bx(i32::MIN, i32::MIN, i32::MAX, i32::MAX));
    assert!(t.ray_cast(Vec2::new(i32::MAX, i32::MIN), Vec2::new(i32::MAX, i32::MIN)));
    let v = bx(0, 0, 1, 1);
    let best = find_best_sibling(&t, root, &v);
    assert_eq!(brute_cost(&t, &v, best), brute_best_cost(&t, &v));
}
