use engine::geometry::{Aabb, Vec3i};
use engine::tree::{DynamicAabbTree, NodeId};

fn cube(cx: i64, cy: i64, cz: i64, half: i64) -> Aabb {
    Aabb::new(
        Vec3i::new(cx - half, cy - half, cz - half),
        Vec3i::new(cx + half, cy + half, cz + half),
    )
}

fn build(n: u64) -> (DynamicAabbTree, Vec<NodeId>) {
    let mut tree = DynamicAabbTree::default();
    let mut ids = Vec::new();
    for i in 0..n {
        let x = i as i64 * 2000;
        ids.push(tree.allocate_leaf(10_000 + i, cube(x, 0, 0, 500)));
    }
    (tree, ids)
}

fn query(tree: &DynamicAabbTree, r: &Aabb) -> Vec<u64> {
    let mut out = Vec::new();
    tree.query(r, &mut out);
    out.sort();
    out
}

#[test]
fn empty_tree_reports_nothing() {
    let tree = DynamicAabbTree::new();
    assert_eq!(tree.len(), 0);
    assert!(query(&tree, &cube(0, 0, 0, 100_000)).is_empty());
}

#[test]
fn query_finds_overlapping_leaves() {
    let (tree, ids) = build(64);
    assert_eq!(tree.len(), 64);
    assert_eq!(ids.len(), 64);
    assert_eq!(query(&tree, &cube(10_000, 0, 0, 100)), vec![10_005]);
    assert_eq!(query(&tree, &cube(11_000, 0, 0, 600)), vec![10_005, 10_006]);
    assert!(query(&tree, &cube(0, 50_000, 0, 100)).is_empty());
    assert_eq!(query(&tree, &cube(63_000, 0, 0, 64_000)).len(), 64);
}

#[test]
fn fattened_box_gives_false_positive_only_within_margin() {
    let (tree, _) = build(4);
    assert_eq!(query(&tree, &cube(2_550, 0, 0, 0)), vec![10_001]);
    assert!(query(&tree, &cube(2_650, 0, 0, 0)).is_empty());
}

#[test]
fn small_moves_stay_in_place() {
    let (mut tree, ids) = build(64);
    assert!(!tree.update(ids[3], cube(6_050, 0, 0, 500)));
    assert!(!tree.update(ids[3], cube(5_950, 80, -90, 500)));
    assert_eq!(query(&tree, &cube(5_950, 80, -90, 10)), vec![10_003]);
}

#[test]
fn large_move_reinserts_leaf() {
    let (mut tree, ids) = build(64);
    assert!(tree.update(ids[0], cube(200_000, 0, 0, 500)));
    assert_eq!(query(&tree, &cube(200_000, 0, 0, 5_000)), vec![10_000]);
    assert!(query(&tree, &cube(0, 0, 0, 100)).is_empty());
    assert_eq!(tree.len(), 64);
    for iter in 0..100i64 {
        let shift = 200_000 + iter;
        tree.update(ids[0], cube(shift, 0, 0, 500));
        assert_eq!(query(&tree, &cube(shift, 0, 0, 5_000)), vec![10_000]);
    }
}

#[test]
fn remove_forgets_leaf_and_reuses_slot() {
    let (mut tree, ids) = build(8);
    tree.remove(ids[2]);
    assert_eq!(tree.len(), 7);
    assert!(query(&tree, &cube(4_000, 0, 0, 100)).is_empty());
    let again = tree.allocate_leaf(77, cube(4_000, 0, 0, 500));
    assert_eq!(again, ids[2]);
    assert_eq!(query(&tree, &cube(4_000, 0, 0, 100)), vec![77]);
}

#[test]
fn stale_ids_are_ignored() {
    let (mut tree, ids) = build(3);
    tree.remove(ids[1]);
    tree.remove(ids[1]);
    assert_eq!(tree.len(), 2);
    assert!(!tree.update(ids[1], cube(0, 0, 0, 1)));
    assert!(!tree.update(NodeId(1_000), cube(0, 0, 0, 1)));
    tree.remove(NodeId(1_000));
    assert_eq!(tree.len(), 2);
}

#[test]
fn removing_every_leaf_empties_tree() {
    let (mut tree, ids) = build(16);
    for id in ids.iter() {
        tree.remove(*id);
    }
    assert_eq!(tree.len(), 0);
    assert!(query(&tree, &cube(0, 0, 0, 1_000_000)).is_empty());
    let id = tree.allocate_leaf(5, cube(0, 0, 0, 1));
    assert_eq!(query(&tree, &cube(0, 0, 0, 1)), vec![5]);
    assert!(id.0 < 16);
}

#[test]
fn candidate_pairs_skip_self_and_cover_overlaps() {
    let (tree, _) = build(8);
    let moving = vec![(10_002u64, cube(4_000, 0, 0, 1_500)), (10_007u64, cube(14_000, 0, 0, 1_500))];
    let mut scratch = Vec::new();
    let mut pairs = Vec::new();
    tree.candidate_pairs(&moving, &mut scratch, &mut pairs);
    pairs.sort();
    assert_eq!(pairs, vec![(10_002, 10_001), (10_002, 10_003), (10_007, 10_006)]);
}

#[test]
fn candidate_pairs_of_nothing_moving_is_empty() {
    let (tree, _) = build(8);
    let mut scratch = vec![1, 2, 3];
    let mut pairs = vec![(5u64, 6u64)];
    tree.candidate_pairs(&Vec::new(), &mut scratch, &mut pairs);
    assert_eq!(pairs, vec![(5, 6)]);
}
