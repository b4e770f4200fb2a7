use engine::epa::{epa_in, EpaConfig, EpaResult, EpaScratch};
use engine::geometry::{Aabb, Vec3i};
use engine::gjk::{gjk_intersect, CollisionLayer, ConvexCollider, GjkResult};
use engine::tree::DynamicAabbTree;

fn make_aabb(center: Vec3i, half_extent: i64) -> Aabb {
    Aabb::new(
        Vec3i::new(center.x - half_extent, center.y - half_extent, center.z - half_extent),
        Vec3i::new(center.x + half_extent, center.y + half_extent, center.z + half_extent),
    )
}

#[test]
fn dynamic_aabb_tree_heap_test_test() {
    let mut tree = DynamicAabbTree::default();
    let mut node_ids = Vec::new();

    // Warm up: allocate and build internal structure once.
    for i in 0..64u64 {
        let x = i as i64 * 2000;
        let id = tree.allocate_leaf(10_000 + i, make_aabb(Vec3i::new(x, 0, 0), 500));
        node_ids.push(id);
    }

    // One update outside the fat box to force a remove and reinsert.
    assert!(tree.update(node_ids[0], make_aabb(Vec3i::new(200_000, 0, 0), 500)));

    // Steady state: updates and queries into a reused buffer.
    let mut found = Vec::new();
    for iter in 0..100i64 {
        let shift = 200_000 + iter * 1000;
        tree.update(node_ids[0], make_aabb(Vec3i::new(shift, 0, 0), 500));
        found.clear();
        tree.query(&make_aabb(Vec3i::new(shift, 0, 0), 5000), &mut found);
        assert_eq!(found, vec![10_000]);
    }
    assert_eq!(tree.len(), 64);
}

fn run_epa(
    a: &ConvexCollider,
    a_at: Vec3i,
    b: &ConvexCollider,
    b_at: Vec3i,
    scratch: &mut EpaScratch,
) -> EpaResult {
    let result = gjk_intersect(a, a_at, b, b_at);
    let simplex = match result {
        GjkResult::Intersection(hit) => hit.simplex,
        GjkResult::NoIntersection => panic!("Expected intersection."),
    };
    epa_in(a, a_at, b, b_at, &simplex, &EpaConfig::standard(), scratch).expect("EPA failed")
}

#[test]
fn epa_heap_test_test() {
    let a = ConvexCollider::cube(2000, CollisionLayer::Default);
    let b = ConvexCollider::cube(2000, CollisionLayer::Default);
    let a_at = Vec3i::zero();
    let b_at = Vec3i::new(1000, 0, 0);

    let mut scratch = EpaScratch::new();
    let result = run_epa(&a, a_at, &b, b_at, &mut scratch);
    assert!(result.penetration_depth > 0);

    for _ in 0..100 {
        let result = run_epa(&a, a_at, &b, b_at, &mut scratch);
        assert!(result.penetration_depth > 0);
    }
}
