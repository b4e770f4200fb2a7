use engine::contact::{make_box_contact, CollisionSystem};
use engine::geometry::{Aabb, Vec3i};
use engine::gjk::{gjk_intersect, CollisionLayer, ConvexCollider, GjkResult};

#[test]
fn overlapping_cubes_intersect() {
    let a = ConvexCollider::cube(2000, CollisionLayer::Default);
    let b = ConvexCollider::cube(2000, CollisionLayer::Default);
    let r = gjk_intersect(&a, Vec3i::zero(), &b, Vec3i::new(1000, 0, 0));
    assert!(matches!(r, GjkResult::Intersection(_)));
}

#[test]
fn overlapping_cubes_box_contact_has_depth_one_metre_along_x() {
    let a = Aabb::new(Vec3i::new(-1000, -1000, -1000), Vec3i::new(1000, 1000, 1000));
    let b = Aabb::new(Vec3i::new(0, -1000, -1000), Vec3i::new(2000, 1000, 1000));
    let c = make_box_contact(0, 1, &a, &b);
    assert_eq!(c.penetration, 1000);
    assert_eq!(c.normal, Vec3i::new(1000, 0, 0));
}

#[test]
fn separated_cubes_do_not_intersect() {
    let a = ConvexCollider::cube(2000, CollisionLayer::Default);
    let b = ConvexCollider::cube(2000, CollisionLayer::Default);
    let r = gjk_intersect(&a, Vec3i::zero(), &b, Vec3i::new(3000, 0, 0));
    assert_eq!(r, GjkResult::NoIntersection);
    let r = gjk_intersect(&a, Vec3i::new(0, 0, -5000), &b, Vec3i::new(0, 0, 5000));
    assert_eq!(r, GjkResult::NoIntersection);
}

#[test]
fn diagonal_overlap_intersects() {
    let a = ConvexCollider::cube(2000, CollisionLayer::Default);
    let b = ConvexCollider::cube(1000, CollisionLayer::Default);
    let r = gjk_intersect(&a, Vec3i::new(100, 200, 300), &b, Vec3i::new(900, 900, 900));
    assert!(matches!(r, GjkResult::Intersection(_)));
}

#[test]
fn point_inside_cube_intersects() {
    let a = ConvexCollider::cube(2000, CollisionLayer::Default);
    let p = ConvexCollider { points: vec![Vec3i::new(10, 20, 30)], layer: CollisionLayer::Default };
    let r = gjk_intersect(&a, Vec3i::zero(), &p, Vec3i::zero());
    assert!(matches!(r, GjkResult::Intersection(_)));
    let r = gjk_intersect(&a, Vec3i::zero(), &p, Vec3i::new(5000, 0, 0));
    assert_eq!(r, GjkResult::NoIntersection);
}

#[test]
fn repeated_queries_give_same_answer() {
    let a = ConvexCollider::cube(2000, CollisionLayer::Default);
    let b = ConvexCollider::cube(2000, CollisionLayer::Default);
    let first = gjk_intersect(&a, Vec3i::zero(), &b, Vec3i::new(1000, 0, 0));
    for _ in 0..100 {
        assert_eq!(gjk_intersect(&a, Vec3i::zero(), &b, Vec3i::new(1000, 0, 0)), first);
    }
}

#[test]
fn cube_has_eight_corners() {
    let c = ConvexCollider::cube(2001, CollisionLayer::Default);
    assert_eq!(c.points.len(), 8);
    assert!(c.points.iter().all(|p| p.x.abs() == 1000 && p.y.abs() == 1000 && p.z.abs() == 1000));
    assert_eq!(c.layer, CollisionLayer::Default);
}

use engine::epa::{epa, epa_in, EpaConfig, EpaError, EpaResult, EpaScratch};
use engine::gjk::Simplex;

fn run_epa(a: &ConvexCollider, oa: Vec3i, b: &ConvexCollider, ob: Vec3i) -> EpaResult {
    let simplex = match gjk_intersect(a, oa, b, ob) {
        GjkResult::Intersection(hit) => hit.simplex,
        GjkResult::NoIntersection => panic!("Expected intersection."),
    };
    epa(a, oa, b, ob, &simplex, &EpaConfig::standard()).expect("EPA failed")
}

#[test]
fn cubes_overlapping_by_one_metre_give_depth_one_metre_along_x() {
    let a = ConvexCollider::cube(2000, CollisionLayer::Default);
    let b = ConvexCollider::cube(2000, CollisionLayer::Default);
    let r = run_epa(&a, Vec3i::zero(), &b, Vec3i::new(1000, 0, 0));
    assert!(r.converged);
    assert_eq!(r.penetration_depth, 1000);
    assert_eq!(r.normal, Vec3i::new(1000, 0, 0));
}

#[test]
fn depth_follows_the_shallowest_axis() {
    let a = ConvexCollider::cube(2000, CollisionLayer::Default);
    let b = ConvexCollider::cube(2000, CollisionLayer::Default);
    let r = run_epa(&a, Vec3i::zero(), &b, Vec3i::new(0, -1700, 0));
    assert!(r.converged);
    assert_eq!(r.penetration_depth, 300);
    assert_eq!(r.normal, Vec3i::new(0, -1000, 0));
}

#[test]
fn repeated_epa_gives_same_result() {
    let a = ConvexCollider::cube(2000, CollisionLayer::Default);
    let b = ConvexCollider::cube(2000, CollisionLayer::Default);
    let first = run_epa(&a, Vec3i::zero(), &b, Vec3i::new(1000, 0, 0));
    for _ in 0..100 {
        let r = run_epa(&a, Vec3i::zero(), &b, Vec3i::new(1000, 0, 0));
        assert!(r.penetration_depth > 0);
        assert_eq!(r.penetration_depth, first.penetration_depth);
        assert_eq!(r.normal, first.normal);
    }
}

#[test]
fn flat_simplex_is_degenerate() {
    let a = ConvexCollider::cube(2000, CollisionLayer::Default);
    let b = ConvexCollider::cube(2000, CollisionLayer::Default);
    let flat = Simplex {
        a: Vec3i::new(1000, 0, 0),
        b: Vec3i::new(-1000, 0, 0),
        c: Vec3i::new(0, 1000, 0),
        d: Vec3i::new(0, -1000, 0),
    };
    let r = epa(&a, Vec3i::zero(), &b, Vec3i::zero(), &flat, &EpaConfig::standard());
    assert!(matches!(r, Err(EpaError::DegenerateSimplex)));
}

#[test]
fn convex_contact_of_overlapping_cubes() {
    let a = ConvexCollider::cube(2000, CollisionLayer::Default);
    let b = ConvexCollider::cube(2000, CollisionLayer::Default);
    let mut scratch = EpaScratch::new();
    let c = CollisionSystem::convex_contact(
        3,
        4,
        &a,
        Vec3i::zero(),
        &b,
        Vec3i::new(1000, 0, 0),
        &EpaConfig::standard(),
        &mut scratch,
    )
    .expect("Expected contact.");
    assert_eq!(c.entity_a, 3);
    assert_eq!(c.entity_b, 4);
    assert_eq!(c.normal, Vec3i::new(1000, 0, 0));
    assert_eq!(c.penetration, 1000);
    assert_eq!(c.contact_point.x, 0);
}

#[test]
fn convex_contact_of_separated_cubes_is_none() {
    let a = ConvexCollider::cube(2000, CollisionLayer::Default);
    let b = ConvexCollider::cube(2000, CollisionLayer::Default);
    let mut scratch = EpaScratch::new();
    let c = CollisionSystem::convex_contact(
        0,
        1,
        &a,
        Vec3i::zero(),
        &b,
        Vec3i::new(0, 2500, 0),
        &EpaConfig::standard(),
        &mut scratch,
    );
    assert!(c.is_none());
}

#[test]
fn reused_scratch_gives_same_result() {
    let a = ConvexCollider::cube(2000, CollisionLayer::Default);
    let b = ConvexCollider::cube(2000, CollisionLayer::Default);
    let simplex = match gjk_intersect(&a, Vec3i::zero(), &b, Vec3i::new(1000, 0, 0)) {
        GjkResult::Intersection(hit) => hit.simplex,
        GjkResult::NoIntersection => panic!("Expected intersection."),
    };
    let mut scratch = EpaScratch::new();
    for _ in 0..100 {
        let r = epa_in(&a, Vec3i::zero(), &b, Vec3i::new(1000, 0, 0), &simplex, &EpaConfig::standard(), &mut scratch)
            .expect("EPA failed");
        assert_eq!(r.penetration_depth, 1000);
        assert_eq!(r.normal, Vec3i::new(1000, 0, 0));
    }
}

use engine::gjk::{gjk_search, GjkOutcome};

#[test]
fn search_separates_distant_cubes() {
    let a = ConvexCollider::cube(2000, CollisionLayer::Default);
    let b = ConvexCollider::cube(2000, CollisionLayer::Default);
    match gjk_search(&a, Vec3i::zero(), &b, Vec3i::new(3000, 0, 0)) {
        GjkOutcome::Separated(d) => assert!(d.x > 0),
        other => panic!("Expected separation, got {:?}", other),
    }
}

#[test]
fn search_finds_overlapping_cubes() {
    let a = ConvexCollider::cube(2000, CollisionLayer::Default);
    let b = ConvexCollider::cube(2000, CollisionLayer::Default);
    assert!(matches!(
        gjk_search(&a, Vec3i::zero(), &b, Vec3i::new(1000, 0, 0)),
        GjkOutcome::Intersection(_)
    ));
}
