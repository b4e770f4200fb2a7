use engine::contact::CollisionSystem;
use engine::geometry::{Aabb, Vec3i};
use engine::world::PhysicsResource;

fn cube(cx: i64, cy: i64, cz: i64, half: i64) -> Aabb {
    Aabb::new(
        Vec3i::new(cx - half, cy - half, cz - half),
        Vec3i::new(cx + half, cy + half, cz + half),
    )
}

fn near(r: &PhysicsResource, b: &Aabb) -> Vec<u64> {
    let mut out = Vec::new();
    r.broadphase.query(b, &mut out);
    out.sort();
    out
}

#[test]
fn cache_grows_to_hold_entity() {
    let mut r = PhysicsResource::new();
    r.set_world_aabb(3, cube(0, 0, 0, 500));
    assert_eq!(r.world_aabbs.len(), 4);
    assert_eq!(r.world_aabbs[3], Some(cube(0, 0, 0, 500)));
    assert_eq!(r.world_aabbs[0], None);
    assert_eq!(near(&r, &cube(0, 0, 0, 10)), vec![3]);
    assert_eq!(r.broadphase.len(), 1);
}

#[test]
fn moving_entity_keeps_one_leaf() {
    let mut r = PhysicsResource::new();
    r.set_world_aabb(0, cube(0, 0, 0, 500));
    r.set_world_aabb(1, cube(5_000, 0, 0, 500));
    r.set_world_aabb(0, cube(20_000, 0, 0, 500));
    assert_eq!(r.broadphase.len(), 2);
    assert!(near(&r, &cube(0, 0, 0, 10)).is_empty());
    assert_eq!(near(&r, &cube(20_000, 0, 0, 10)), vec![0]);
}

#[test]
fn removed_entity_leaves_cache_and_tree() {
    let mut r = PhysicsResource::new();
    r.set_world_aabb(0, cube(0, 0, 0, 500));
    r.set_world_aabb(1, cube(800, 0, 0, 500));
    r.remove_entity(0);
    r.remove_entity(7);
    assert_eq!(r.world_aabbs[0], None);
    assert_eq!(r.broadphase.len(), 1);
    assert_eq!(near(&r, &cube(0, 0, 0, 600)), vec![1]);
}

#[test]
fn cached_boxes_feed_contact_generation() {
    let mut r = PhysicsResource::new();
    r.set_world_aabb(0, cube(0, 0, 0, 1000));
    r.set_world_aabb(1, cube(1000, 0, 0, 1000));
    let contacts = CollisionSystem::generate_contacts(&vec![0], &vec![0, 1], &r.world_aabbs);
    assert_eq!(contacts.len(), 1);
    assert_eq!(contacts[0].penetration, 1000);
    assert_eq!(contacts[0].normal, Vec3i::new(1000, 0, 0));
}
