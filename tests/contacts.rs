use engine::contact::{CollisionSystem, Contact, make_box_contact};
use engine::geometry::{Aabb, Vec3i};

fn cube(cx: i64, cy: i64, cz: i64, half: i64) -> Aabb {
    Aabb::new(
        Vec3i::new(cx - half, cy - half, cz - half),
        Vec3i::new(cx + half, cy + half, cz + half),
    )
}

#[test]
fn contact_along_least_overlap_axis() {
    let a = cube(0, 0, 0, 1000);
    let b = cube(1000, 0, 0, 1000);
    let c = make_box_contact(0, 1, &a, &b);
    assert_eq!(c.normal, Vec3i::new(1000, 0, 0));
    assert_eq!(c.penetration, 1000);
    assert_eq!(c.contact_point, Vec3i::new(500, 0, 0));
    assert_eq!(c.entity_a, 0);
    assert_eq!(c.entity_b, 1);
}

#[test]
fn contact_normal_points_towards_b() {
    let a = cube(1000, 0, 0, 1000);
    let b = cube(0, 0, 0, 1000);
    let c = make_box_contact(3, 4, &a, &b);
    assert_eq!(c.normal, Vec3i::new(-1000, 0, 0));
    assert_eq!(c.penetration, 1000);
    let below = cube(0, -1500, 0, 1000);
    let d = make_box_contact(3, 4, &b, &below);
    assert_eq!(d.normal, Vec3i::new(0, -1000, 0));
    assert_eq!(d.penetration, 500);
}

#[test]
fn equal_overlaps_pick_z() {
    let a = Aabb::new(Vec3i::new(0, 0, 0), Vec3i::new(10, 10, 10));
    let b = Aabb::new(Vec3i::new(5, 5, 5), Vec3i::new(15, 15, 15));
    let c = make_box_contact(0, 1, &a, &b);
    assert_eq!(c.normal, Vec3i::new(0, 0, 1000));
    assert_eq!(c.penetration, 5);
    assert_eq!(c.contact_point, Vec3i::new(7, 7, 7));
}

#[test]
fn generate_skips_self_missing_and_separate() {
    let boxes = vec![Some(cube(0, 0, 0, 1000)), Some(cube(1000, 0, 0, 1000)), None, Some(cube(
        9000, 0, 0, 1000,
    ))];
    let moving = vec![0usize];
    let all = vec![0usize, 1, 2, 3, 7];
    let contacts = CollisionSystem::generate_contacts(&moving, &all, &boxes);
    assert_eq!(contacts.len(), 1);
    let expected = Contact {
        entity_a: 0,
        entity_b: 1,
        normal: Vec3i::new(1000, 0, 0),
        penetration: 1000,
        contact_point: Vec3i::new(500, 0, 0),
    };
    assert_eq!(contacts[0], expected);
}

#[test]
fn generate_reports_both_directions_for_two_movers() {
    let boxes = vec![Some(cube(0, 0, 0, 1000)), Some(cube(1000, 0, 0, 1000))];
    let moving = vec![0usize, 1];
    let all = vec![0usize, 1];
    let contacts = CollisionSystem::generate_contacts(&moving, &all, &boxes);
    assert_eq!(contacts.len(), 2);
    assert_eq!((contacts[0].entity_a, contacts[0].entity_b), (0, 1));
    assert_eq!(contacts[0].normal, Vec3i::new(1000, 0, 0));
    assert_eq!((contacts[1].entity_a, contacts[1].entity_b), (1, 0));
    assert_eq!(contacts[1].normal, Vec3i::new(-1000, 0, 0));
}

#[test]
fn generate_with_no_moving_entities_is_empty() {
    let boxes = vec![Some(cube(0, 0, 0, 1000)), Some(cube(1000, 0, 0, 1000))];
    let contacts = CollisionSystem::generate_contacts(&vec![], &vec![0usize, 1], &boxes);
    assert!(contacts.is_empty());
}
