use engine::contact::{CollisionSystem, Contact};
use engine::geometry::Vec3i;
use engine::physics::{BodyState, PhysicsComponent, PhysicsType};
use engine::resolver::{SolverConfig, isqrt};

fn body(v: Option<Vec3i>, kind: PhysicsType, mass: u32, restitution: u32, friction: u32) -> BodyState {
    BodyState {
        velocity: v,
        physics: Some(PhysicsComponent::new(kind, mass, restitution, friction)),
    }
}

fn contact(a: usize, b: usize, normal: Vec3i, penetration: i64) -> Contact {
    Contact { entity_a: a, entity_b: b, normal, penetration, contact_point: Vec3i::zero() }
}

#[test]
fn elastic_head_on_exchanges_velocities() {
    let bodies = vec![
        body(Some(Vec3i::new(500, 0, 0)), PhysicsType::Dynamic, 1000, 1000, 500),
        body(Some(Vec3i::new(-500, 0, 0)), PhysicsType::Dynamic, 1000, 1000, 500),
    ];
    let mut contacts = vec![contact(0, 1, Vec3i::new(1000, 0, 0), 0)];
    let (impulses, corrections) = CollisionSystem::resolve_contacts(
        &mut contacts,
        &bodies,
        &SolverConfig::standard(),
    );
    assert_eq!(impulses.len(), 2);
    assert!(corrections.is_empty());
    assert_eq!(impulses[0].entity, 0);
    assert_eq!(impulses[0].linear, Vec3i::new(-1000, 0, 0));
    assert_eq!(impulses[1].entity, 1);
    assert_eq!(impulses[1].linear, Vec3i::new(1000, 0, 0));
    assert_eq!(500 + impulses[0].linear.x, -500);
    assert_eq!(-500 + impulses[1].linear.x, 500);
    assert_eq!(impulses[0].linear.x + impulses[1].linear.x, 0);
}

#[test]
fn unequal_masses_share_by_inverse_mass() {
    let bodies = vec![
        body(Some(Vec3i::new(1000, 0, 0)), PhysicsType::Dynamic, 1000, 0, 0),
        body(Some(Vec3i::new(0, 0, 0)), PhysicsType::Dynamic, 3000, 0, 0),
    ];
    let mut contacts = vec![contact(0, 1, Vec3i::new(1000, 0, 0), 0)];
    let (impulses, _) = CollisionSystem::resolve_contacts(&mut contacts, &bodies, &SolverConfig::standard());
    assert_eq!(impulses.len(), 2);
    assert_eq!(impulses[0].linear, Vec3i::new(-750, 0, 0));
    assert_eq!(impulses[1].linear, Vec3i::new(250, 0, 0));
}

#[test]
fn resting_contact_produces_nothing() {
    let bodies = vec![
        body(Some(Vec3i::new(0, -100, 0)), PhysicsType::Dynamic, 1000, 500, 500),
        BodyState { velocity: None, physics: Some(PhysicsComponent::new(PhysicsType::Static, 0, 200, 800)) },
    ];
    let mut contacts = vec![contact(0, 1, Vec3i::new(0, -1000, 0), 5)];
    let (impulses, corrections) = CollisionSystem::resolve_contacts(&mut contacts, &bodies, &SolverConfig::standard());
    assert!(impulses.is_empty());
    assert!(corrections.is_empty());
}

#[test]
fn slow_but_deep_contact_is_only_corrected() {
    let bodies = vec![
        body(Some(Vec3i::new(0, -100, 0)), PhysicsType::Dynamic, 1000, 500, 500),
        BodyState { velocity: None, physics: Some(PhysicsComponent::new(PhysicsType::Static, 0, 200, 800)) },
    ];
    let mut contacts = vec![contact(0, 1, Vec3i::new(0, -1000, 0), 50)];
    let (impulses, corrections) = CollisionSystem::resolve_contacts(&mut contacts, &bodies, &SolverConfig::standard());
    assert!(impulses.is_empty());
    assert_eq!(corrections.len(), 1);
    assert_eq!(corrections[0].entity, 0);
    assert_eq!(corrections[0].delta, Vec3i::new(0, 8, 0));
}

#[test]
fn bounce_friction_and_correction_on_static_ground() {
    let bodies = vec![
        body(Some(Vec3i::new(300, -1000, 0)), PhysicsType::Dynamic, 1000, 500, 500),
        BodyState { velocity: None, physics: Some(PhysicsComponent::new(PhysicsType::Static, 0, 200, 800)) },
    ];
    let mut contacts = vec![contact(0, 1, Vec3i::new(0, -1000, 0), 110)];
    let (impulses, corrections) = CollisionSystem::resolve_contacts(&mut contacts, &bodies, &SolverConfig::standard());
    assert_eq!(impulses.len(), 4);
    assert_eq!(impulses[0].entity, 0);
    assert_eq!(impulses[0].linear, Vec3i::new(0, 1200, 0));
    assert_eq!(impulses[1].entity, 1);
    assert_eq!(impulses[1].linear, Vec3i::zero());
    assert_eq!(impulses[2].entity, 0);
    assert_eq!(impulses[2].linear, Vec3i::new(-300, 0, 0));
    assert_eq!(impulses[3].linear, Vec3i::zero());
    assert_eq!(corrections.len(), 1);
    assert_eq!(corrections[0].entity, 0);
    assert_eq!(corrections[0].delta, Vec3i::new(0, 20, 0));
    assert_eq!(impulses[0].angular, Vec3i::zero());
}

#[test]
fn friction_is_clamped_by_normal_impulse() {
    let bodies = vec![
        body(Some(Vec3i::new(2000, -1000, 0)), PhysicsType::Dynamic, 1000, 500, 500),
        BodyState { velocity: None, physics: Some(PhysicsComponent::new(PhysicsType::Static, 0, 200, 800)) },
    ];
    let mut contacts = vec![contact(0, 1, Vec3i::new(0, -1000, 0), 0)];
    let (impulses, _) = CollisionSystem::resolve_contacts(&mut contacts, &bodies, &SolverConfig::standard());
    assert_eq!(impulses.len(), 4);
    assert_eq!(impulses[2].linear, Vec3i::new(-758, 0, 0));
}

#[test]
fn static_and_kinematic_bodies_are_never_moved() {
    let bodies = vec![
        body(Some(Vec3i::new(0, -5000, 0)), PhysicsType::Kinematic, 1000, 500, 500),
        body(Some(Vec3i::new(0, 0, 0)), PhysicsType::Static, 1000, 500, 500),
    ];
    let mut contacts = vec![contact(0, 1, Vec3i::new(0, -1000, 0), 500)];
    let (impulses, corrections) = CollisionSystem::resolve_contacts(&mut contacts, &bodies, &SolverConfig::standard());
    assert!(impulses.is_empty());
    assert!(corrections.is_empty());
}

#[test]
fn unknown_entities_are_skipped() {
    let bodies = vec![body(Some(Vec3i::new(0, 0, 0)), PhysicsType::Static, 1, 0, 0)];
    let mut contacts = vec![contact(5, 9, Vec3i::new(1000, 0, 0), 500)];
    let (impulses, corrections) = CollisionSystem::resolve_contacts(&mut contacts, &bodies, &SolverConfig::standard());
    assert!(impulses.is_empty());
    assert!(corrections.is_empty());
}

#[test]
fn empty_tick_changes_nothing() {
    let bodies = vec![body(Some(Vec3i::new(7, 8, 9)), PhysicsType::Dynamic, 10, 0, 0)];
    let (impulses, corrections) = CollisionSystem::resolve_contacts(&mut vec![], &bodies, &SolverConfig::standard());
    assert!(impulses.is_empty());
    assert!(corrections.is_empty());
}

#[test]
fn correction_is_split_by_inverse_mass() {
    let bodies = vec![
        body(Some(Vec3i::zero()), PhysicsType::Dynamic, 1000, 0, 0),
        body(Some(Vec3i::zero()), PhysicsType::Dynamic, 3000, 0, 0),
    ];
    let mut contacts = vec![contact(0, 1, Vec3i::new(0, 0, 1000), 1010)];
    let (impulses, corrections) = CollisionSystem::resolve_contacts(&mut contacts, &bodies, &SolverConfig::standard());
    assert!(impulses.is_empty());
    assert_eq!(corrections.len(), 2);
    assert_eq!(corrections[0].delta, Vec3i::new(0, 0, -150));
    assert_eq!(corrections[1].delta, Vec3i::new(0, 0, 50));
}

#[test]
fn integer_square_roots() {
    assert_eq!(isqrt(0), 0);
    assert_eq!(isqrt(1), 1);
    assert_eq!(isqrt(3), 1);
    assert_eq!(isqrt(4), 2);
    assert_eq!(isqrt(400000), 632);
    assert_eq!(isqrt(0xFFFF_FFFF_FFFF_FFFF), 0xFFFF_FFFF);
}

#[test]
fn standard_configuration() {
    let c = SolverConfig::standard();
    assert_eq!(c.resting_threshold, 200);
    assert_eq!(c.penetration_slop, 10);
    assert_eq!(c.correction_percent, 20);
}

#[test]
fn oblique_normal_rounds_towards_zero() {
    let bodies = vec![
        body(Some(Vec3i::zero()), PhysicsType::Dynamic, 1000, 0, 0),
        body(Some(Vec3i::new(-1000, -1000, 0)), PhysicsType::Dynamic, 1000, 0, 0),
    ];
    let mut contacts = vec![contact(0, 1, Vec3i::new(707, 707, 0), 0)];
    let (impulses, corrections) = CollisionSystem::resolve_contacts(&mut contacts, &bodies, &SolverConfig::standard());
    assert!(corrections.is_empty());
    assert_eq!(impulses.len(), 4);
    assert_eq!(impulses[0].linear, Vec3i::new(-499, -499, 0));
    assert_eq!(impulses[1].linear, Vec3i::new(499, 499, 0));
    assert_eq!(impulses[2].linear, Vec3i::zero());
    assert_eq!(impulses[3].linear, Vec3i::zero());
}

#[test]
fn resolving_a_tick_again_changes_nothing() {
    let bodies = vec![
        body(Some(Vec3i::new(500, 0, 0)), PhysicsType::Dynamic, 1000, 1000, 500),
        body(Some(Vec3i::new(-500, 0, 0)), PhysicsType::Dynamic, 1000, 1000, 500),
    ];
    let mut contacts = vec![contact(0, 1, Vec3i::new(1000, 0, 0), 50)];
    let (first, _) = CollisionSystem::resolve_contacts(&mut contacts, &bodies, &SolverConfig::standard());
    assert_eq!(first.len(), 2);
    assert!(contacts.is_empty());
    let (impulses, corrections) = CollisionSystem::resolve_contacts(&mut contacts, &bodies, &SolverConfig::standard());
    assert!(impulses.is_empty());
    assert!(corrections.is_empty());
}

#[test]
fn equal_masses_keep_momentum_on_oblique_normal() {
    let bodies = vec![
        body(Some(Vec3i::new(300, 200, -100)), PhysicsType::Dynamic, 2000, 400, 700),
        body(Some(Vec3i::new(-900, -1100, 50)), PhysicsType::Dynamic, 2000, 900, 300),
    ];
    let mut contacts = vec![contact(0, 1, Vec3i::new(600, 800, 0), 40)];
    let (impulses, _) = CollisionSystem::resolve_contacts(&mut contacts, &bodies, &SolverConfig::standard());
    assert_eq!(impulses.len(), 4);
    for pair in impulses.chunks(2) {
        assert_eq!(pair[0].linear.x + pair[1].linear.x, 0);
        assert_eq!(pair[0].linear.y + pair[1].linear.y, 0);
        assert_eq!(pair[0].linear.z + pair[1].linear.z, 0);
    }
}
