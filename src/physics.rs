//! Per-body physics attributes, as the entity store supplies them.

use vstd::prelude::*;
use crate::geometry::Vec3i;

verus! {

/// Largest absolute velocity component that the resolver accepts.
pub const VELOCITY_LIMIT: i64 = 1073741824;

/// How a body takes part in the simulation.
#[derive(Clone, Copy, Debug, PartialEq, Eq, Structural)]
pub enum PhysicsType {
    Static,
    Dynamic,
    Kinematic,
}

/// Mass (in grams), restitution and friction (both in thousandths).
#[derive(Clone, Copy, Debug, PartialEq, Eq, Structural)]
pub struct PhysicsComponent {
    pub physics_type: PhysicsType,
    pub mass: u32,
    pub restitution: u32,
    pub friction: u32,
}

/// What the resolver reads of one entity: its translational velocity and its
/// physics attributes, each of which may be missing.
#[derive(Clone, Copy, Debug, PartialEq, Eq, Structural)]
pub struct BodyState {
    pub velocity: Option<Vec3i>,
    pub physics: Option<PhysicsComponent>,
}

impl PhysicsComponent {
    /// Only dynamic bodies of positive mass are moved by impulses.
    pub open spec fn movable(self) -> bool {
        self.physics_type == PhysicsType::Dynamic && self.mass > 0
    }

    pub fn new(physics_type: PhysicsType, mass: u32, restitution: u32, friction: u32) -> (r:
        PhysicsComponent)
        ensures
            r == (PhysicsComponent { physics_type, mass, restitution, friction }),
    {
        PhysicsComponent { physics_type, mass, restitution, friction }
    }

    /// Whether impulses move this body.
    pub fn is_movable(&self) -> (r: bool)
        ensures
            r == self.movable(),
    {
        match self.physics_type {
            PhysicsType::Dynamic => self.mass > 0,
            _ => false,
        }
    }
}

pub open spec fn velocity_ok(v: Vec3i) -> bool {
    -VELOCITY_LIMIT <= v.x <= VELOCITY_LIMIT && -VELOCITY_LIMIT <= v.y <= VELOCITY_LIMIT
        && -VELOCITY_LIMIT <= v.z <= VELOCITY_LIMIT
}

impl BodyState {
    pub open spec fn wf(self) -> bool {
        self.velocity is Some ==> velocity_ok(self.velocity.unwrap())
    }
}

} // verus!
