//! Rigid-body collision pipeline on integer fixed-point coordinates:
//! axis-aligned boxes, a dynamic bounding-volume tree for the broad phase,
//! an intersection test (GJK) and penetration search (EPA) for convex
//! shapes, approximate box contacts and a sequential-impulse contact
//! resolver.
//!
//! Lengths are measured in millimetres and velocities in millimetres per
//! second, so every quantity is an exact integer.

pub mod geometry;
pub mod contact;
pub mod physics;
pub mod resolver;
pub mod assets;
pub mod input;
pub mod tree;
pub mod frame;
pub mod gjk;
pub mod epa;
pub mod world;
