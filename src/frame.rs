//! The per-tick frame context of the collision pass.

use vstd::prelude::*;
use crate::contact::Contact;
use crate::geometry::Vec3i;

verus! {

/// Contacts between one pair of entities that share a normal.
#[derive(Debug)]
pub struct ContactManifold {
    pub contacts: Vec<Contact>,
    /// Unit normal in thousandths.
    pub normal: Vec3i,
}

/// Transient data of one tick's collision pass, cleared at every tick.
pub struct CollisionFrameData {
    /// Length of the tick in microseconds.
    pub delta_time: u64,
    pub candidate_pairs: Vec<(usize, usize)>,
    pub contacts: Vec<Contact>,
    pub manifolds: Vec<((usize, usize), ContactManifold)>,
    pub narrowphase_results: Vec<((usize, usize), ContactManifold)>,
}

impl CollisionFrameData {
    pub fn new() -> (r: CollisionFrameData)
        ensures
            r.delta_time == 0,
            r.candidate_pairs@.len() == 0,
            r.contacts@.len() == 0,
            r.manifolds@.len() == 0,
            r.narrowphase_results@.len() == 0,
    {
        CollisionFrameData {
            delta_time: 0,
            candidate_pairs: Vec::new(),
            contacts: Vec::new(),
            manifolds: Vec::new(),
            narrowphase_results: Vec::new(),
        }
    }

    /// Resets all of the tick's data.
    pub fn clear(&mut self)
        ensures
            final(self).delta_time == 0,
            final(self).candidate_pairs@.len() == 0,
            final(self).contacts@.len() == 0,
            final(self).manifolds@.len() == 0,
            final(self).narrowphase_results@.len() == 0,
    {
        self.delta_time = 0;
        self.candidate_pairs.clear();
        self.contacts.clear();
        self.manifolds.clear();
        self.narrowphase_results.clear();
    }
}

} // verus!
