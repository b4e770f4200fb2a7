//! Broad-phase state kept between ticks: each entity's world box, the tree
//! over those boxes, and the tree leaf of each entity.

use vstd::prelude::*;
use crate::contact::boxes_valid;
use crate::geometry::Aabb;
use crate::tree::{DynamicAabbTree, LeafEntry, NodeId};

verus! {

/// Tables indexed by entity: the cached world box and the tree leaf.
pub struct PhysicsResource {
    pub world_aabbs: Vec<Option<Aabb>>,
    pub broadphase: DynamicAabbTree,
    pub entity_node: Vec<Option<NodeId>>,
}

impl PhysicsResource {
    /// The cached world box of entity `f`.
    pub open spec fn cached(&self, f: int) -> Option<Aabb> {
        self.world_aabbs@[f]
    }

    /// An entity has a leaf exactly when it has a cached box; the leaf holds
    /// the entity and the cached box as its tight box.
    pub open spec fn wf(&self) -> bool {
        &&& self.broadphase.wf()
        &&& self.world_aabbs@.len() == self.entity_node@.len()
        &&& boxes_valid(self.world_aabbs@)
        &&& forall|e: int|
            0 <= e < self.entity_node@.len() ==> match #[trigger] self.entity_node@[e] {
                None => self.world_aabbs@[e] is None,
                Some(id) => {
                    &&& self.broadphase.leaves().dom().contains(id.0 as int)
                    &&& self.broadphase.leaves()[id.0 as int].entity == e as u64
                    &&& self.world_aabbs@[e] == Some(self.broadphase.leaves()[id.0 as int].tight)
                },
            }
    }

    pub fn new() -> (r: PhysicsResource)
        ensures
            r.wf(),
            r.world_aabbs@.len() == 0,
    {
        PhysicsResource {
            world_aabbs: Vec::new(),
            broadphase: DynamicAabbTree::new(),
            entity_node: Vec::new(),
        }
    }

    /// Records entity `e`'s new world box and moves (or inserts) its leaf.
    pub fn set_world_aabb(&mut self, e: usize, world: Aabb)
        requires
            old(self).wf(),
            world.valid(),
            e < usize::MAX,
        ensures
            final(self).wf(),
            final(self).world_aabbs@.len() == if e < old(self).world_aabbs@.len() {
                old(self).world_aabbs@.len() as int
            } else {
                e + 1
            },
            final(self).world_aabbs@[e as int] == Some(world),
            forall|f: int|
                0 <= f < final(self).world_aabbs@.len() && f != e ==> final(self).cached(f) == if f
                    < old(self).world_aabbs@.len() {
                    old(self).world_aabbs@[f]
                } else {
                    None
                },
    {
        let ghost w0 = self.world_aabbs@;
        while self.world_aabbs.len() <= e
            invariant
                self.broadphase.wf(),
                self.world_aabbs@.len() == self.entity_node@.len(),
                boxes_valid(self.world_aabbs@),
                e < usize::MAX,
                w0.len() <= self.world_aabbs@.len(),
                self.world_aabbs@.len() <= if e < w0.len() { w0.len() as int } else { e + 1 },
                forall|f: int| 0 <= f < w0.len() ==> self.world_aabbs@[f] == w0[f],
                forall|f: int| w0.len() <= f < self.world_aabbs@.len() ==> self.world_aabbs@[f] is None,
                forall|f: int|
                    0 <= f < self.entity_node@.len() ==> match #[trigger] self.entity_node@[f] {
                        None => self.world_aabbs@[f] is None,
                        Some(id) => {
                            &&& self.broadphase.leaves().dom().contains(id.0 as int)
                            &&& self.broadphase.leaves()[id.0 as int].entity == f as u64
                            &&& self.world_aabbs@[f] == Some(
                                self.broadphase.leaves()[id.0 as int].tight,
                            )
                        },
                    },
            decreases e + 1 - self.world_aabbs@.len(),
        {
            self.world_aabbs.push(None);
            self.entity_node.push(None);
        }
        let ghost w1 = self.world_aabbs@;
        let ghost n1 = self.entity_node@;
        let ghost l1 = self.broadphase.leaves();
        match self.entity_node[e] {
            Some(id) => {
                self.broadphase.update(id, world);
                proof {
                    let l2 = self.broadphase.leaves();
                    assert forall|f: int| 0 <= f < n1.len() && f != e && (#[trigger] n1[f]) is Some implies n1[f].unwrap().0
                        != id.0 by {
                        assert(l1[n1[f].unwrap().0 as int].entity == f as u64);
                        assert(l1[id.0 as int].entity == e as u64);
                    }
                }
            },
            None => {
                let id = self.broadphase.allocate_leaf(e as u64, world);
                self.entity_node.set(e, Some(id));
                proof {
                    assert forall|f: int| 0 <= f < n1.len() && f != e && (#[trigger] n1[f]) is Some implies n1[f].unwrap().0
                        != id.0 by {}
                }
            },
        }
        self.world_aabbs.set(e, Some(world));
        proof {
            let l2 = self.broadphase.leaves();
            assert forall|f: int| 0 <= f < self.entity_node@.len() implies match #[trigger] self.entity_node@[f] {
                None => self.world_aabbs@[f] is None,
                Some(id) => {
                    &&& l2.dom().contains(id.0 as int)
                    &&& l2[id.0 as int].entity == f as u64
                    &&& self.world_aabbs@[f] == Some(l2[id.0 as int].tight)
                },
            } by {
                if f != e {
                    assert(self.entity_node@[f] == n1[f]);
                    assert(self.world_aabbs@[f] == w1[f]);
                }
            }
            assert forall|i: int|
                0 <= i < self.world_aabbs@.len() && (#[trigger] self.world_aabbs@[i]) is Some implies self.world_aabbs@[i].unwrap().valid() by {
                if i != e {
                    assert(self.world_aabbs@[i] == w1[i]);
                }
            }
        }
    }

    /// Forgets entity `e`: its cached box and its leaf. An entity without a
    /// box is left alone.
    pub fn remove_entity(&mut self, e: usize)
        requires
            old(self).wf(),
        ensures
            final(self).wf(),
            final(self).world_aabbs@.len() == old(self).world_aabbs@.len(),
            e < final(self).world_aabbs@.len() ==> final(self).world_aabbs@[e as int] is None,
            forall|f: int|
                0 <= f < final(self).world_aabbs@.len() && f != e ==> final(self).cached(f) == old(
                    self,
                ).cached(f),
    {
        if e >= self.entity_node.len() {
            return ;
        }
        let ghost w1 = self.world_aabbs@;
        let ghost n1 = self.entity_node@;
        let ghost l1 = self.broadphase.leaves();
        match self.entity_node[e] {
            None => {},
            Some(id) => {
                self.broadphase.remove(id);
                self.entity_node.set(e, None);
                self.world_aabbs.set(e, None);
                proof {
                    let l2 = self.broadphase.leaves();
                    assert forall|f: int| 0 <= f < self.entity_node@.len() implies match #[trigger] self.entity_node@[f] {
                        None => self.world_aabbs@[f] is None,
                        Some(j) => {
                            &&& l2.dom().contains(j.0 as int)
                            &&& l2[j.0 as int].entity == f as u64
                            &&& self.world_aabbs@[f] == Some(l2[j.0 as int].tight)
                        },
                    } by {
                        if f != e {
                            assert(self.entity_node@[f] == n1[f]);
                            assert(self.world_aabbs@[f] == w1[f]);
                            if n1[f] is Some {
                                assert(l1[n1[f].unwrap().0 as int].entity == f as u64);
                                assert(l1[id.0 as int].entity == e as u64);
                            }
                        }
                    }
                    assert forall|i: int|
                        0 <= i < self.world_aabbs@.len() && (#[trigger] self.world_aabbs@[i]) is Some implies self.world_aabbs@[i].unwrap().valid() by {
                        assert(self.world_aabbs@[i] == w1[i]);
                    }
                }
            },
        }
    }
}

} // verus!
