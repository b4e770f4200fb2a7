//! Contact records and the approximate contact generator that works on
//! world-space boxes alone.

use vstd::prelude::*;
use crate::geometry::{Aabb, Vec3i, aabb_intersects};

verus! {

/// The unit vector along `axis` (0, 1 or 2) with the given sign, in
/// thousandths.
pub open spec fn axis_normal(axis: int, positive: bool) -> Vec3i {
    let m: i64 = if positive { 1000i64 } else { -1000i64 };
    if axis == 0 {
        Vec3i { x: m, y: 0, z: 0 }
    } else if axis == 1 {
        Vec3i { x: 0, y: m, z: 0 }
    } else {
        Vec3i { x: 0, y: 0, z: m }
    }
}

/// Every component of the normal lies in `[-1000, 1000]`.
pub open spec fn normal_ok(n: Vec3i) -> bool {
    -1000 <= n.x <= 1000 && -1000 <= n.y <= 1000 && -1000 <= n.z <= 1000
}

fn axis_normal_exec(axis: u8, positive: bool) -> (r: Vec3i)
    requires
        axis <= 2,
    ensures
        r == axis_normal(axis as int, positive),
{
    let m: i64 = if positive {
        1000
    } else {
        -1000
    };
    if axis == 0 {
        Vec3i { x: m, y: 0, z: 0 }
    } else if axis == 1 {
        Vec3i { x: 0, y: m, z: 0 }
    } else {
        Vec3i { x: 0, y: 0, z: m }
    }
}

/// One contact between two bodies, identified by their entity indices.
#[derive(Clone, Copy, Debug, PartialEq, Eq, Structural)]
pub struct Contact {
    pub entity_a: usize,
    pub entity_b: usize,
    /// Unit direction from A to B, in thousandths.
    pub normal: Vec3i,
    /// Depth of overlap, never negative.
    pub penetration: i64,
    /// A world point of the contact: for box contacts the centre of the
    /// region the boxes share, rounded down; for convex contacts the point
    /// of B that reaches farthest into A.
    pub contact_point: Vec3i,
}

/// The stateless collision stage: contact generation and resolution.
#[derive(Clone, Copy, Debug)]
pub struct CollisionSystem {}

/// Twice the overlap of two intervals measured from their centres:
/// `(len_a + len_b) - |2 * (centre_b - centre_a)|`.
pub open spec fn overlap2(amin: int, amax: int, bmin: int, bmax: int) -> int {
    let d2 = (bmin + bmax) - (amin + amax);
    (amax - amin) + (bmax - bmin) - (if d2 >= 0 { d2 } else { -d2 })
}

/// Twice the signed distance between the two centres.
pub open spec fn delta2(amin: int, amax: int, bmin: int, bmax: int) -> int {
    (bmin + bmax) - (amin + amax)
}

pub open spec fn mid(lo: int, hi: int) -> int {
    lo + (hi - lo) / 2
}

pub open spec fn max_i(a: int, b: int) -> int {
    if a >= b { a } else { b }
}

pub open spec fn min_i(a: int, b: int) -> int {
    if a <= b { a } else { b }
}

/// The contact that the box approximation gives for two overlapping boxes:
/// the axis of least overlap, the normal along it towards B, and half the
/// doubled overlap as the depth.
pub open spec fn box_contact(ea: usize, eb: usize, a: Aabb, b: Aabb) -> Contact {
    let ox = overlap2(a.min.x as int, a.max.x as int, b.min.x as int, b.max.x as int);
    let oy = overlap2(a.min.y as int, a.max.y as int, b.min.y as int, b.max.y as int);
    let oz = overlap2(a.min.z as int, a.max.z as int, b.min.z as int, b.max.z as int);
    let dx = delta2(a.min.x as int, a.max.x as int, b.min.x as int, b.max.x as int);
    let dy = delta2(a.min.y as int, a.max.y as int, b.min.y as int, b.max.y as int);
    let dz = delta2(a.min.z as int, a.max.z as int, b.min.z as int, b.max.z as int);
    let (o, normal) = if ox < oy && ox < oz {
        (ox, axis_normal(0 as int, dx >= 0))
    } else if oy < oz {
        (oy, axis_normal(1 as int, dy >= 0))
    } else {
        (oz, axis_normal(2 as int, dz >= 0))
    };
    Contact {
        entity_a: ea,
        entity_b: eb,
        normal,
        penetration: (o / 2) as i64,
        contact_point: Vec3i {
            x: mid(max_i(a.min.x as int, b.min.x as int), min_i(a.max.x as int, b.max.x as int))
                as i64,
            y: mid(max_i(a.min.y as int, b.min.y as int), min_i(a.max.y as int, b.max.y as int))
                as i64,
            z: mid(max_i(a.min.z as int, b.min.z as int), min_i(a.max.z as int, b.max.z as int))
                as i64,
        },
    }
}

/// The contact between entities `ea` and `eb`, if both have a cached box,
/// they are distinct and their boxes overlap.
pub open spec fn pair_contact(boxes: Seq<Option<Aabb>>, ea: usize, eb: usize) -> Option<Contact> {
    if ea == eb || ea >= boxes.len() || eb >= boxes.len() {
        None
    } else if boxes[ea as int] is None || boxes[eb as int] is None {
        None
    } else {
        let a = boxes[ea as int].unwrap();
        let b = boxes[eb as int].unwrap();
        if a.overlaps(b) {
            Some(box_contact(ea, eb, a, b))
        } else {
            None
        }
    }
}

pub open spec fn opt_seq(o: Option<Contact>) -> Seq<Contact> {
    match o {
        Some(c) => seq![c],
        None => Seq::empty(),
    }
}

/// Contacts of one moving entity against every entity of `others`, in order.
pub open spec fn contacts_of(boxes: Seq<Option<Aabb>>, ea: usize, others: Seq<usize>) -> Seq<
    Contact,
>
    decreases others.len(),
{
    if others.len() == 0 {
        Seq::empty()
    } else {
        contacts_of(boxes, ea, others.drop_last()) + opt_seq(
            pair_contact(boxes, ea, others.last()),
        )
    }
}

/// Contacts of every moving entity against every entity, moving ones first.
pub open spec fn all_contacts(boxes: Seq<Option<Aabb>>, moving: Seq<usize>, others: Seq<usize>) -> Seq<
    Contact,
>
    decreases moving.len(),
{
    if moving.len() == 0 {
        Seq::empty()
    } else {
        all_contacts(boxes, moving.drop_last(), others) + contacts_of(
            boxes,
            moving.last(),
            others,
        )
    }
}

/// Every cached box is valid.
pub open spec fn boxes_valid(boxes: Seq<Option<Aabb>>) -> bool {
    forall|i: int| 0 <= i < boxes.len() && (#[trigger] boxes[i]) is Some ==> boxes[i].unwrap().valid()
}

/// A contact's depth is not negative and fits the range of valid boxes,
/// and its normal's components lie within one unit.
pub open spec fn contact_ok(c: Contact) -> bool {
    0 <= c.penetration <= 2 * crate::geometry::WORLD_LIMIT && normal_ok(c.normal)
}

fn axis_overlap2(amin: i64, amax: i64, bmin: i64, bmax: i64) -> (r: (i64, i64))
    requires
        -crate::geometry::WORLD_LIMIT <= amin <= amax <= crate::geometry::WORLD_LIMIT,
        -crate::geometry::WORLD_LIMIT <= bmin <= bmax <= crate::geometry::WORLD_LIMIT,
    ensures
        r.0 == overlap2(amin as int, amax as int, bmin as int, bmax as int),
        r.1 == delta2(amin as int, amax as int, bmin as int, bmax as int),
{
    let d2 = (bmin + bmax) - (amin + amax);
    let ad = if d2 >= 0 { d2 } else { -d2 };
    ((amax - amin) + (bmax - bmin) - ad, d2)
}

fn overlap_mid(amin: i64, amax: i64, bmin: i64, bmax: i64) -> (r: i64)
    requires
        -crate::geometry::WORLD_LIMIT <= amin <= amax <= crate::geometry::WORLD_LIMIT,
        -crate::geometry::WORLD_LIMIT <= bmin <= bmax <= crate::geometry::WORLD_LIMIT,
        amin <= bmax,
        bmin <= amax,
    ensures
        r == mid(max_i(amin as int, bmin as int), min_i(amax as int, bmax as int)),
{
    let lo = if amin >= bmin { amin } else { bmin };
    let hi = if amax <= bmax { amax } else { bmax };
    lo + (hi - lo) / 2
}

/// The approximate contact of two overlapping valid boxes.
pub fn make_box_contact(ea: usize, eb: usize, a: &Aabb, b: &Aabb) -> (r: Contact)
    requires
        a.valid(),
        b.valid(),
        a.overlaps(*b),
    ensures
        r == box_contact(ea, eb, *a, *b),
        contact_ok(r),
{
    let (ox, dx) = axis_overlap2(a.min.x, a.max.x, b.min.x, b.max.x);
    let (oy, dy) = axis_overlap2(a.min.y, a.max.y, b.min.y, b.max.y);
    let (oz, dz) = axis_overlap2(a.min.z, a.max.z, b.min.z, b.max.z);
    let (o, normal) = if ox < oy && ox < oz {
        (ox, axis_normal_exec(0, dx >= 0))
    } else if oy < oz {
        (oy, axis_normal_exec(1, dy >= 0))
    } else {
        (oz, axis_normal_exec(2, dz >= 0))
    };
    Contact {
        entity_a: ea,
        entity_b: eb,
        normal,
        penetration: o / 2,
        contact_point: Vec3i {
            x: overlap_mid(a.min.x, a.max.x, b.min.x, b.max.x),
            y: overlap_mid(a.min.y, a.max.y, b.min.y, b.max.y),
            z: overlap_mid(a.min.z, a.max.z, b.min.z, b.max.z),
        },
    }
}

impl CollisionSystem {
    /// Approximate contacts: every moving entity is tested against every
    /// entity of `all` by box overlap, skipping itself and entities without
    /// a cached world box. The contacts come in the order of the two lists.
    pub fn generate_contacts(
        moving: &Vec<usize>,
        all: &Vec<usize>,
        world_aabbs: &Vec<Option<Aabb>>,
    ) -> (r: Vec<Contact>)
        requires
            boxes_valid(world_aabbs@),
        ensures
            r@ == all_contacts(world_aabbs@, moving@, all@),
            forall|k: int| 0 <= k < r@.len() ==> contact_ok(#[trigger] r@[k]),
    {
        let mut contacts: Vec<Contact> = Vec::new();
        let mut i: usize = 0;
        while i < moving.len()
            invariant
                i <= moving@.len(),
                boxes_valid(world_aabbs@),
                contacts@ == all_contacts(world_aabbs@, moving@.take(i as int), all@),
                forall|k: int| 0 <= k < contacts@.len() ==> contact_ok(#[trigger] contacts@[k]),
            decreases moving@.len() - i,
        {
            let ea = moving[i];
            let mut j: usize = 0;
            let ghost base = contacts@;
            assert(moving@.take(i as int + 1).drop_last() == moving@.take(i as int));
            while j < all.len()
                invariant
                    i < moving@.len(),
                    ea == moving@[i as int],
                    j <= all@.len(),
                    boxes_valid(world_aabbs@),
                    contacts@ == base + contacts_of(world_aabbs@, ea, all@.take(j as int)),
                    forall|k: int| 0 <= k < contacts@.len() ==> contact_ok(#[trigger] contacts@[k]),
                decreases all@.len() - j,
            {
                let eb = all[j];
                assert(all@.take(j as int + 1).drop_last() == all@.take(j as int));
                if ea != eb && ea < world_aabbs.len() && eb < world_aabbs.len() {
                    match (&world_aabbs[ea], &world_aabbs[eb]) {
                        (Some(a), Some(b)) => {
                            assert(a.valid() && b.valid());
                            if aabb_intersects(a, b) {
                                let c = make_box_contact(ea, eb, a, b);
                                contacts.push(c);
                            }
                        },
                        _ => {},
                    }
                }
                proof {
                    assert(contacts@ == base + contacts_of(world_aabbs@, ea, all@.take(j as int + 1)));
                }
                j = j + 1;
            }
            assert(all@.take(all@.len() as int) == all@);
            i = i + 1;
        }
        assert(moving@.take(moving@.len() as int) == moving@);
        contacts
    }
}

} // verus!
