//! Dynamic bounding-volume tree over fattened leaf boxes.
//!
//! Leaves live in one arena of slots addressed by a stable index; removed
//! slots go to a free list and are reused. The hierarchy above them is a
//! binary tree whose internal nodes own their children. Each internal box
//! contains the boxes of both children, and each leaf's fattened box
//! contains its tight box, so a query that prunes by box overlap finds every
//! leaf whose tight box meets the query region.

use vstd::prelude::*;
use crate::geometry::{Aabb, aabb_intersects, lemma_contains_trans};

verus! {

/// Stable index of a leaf in the tree's arena.
#[derive(Clone, Copy, Debug, PartialEq, Eq, Structural)]
pub struct NodeId(pub usize);

/// What the tree holds for one leaf: its entity, its tight box and the box
/// enlarged by the margin that the hierarchy works with.
#[derive(Clone, Copy, Debug, PartialEq, Eq, Structural)]
pub struct LeafEntry {
    pub entity: u64,
    pub tight: Aabb,
    pub fat: Aabb,
}

/// A subtree: a leaf slot, or an internal node.
pub enum Bvh {
    Leaf(usize),
    Branch(Box<Branch>),
}

/// An internal node; `aabb` contains the boxes of both children.
pub struct Branch {
    pub aabb: Aabb,
    pub left: Bvh,
    pub right: Bvh,
}

/// Broad-phase index from entities to fattened boxes.
pub struct DynamicAabbTree {
    slots: Vec<Option<LeafEntry>>,
    free: Vec<usize>,
    root: Option<Bvh>,
    /// Allocations of internal nodes taken apart, reused for new ones.
    spare: Vec<Box<Branch>>,
}

impl LeafEntry {
    pub open spec fn wf(self) -> bool {
        self.tight.valid() && self.fat.stored() && self.fat.contains(self.tight)
    }
}

/// The slots of the leaves below `t`.
pub open spec fn ids(t: Bvh) -> Set<int>
    decreases t,
{
    match t {
        Bvh::Leaf(i) => set![i as int],
        Bvh::Branch(b) => ids(b.left).union(ids(b.right)),
    }
}

/// The box of a subtree: a leaf's fattened box, or an internal node's box.
pub open spec fn bbox(t: Bvh, slots: Seq<Option<LeafEntry>>) -> Aabb {
    match t {
        Bvh::Leaf(i) => slots[i as int].unwrap().fat,
        Bvh::Branch(b) => b.aabb,
    }
}

/// Every leaf of `t` names a filled slot, no slot appears twice, and each
/// internal box holds the boxes of its children.
pub open spec fn bwf(t: Bvh, slots: Seq<Option<LeafEntry>>) -> bool
    decreases t,
{
    match t {
        Bvh::Leaf(i) => i < slots.len() && slots[i as int] is Some,
        Bvh::Branch(b) => {
            &&& bwf(b.left, slots)
            &&& bwf(b.right, slots)
            &&& ids(b.left).disjoint(ids(b.right))
            &&& b.aabb.stored()
            &&& b.aabb.contains(bbox(b.left, slots))
            &&& b.aabb.contains(bbox(b.right, slots))
        },
    }
}

/// The box of a subtree holds the fattened box of every leaf below it.
proof fn lemma_bbox_holds(t: Bvh, slots: Seq<Option<LeafEntry>>, i: int)
    requires
        bwf(t, slots),
        ids(t).contains(i),
    ensures
        bbox(t, slots).contains(slots[i].unwrap().fat),
        0 <= i < slots.len(),
        slots[i] is Some,
    decreases t,
{
    match t {
        Bvh::Leaf(j) => {},
        Bvh::Branch(b) => {
            if ids(b.left).contains(i) {
                lemma_bbox_holds(b.left, slots, i);
                lemma_contains_trans(b.aabb, bbox(b.left, slots), slots[i].unwrap().fat);
            } else {
                lemma_bbox_holds(b.right, slots, i);
                lemma_contains_trans(b.aabb, bbox(b.right, slots), slots[i].unwrap().fat);
            }
        },
    }
}

/// A subtree depends only on the fattened boxes of its own leaves.
proof fn lemma_bvh_frame(t: Bvh, s1: Seq<Option<LeafEntry>>, s2: Seq<Option<LeafEntry>>)
    requires
        bwf(t, s1),
        s2.len() >= s1.len(),
        forall|i: int|
            #[trigger] ids(t).contains(i) ==> s2[i] is Some && s2[i].unwrap().fat == s1[i].unwrap().fat,
    ensures
        bwf(t, s2),
        bbox(t, s2) == bbox(t, s1),
    decreases t,
{
    match t {
        Bvh::Leaf(j) => {
            assert(ids(t).contains(j as int));
        },
        Bvh::Branch(b) => {
            assert forall|i: int| #[trigger] ids(b.left).contains(i) implies ids(t).contains(i) by {}
            assert forall|i: int| #[trigger] ids(b.right).contains(i) implies ids(t).contains(i) by {}
            lemma_bvh_frame(b.left, s1, s2);
            lemma_bvh_frame(b.right, s1, s2);
        },
    }
}

/// `x` is among the items that `b` adds to `a`.
pub open spec fn appended(a: Seq<u64>, b: Seq<u64>, x: u64) -> bool {
    exists|j: int| a.len() <= j < b.len() && b[j] == x
}

/// `b` is `a` with zero or more items appended.
pub open spec fn extends(a: Seq<u64>, b: Seq<u64>) -> bool {
    b.len() >= a.len() && b.take(a.len() as int) == a
}

/// Some leaf of `leaves` holds entity `x` and its fattened box overlaps `r`.
pub open spec fn leaf_near(leaves: Map<int, LeafEntry>, x: u64, r: Aabb) -> bool {
    exists|id: int| leaves.dom().contains(id) && leaves[id].entity == x && leaves[id].fat.overlaps(r)
}

/// Some slot of `slots` below `t` holds entity `x` and its fattened box overlaps `r`.
pub open spec fn slot_near(t: Bvh, slots: Seq<Option<LeafEntry>>, x: u64, r: Aabb) -> bool {
    exists|id: int|
        ids(t).contains(id) && slots[id].unwrap().entity == x && slots[id].unwrap().fat.overlaps(r)
}

proof fn lemma_extends_trans(a: Seq<u64>, b: Seq<u64>, c: Seq<u64>)
    requires
        extends(a, b),
        extends(b, c),
    ensures
        extends(a, c),
{
    assert(c.take(a.len() as int) =~= a) by {
        assert forall|j: int| 0 <= j < a.len() implies c[j] == a[j] by {
            assert(c.take(b.len() as int)[j] == b[j]);
            assert(b.take(a.len() as int)[j] == a[j]);
        }
    }
}

proof fn lemma_appended_left(a: Seq<u64>, b: Seq<u64>, c: Seq<u64>, x: u64)
    requires
        extends(a, b),
        extends(b, c),
        appended(a, b, x),
    ensures
        appended(a, c, x),
{
    let j = choose|j: int| a.len() <= j < b.len() && b[j] == x;
    assert(c.take(b.len() as int)[j] == b[j]);
}

/// Appends the entity of every leaf below `t` whose fattened box overlaps `r`.
fn query_bvh(t: &Bvh, slots: &Vec<Option<LeafEntry>>, r: &Aabb, out: &mut Vec<u64>)
    requires
        bwf(*t, slots@),
        forall|i: int| 0 <= i < slots@.len() && (#[trigger] slots@[i]) is Some ==> slots@[i].unwrap().wf(),
    ensures
        extends(old(out)@, final(out)@),
        forall|i: int|
            #[trigger] ids(*t).contains(i) && slots@[i].unwrap().tight.overlaps(*r) ==> appended(
                old(out)@,
                final(out)@,
                slots@[i].unwrap().entity,
            ),
        forall|k: int|
            old(out)@.len() <= k < final(out)@.len() ==> slot_near(
                *t,
                slots@,
                #[trigger] final(out)@[k],
                *r,
            ),
    decreases t,
{
    let ghost o0 = out@;
    match t {
        Bvh::Leaf(i) => {
            let e = slots[*i].unwrap();
            if aabb_intersects(&e.fat, r) {
                out.push(e.entity);
                assert(out@.take(o0.len() as int) =~= o0);
                assert(out@[o0.len() as int] == e.entity);
                assert(ids(*t).contains(*i as int));
            } else {
                assert(out@.take(o0.len() as int) =~= o0);
                assert forall|j: int| #[trigger] ids(*t).contains(j) implies !slots@[j].unwrap().tight.overlaps(*r) by {
                    assert(j == *i as int);
                    assert(slots@[j].unwrap().wf());
                }
            }
        },
        Bvh::Branch(b) => {
            if !aabb_intersects(&b.aabb, r) {
                assert(out@.take(o0.len() as int) =~= o0);
                assert forall|j: int| #[trigger] ids(*t).contains(j) implies !slots@[j].unwrap().tight.overlaps(*r) by {
                    lemma_bbox_holds(*t, slots@, j);
                    assert(slots@[j].unwrap().wf());
                }
                return ;
            }
            query_bvh(&b.left, slots, r, out);
            let ghost o1 = out@;
            query_bvh(&b.right, slots, r, out);
            let ghost o2 = out@;
            proof {
                lemma_extends_trans(o0, o1, o2);
                assert forall|i: int|
                    #[trigger] ids(*t).contains(i) && slots@[i].unwrap().tight.overlaps(*r) implies appended(
                    o0,
                    o2,
                    slots@[i].unwrap().entity,
                ) by {
                    if ids(b.left).contains(i) {
                        lemma_appended_left(o0, o1, o2, slots@[i].unwrap().entity);
                    }
                }
                assert forall|k: int| o0.len() <= k < o2.len() implies slot_near(
                    *t,
                    slots@,
                    #[trigger] o2[k],
                    *r,
                ) by {
                    if k < o1.len() {
                        assert(o2.take(o1.len() as int)[k] == o1[k]);
                        assert(slot_near(b.left, slots@, o1[k], *r));
                        let id = choose|id: int|
                            ids(b.left).contains(id) && slots@[id].unwrap().entity == o1[k]
                                && slots@[id].unwrap().fat.overlaps(*r);
                        assert(ids(*t).contains(id));
                    } else {
                        assert(slot_near(b.right, slots@, o2[k], *r));
                        let id = choose|id: int|
                            ids(b.right).contains(id) && slots@[id].unwrap().entity == o2[k]
                                && slots@[id].unwrap().fat.overlaps(*r);
                        assert(ids(*t).contains(id));
                    }
                }
            }
        },
    }
}

/// Every filled slot holds a well-formed leaf.
pub open spec fn slots_wf(slots: Seq<Option<LeafEntry>>) -> bool {
    forall|i: int| 0 <= i < slots.len() && (#[trigger] slots[i]) is Some ==> slots[i].unwrap().wf()
}

proof fn lemma_bbox_stored(t: Bvh, slots: Seq<Option<LeafEntry>>)
    requires
        bwf(t, slots),
        slots_wf(slots),
    ensures
        bbox(t, slots).stored(),
{
    match t {
        Bvh::Leaf(j) => {
            assert(slots[j as int].unwrap().wf());
        },
        Bvh::Branch(b) => {},
    }
}

/// The area of a stored box is at most `6 * 2^64`.
proof fn lemma_area_bound(b: Aabb)
    requires
        b.stored(),
    ensures
        0 <= b.area() <= 0x10_0000_0000_0000_0000,
{
    let dx = b.max.x - b.min.x;
    let dy = b.max.y - b.min.y;
    let dz = b.max.z - b.min.z;
    assert(0 <= 2 * (dx * dy + dy * dz + dz * dx) <= 0x10_0000_0000_0000_0000) by (nonlinear_arith)
        requires
            0 <= dx <= 0x1_0000_0000,
            0 <= dy <= 0x1_0000_0000,
            0 <= dz <= 0x1_0000_0000,
    ;
    assert(b.area() == 2 * (dx * dy + dy * dz + dz * dx));
}

fn bvh_box(t: &Bvh, slots: &Vec<Option<LeafEntry>>) -> (r: Aabb)
    requires
        bwf(*t, slots@),
        slots_wf(slots@),
    ensures
        r == bbox(*t, slots@),
        r.stored(),
{
    proof {
        lemma_bbox_stored(*t, slots@);
    }
    match t {
        Bvh::Leaf(j) => slots[*j].unwrap().fat,
        Bvh::Branch(b) => b.aabb,
    }
}

/// Growth of surface area caused by sending `fat` down into `t`.
fn descend_cost(t: &Bvh, fat: &Aabb, slots: &Vec<Option<LeafEntry>>) -> (r: i128)
    requires
        bwf(*t, slots@),
        slots_wf(slots@),
        fat.stored(),
    ensures
        -0x10_0000_0000_0000_0000 <= r <= 0x10_0000_0000_0000_0000,
{
    let b = bvh_box(t, slots);
    let joined = b.merged(fat);
    proof {
        lemma_area_bound(joined);
        lemma_area_bound(b);
    }
    let ja = joined.surface_area();
    match t {
        Bvh::Leaf(_) => ja,
        Bvh::Branch(_) => ja - b.surface_area(),
    }
}

/// Takes an internal node apart and keeps its allocation in `pool`.
fn take_branch(bx: Box<Branch>, pool: &mut Vec<Box<Branch>>) -> (r: (Aabb, Bvh, Bvh))
    ensures
        r.0 == bx.aabb && r.1 == bx.left && r.2 == bx.right,
        final(pool)@.len() == old(pool)@.len() + 1,
{
    let mut bx = bx;
    let z = crate::geometry::Vec3i { x: 0, y: 0, z: 0 };
    let mut tmp = Branch { aabb: Aabb { min: z, max: z }, left: Bvh::Leaf(0), right: Bvh::Leaf(0) };
    core::mem::swap(&mut *bx, &mut tmp);
    pool.push(bx);
    (tmp.aabb, tmp.left, tmp.right)
}

/// An internal node, built in an allocation from `pool` when one is there.
fn make_branch(aabb: Aabb, left: Bvh, right: Bvh, pool: &mut Vec<Box<Branch>>) -> (r: Bvh)
    ensures
        r == Bvh::Branch(Box::new(Branch { aabb, left, right })),
{
    match pool.pop() {
        Some(bx) => {
            let mut bx = bx;
            *bx = Branch { aabb, left, right };
            Bvh::Branch(bx)
        },
        None => Bvh::Branch(Box::new(Branch { aabb, left, right })),
    }
}

/// A branch over `left` and `right` with box `aabb`, after swapping a child
/// with a grandchild from the other side when that gives the inner node a
/// smaller surface area (a tree rotation).
fn balanced(
    aabb: Aabb,
    left: Bvh,
    right: Bvh,
    slots: &Vec<Option<LeafEntry>>,
    pool: &mut Vec<Box<Branch>>,
) -> (r: Bvh)
    requires
        bwf(left, slots@),
        bwf(right, slots@),
        slots_wf(slots@),
        ids(left).disjoint(ids(right)),
        aabb.stored(),
        aabb.contains(bbox(left, slots@)),
        aabb.contains(bbox(right, slots@)),
    ensures
        bwf(r, slots@),
        ids(r) == ids(left).union(ids(right)),
        bbox(r, slots@) == aabb,
{
    let ghost l0 = left;
    let ghost r0 = right;
    match right {
        Bvh::Branch(rb) => {
            let (ra, rl, rr) = take_branch(rb, pool);
            assert(ids(r0) == ids(rl).union(ids(rr)));
            assert(bwf(rl, slots@) && bwf(rr, slots@) && ids(rl).disjoint(ids(rr)));
            proof {
                lemma_contains_trans(aabb, ra, bbox(rl, slots@));
                lemma_contains_trans(aabb, ra, bbox(rr, slots@));
                lemma_area_bound(ra);
            }
            let bl = bvh_box(&left, slots);
            let brl = bvh_box(&rl, slots);
            let brr = bvh_box(&rr, slots);
            let base = ra.surface_area();
            let keep_rr = bl.merged(&brr);
            let keep_rl = brl.merged(&bl);
            proof {
                lemma_area_bound(keep_rr);
                lemma_area_bound(keep_rl);
            }
            let cost_rr = keep_rr.surface_area();
            let cost_rl = keep_rl.surface_area();
            if cost_rr < base && cost_rr <= cost_rl {
                let ghost rr0 = rr;
                let inner = make_branch(keep_rr, left, rr, pool);
                assert(ids(inner) == ids(l0).union(ids(rr0)));
                assert(bwf(inner, slots@));
                let r = make_branch(aabb, rl, inner, pool);
                assert(ids(r) =~= ids(l0).union(ids(r0)));
                r
            } else if cost_rl < base {
                let ghost rl0 = rl;
                let inner = make_branch(keep_rl, rl, left, pool);
                assert(ids(inner) == ids(rl0).union(ids(l0)));
                assert(bwf(inner, slots@));
                let r = make_branch(aabb, inner, rr, pool);
                assert(ids(r) =~= ids(l0).union(ids(r0)));
                r
            } else {
                let back = make_branch(ra, rl, rr, pool);
                make_branch(aabb, left, back, pool)
            }
        },
        Bvh::Leaf(j) => {
            match left {
                Bvh::Branch(lb) => {
                    let (la, ll, lr) = take_branch(lb, pool);
                    assert(ids(l0) == ids(ll).union(ids(lr)));
                    assert(bwf(ll, slots@) && bwf(lr, slots@) && ids(ll).disjoint(ids(lr)));
                    proof {
                        lemma_contains_trans(aabb, la, bbox(ll, slots@));
                        lemma_contains_trans(aabb, la, bbox(lr, slots@));
                        lemma_area_bound(la);
                    }
                    let right = Bvh::Leaf(j);
                    let br = bvh_box(&right, slots);
                    let bll = bvh_box(&ll, slots);
                    let blr = bvh_box(&lr, slots);
                    let base = la.surface_area();
                    let keep_ll = bll.merged(&br);
                    let keep_lr = br.merged(&blr);
                    proof {
                        lemma_area_bound(keep_ll);
                        lemma_area_bound(keep_lr);
                    }
                    let cost_ll = keep_ll.surface_area();
                    let cost_lr = keep_lr.surface_area();
                    if cost_ll < base && cost_ll <= cost_lr {
                        let ghost ll0 = ll;
                        let inner = make_branch(keep_ll, ll, right, pool);
                        assert(ids(inner) == ids(ll0).union(ids(r0)));
                        assert(bwf(inner, slots@));
                        let r = make_branch(aabb, inner, lr, pool);
                        assert(ids(r) =~= ids(l0).union(ids(r0)));
                        r
                    } else if cost_lr < base {
                        let ghost lr0 = lr;
                        let inner = make_branch(keep_lr, right, lr, pool);
                        assert(ids(inner) == ids(r0).union(ids(lr0)));
                        assert(bwf(inner, slots@));
                        let r = make_branch(aabb, ll, inner, pool);
                        assert(ids(r) =~= ids(l0).union(ids(r0)));
                        r
                    } else {
                        let back = make_branch(la, ll, lr, pool);
                        make_branch(aabb, back, right, pool)
                    }
                },
                Bvh::Leaf(i) => {
                    make_branch(aabb, Bvh::Leaf(i), Bvh::Leaf(j), pool)
                },
            }
        },
    }
}

/// Adds leaf slot `i` below `t`, going down towards the least growth of
/// surface area and stopping where a new parent costs least.
fn insert_bvh(
    t: Bvh,
    i: usize,
    fat: &Aabb,
    slots: &Vec<Option<LeafEntry>>,
    pool: &mut Vec<Box<Branch>>,
) -> (r: Bvh)
    requires
        bwf(t, slots@),
        slots_wf(slots@),
        !ids(t).contains(i as int),
        i < slots@.len(),
        slots@[i as int] is Some,
        slots@[i as int].unwrap().fat == *fat,
        fat.stored(),
    ensures
        bwf(r, slots@),
        ids(r) == ids(t).insert(i as int),
        bbox(r, slots@) == bbox(t, slots@).union(*fat),
    decreases t,
{
    match t {
        Bvh::Leaf(j) => {
            let fj = slots[j].unwrap().fat;
            let r = make_branch(fj.merged(fat), Bvh::Leaf(j), Bvh::Leaf(i), pool);
            assert(slots@[j as int].unwrap().wf());
            assert(bwf(Bvh::Leaf(j), slots@));
            assert(bwf(Bvh::Leaf(i), slots@));
            assert(ids(Bvh::Leaf(j)) == set![j as int]);
            assert(ids(Bvh::Leaf(i)) == set![i as int]);
            assert(ids(r) =~= ids(t).insert(i as int));
            r
        },
        Bvh::Branch(b) => {
            let ghost tt = t;
            let (aabb, left, right) = take_branch(b, pool);
            assert(ids(tt) == ids(left).union(ids(right)));
            proof {
                lemma_area_bound(aabb);
                lemma_area_bound(aabb.union(*fat));
            }
            let area = aabb.surface_area();
            let combined = aabb.merged(fat);
            let combined_area = combined.surface_area();
            let cost = 2 * combined_area;
            let inherit = 2 * (combined_area - area);
            let cost_left = descend_cost(&left, fat, slots) + inherit;
            let cost_right = descend_cost(&right, fat, slots) + inherit;
            if cost < cost_left && cost < cost_right {
                let inner = make_branch(aabb, left, right, pool);
                assert(inner == tt);
                let r = make_branch(combined, inner, Bvh::Leaf(i), pool);
                assert(bwf(Bvh::Leaf(i), slots@));
                assert(ids(Bvh::Leaf(i)) == set![i as int]);
                assert(ids(r) =~= ids(tt).insert(i as int));
                r
            } else if cost_left <= cost_right {
                let nl = insert_bvh(left, i, fat, slots, pool);
                let r = balanced(combined, nl, right, slots, pool);
                assert(ids(r) =~= ids(tt).insert(i as int));
                r
            } else {
                let nr = insert_bvh(right, i, fat, slots, pool);
                let r = balanced(combined, left, nr, slots, pool);
                assert(ids(r) =~= ids(tt).insert(i as int));
                r
            }
        },
    }
}

/// A branch over two subtrees with its box fitted to theirs.
fn refit(
    left: Bvh,
    right: Bvh,
    slots: &Vec<Option<LeafEntry>>,
    pool: &mut Vec<Box<Branch>>,
) -> (r: Bvh)
    requires
        bwf(left, slots@),
        bwf(right, slots@),
        slots_wf(slots@),
        ids(left).disjoint(ids(right)),
    ensures
        bwf(r, slots@),
        ids(r) == ids(left).union(ids(right)),
        bbox(r, slots@) == bbox(left, slots@).union(bbox(right, slots@)),
{
    let bl = bvh_box(&left, slots);
    let br = bvh_box(&right, slots);
    make_branch(bl.merged(&br), left, right, pool)
}

/// Takes leaf slot `i` out of `t`. The second result says whether `i` was
/// below `t`; if it was not, `t` comes back unchanged.
fn remove_bvh(
    t: Bvh,
    i: usize,
    fat: &Aabb,
    slots: &Vec<Option<LeafEntry>>,
    pool: &mut Vec<Box<Branch>>,
) -> (r: (
    Option<Bvh>,
    bool,
))
    requires
        bwf(t, slots@),
        slots_wf(slots@),
        i < slots@.len(),
        slots@[i as int] is Some,
        slots@[i as int].unwrap().fat == *fat,
    ensures
        r.1 == ids(t).contains(i as int),
        !r.1 ==> r.0 == Some(t),
        r.1 ==> match r.0 {
            None => ids(t) == set![i as int],
            Some(u) => {
                &&& bwf(u, slots@)
                &&& ids(u) == ids(t).remove(i as int)
                &&& bbox(t, slots@).contains(bbox(u, slots@))
            },
        },
    decreases t,
{
    match t {
        Bvh::Leaf(j) => {
            if j == i {
                (None, true)
            } else {
                (Some(Bvh::Leaf(j)), false)
            }
        },
        Bvh::Branch(b) => {
            if !b.aabb.contains_box(fat) {
                proof {
                    if ids(t).contains(i as int) {
                        lemma_bbox_holds(t, slots@, i as int);
                    }
                }
                return (Some(Bvh::Branch(b)), false);
            }
            let ghost tt = t;
            let (aabb, left, right) = take_branch(b, pool);
            let ghost old_left = left;
            let (nl, found) = remove_bvh(left, i, fat, slots, pool);
            if found {
                proof {
                    assert(!ids(right).contains(i as int));
                }
                match nl {
                    None => {
                        assert(ids(right) =~= ids(tt).remove(i as int));
                        (Some(right), true)
                    },
                    Some(l2) => {
                        proof {
                            lemma_contains_trans(aabb, bbox(old_left, slots@), bbox(l2, slots@));
                        }
                        let r = refit(l2, right, slots, pool);
                        assert(ids(r) =~= ids(tt).remove(i as int));
                        (Some(r), true)
                    },
                }
            } else {
                let left = nl.unwrap();
                let ghost old_right = right;
                let (nr, found_r) = remove_bvh(right, i, fat, slots, pool);
                if found_r {
                    match nr {
                        None => {
                            assert(ids(left) =~= ids(tt).remove(i as int));
                            (Some(left), true)
                        },
                        Some(r2) => {
                            proof {
                                lemma_contains_trans(aabb, bbox(old_right, slots@), bbox(r2, slots@));
                            }
                            let r = refit(left, r2, slots, pool);
                            assert(ids(r) =~= ids(tt).remove(i as int));
                            (Some(r), true)
                        },
                    }
                } else {
                    let right = nr.unwrap();
                    (Some(make_branch(aabb, left, right, pool)), false)
                }
            }
        },
    }
}

/// The hierarchy holds every filled slot but `i`.
pub open spec fn holds_all_but(root: Option<Bvh>, slots: Seq<Option<LeafEntry>>, i: int) -> bool {
    match root {
        None => forall|j: int| 0 <= j < slots.len() && j != i ==> (#[trigger] slots[j]) is None,
        Some(t) => {
            &&& bwf(t, slots)
            &&& forall|j: int|
                #[trigger] ids(t).contains(j) <==> (0 <= j < slots.len() && slots[j] is Some && j
                    != i)
        },
    }
}

impl DynamicAabbTree {
    /// The tree's invariant: filled slots hold well-formed leaves, the free
    /// list names distinct empty slots, and the hierarchy holds exactly the
    /// filled slots.
    pub closed spec fn wf(&self) -> bool {
        &&& slots_wf(self.slots@)
        &&& self.free@.no_duplicates()
        &&& forall|k: int|
            0 <= k < self.free@.len() ==> (#[trigger] self.free@[k]) < self.slots@.len()
                && self.slots@[self.free@[k] as int] is None
        &&& match self.root {
            None => forall|i: int| 0 <= i < self.slots@.len() ==> (#[trigger] self.slots@[i]) is None,
            Some(t) => {
                &&& bwf(t, self.slots@)
                &&& forall|i: int|
                    #[trigger] ids(t).contains(i) <==> (0 <= i < self.slots@.len()
                        && self.slots@[i] is Some)
            },
        }
    }

    /// The hierarchy, the free list and the arena's size: everything an
    /// in-place change of a leaf leaves alone.
    pub closed spec fn structure(&self) -> (Option<Bvh>, Seq<usize>, nat) {
        (self.root, self.free@, self.slots@.len())
    }

    /// The leaves of the tree by node id.
    pub closed spec fn leaves(&self) -> Map<int, LeafEntry> {
        Map::new(
            |i: int| 0 <= i < self.slots@.len() && self.slots@[i] is Some,
            |i: int| self.slots@[i].unwrap(),
        )
    }

    /// An empty tree.
    pub fn new() -> (r: DynamicAabbTree)
        ensures
            r.wf(),
            r.leaves() == Map::<int, LeafEntry>::empty(),
    {
        let r = DynamicAabbTree { slots: Vec::new(), free: Vec::new(), root: None, spare: Vec::new() };
        assert(r.leaves() =~= Map::<int, LeafEntry>::empty());
        r
    }

    /// Number of leaves.
    pub fn len(&self) -> (r: usize)
        requires
            self.wf(),
        ensures
            r == self.leaves().len(),
    {
        let mut n: usize = 0;
        let mut i: usize = 0;
        assert(Set::new(|j: int| 0 <= j < 0 && self.slots@[j] is Some) =~= Set::<int>::empty());
        while i < self.slots.len()
            invariant
                i <= self.slots@.len(),
                n <= i,
                n == Set::new(|j: int| 0 <= j < i && self.slots@[j] is Some).len(),
            decreases self.slots@.len() - i,
        {
            let ghost before = Set::new(|j: int| 0 <= j < i && self.slots@[j] is Some);
            proof {
                lemma_prefix_set_finite(self.slots@, i as int);
            }
            if self.slots[i].is_some() {
                assert(Set::new(|j: int| 0 <= j < i + 1 && self.slots@[j] is Some) =~= before.insert(
                    i as int,
                ));
                n = n + 1;
            } else {
                assert(Set::new(|j: int| 0 <= j < i + 1 && self.slots@[j] is Some) =~= before);
            }
            i = i + 1;
        }
        assert(self.leaves().dom() =~= Set::new(
            |j: int| 0 <= j < self.slots@.len() && self.slots@[j] is Some,
        ));
        n
    }

    /// Appends to `out` the entity of every leaf whose fattened box overlaps
    /// `r`. Every leaf whose tight box meets `r` is reported; a reported
    /// entity may belong to a leaf whose tight box misses `r`.
    pub fn query(&self, r: &Aabb, out: &mut Vec<u64>)
        requires
            self.wf(),
        ensures
            extends(old(out)@, final(out)@),
            forall|id: int|
                self.leaves().dom().contains(id) && self.leaves()[id].tight.overlaps(*r)
                    ==> appended(old(out)@, final(out)@, #[trigger] self.leaves()[id].entity),
            forall|k: int|
                old(out)@.len() <= k < final(out)@.len() ==> leaf_near(
                    self.leaves(),
                    #[trigger] final(out)@[k],
                    *r,
                ),
    {
        let ghost o0 = out@;
        match &self.root {
            None => {
                assert(out@.take(o0.len() as int) =~= o0);
            },
            Some(t) => {
                query_bvh(t, &self.slots, r, out);
                assert forall|id: int|
                    self.leaves().dom().contains(id) && self.leaves()[id].tight.overlaps(
                        *r,
                    ) implies appended(o0, out@, #[trigger] self.leaves()[id].entity) by {
                    assert(ids(*t).contains(id));
                }
                assert forall|k: int| o0.len() <= k < out@.len() implies leaf_near(
                    self.leaves(),
                    #[trigger] out@[k],
                    *r,
                ) by {
                    assert(slot_near(*t, self.slots@, out@[k], *r));
                    let id = choose|id: int|
                        ids(*t).contains(id) && self.slots@[id].unwrap().entity == out@[k]
                            && self.slots@[id].unwrap().fat.overlaps(*r);
                    assert(self.leaves().dom().contains(id));
                }
            },
        }
    }

    /// Inserts a leaf for `entity` with the given tight box; its fattened box
    /// is the tight box grown by the margin. Returns the new leaf's id.
    pub fn allocate_leaf(&mut self, entity: u64, tight: Aabb) -> (id: NodeId)
        requires
            old(self).wf(),
            tight.valid(),
        ensures
            final(self).wf(),
            !old(self).leaves().dom().contains(id.0 as int),
            final(self).leaves() == old(self).leaves().insert(
                id.0 as int,
                LeafEntry { entity, tight, fat: tight.expanded(crate::geometry::FAT_MARGIN) },
            ),
    {
        let ghost s0 = self.slots@;
        let fat = tight.fattened();
        let entry = LeafEntry { entity, tight, fat };
        let i = match self.free.pop() {
            Some(i) => {
                proof {
                    assert(old(self).free@[old(self).free@.len() - 1] == i);
                    assert(self.free@ =~= old(self).free@.drop_last());
                    assert forall|x: int, y: int|
                        0 <= x < self.free@.len() && 0 <= y < self.free@.len() && x != y
                            implies self.free@[x] != self.free@[y] by {
                        assert(self.free@[x] == old(self).free@[x]);
                        assert(self.free@[y] == old(self).free@[y]);
                    }
                    assert forall|k: int| 0 <= k < self.free@.len() implies (#[trigger] self.free@[k])
                        != i by {
                        assert(self.free@[k] == old(self).free@[k]);
                    }
                }
                self.slots.set(i, Some(entry));
                i
            },
            None => {
                let i = self.slots.len();
                self.slots.push(Some(entry));
                i
            },
        };
        assert(i < s0.len() ==> s0[i as int] is None);
        assert(self.slots@ == s0.update(i as int, Some(entry)) || self.slots@ == s0.push(
            Some(entry),
        ));
        assert(slots_wf(self.slots@));
        assert forall|k: int| 0 <= k < self.free@.len() implies (#[trigger] self.free@[k])
            < self.slots@.len() && self.slots@[self.free@[k] as int] is None by {
            assert(self.free@[k] == old(self).free@[k]);
        }
        let root = self.root.take();
        match root {
            None => {
                let t = Bvh::Leaf(i);
                assert forall|j: int| #[trigger] ids(t).contains(j) <==> (0 <= j < self.slots@.len()
                    && self.slots@[j] is Some) by {
                    if j != i as int && 0 <= j < s0.len() {
                        assert(s0[j] is None);
                    }
                }
                self.root = Some(t);
            },
            Some(t) => {
                proof {
                    assert forall|j: int| #[trigger] ids(t).contains(j) implies self.slots@[j] is Some
                        && self.slots@[j].unwrap().fat == s0[j].unwrap().fat by {
                        assert(j != i as int);
                    }
                    lemma_bvh_frame(t, s0, self.slots@);
                }
                let nt = insert_bvh(t, i, &fat, &self.slots, &mut self.spare);
                self.root = Some(nt);
            },
        }
        assert(self.leaves() =~= old(self).leaves().insert(i as int, entry));
        NodeId(i)
    }

    /// Removes leaf `id`; its slot goes to the free list. An id that names
    /// no leaf is ignored.
    pub fn remove(&mut self, id: NodeId)
        requires
            old(self).wf(),
        ensures
            final(self).wf(),
            final(self).leaves() == old(self).leaves().remove(id.0 as int),
    {
        let i = id.0;
        if i >= self.slots.len() || self.slots[i].is_none() {
            assert(old(self).leaves().remove(i as int) =~= old(self).leaves());
            return ;
        }
        let fat = self.slots[i].unwrap().fat;
        self.detach(i, &fat);
        let ghost s1 = self.slots@;
        self.slots.set(i, None);
        proof {
            if self.root is Some {
                let t = self.root->Some_0;
                assert forall|j: int| #[trigger] ids(t).contains(j) implies self.slots@[j] is Some
                    && self.slots@[j].unwrap().fat == s1[j].unwrap().fat by {}
                lemma_bvh_frame(t, s1, self.slots@);
            }
            assert forall|k: int| 0 <= k < self.free@.len() implies self.free@[k] != i by {}
        }
        self.free.push(i);
        proof {
            assert forall|x: int, y: int|
                0 <= x < self.free@.len() && 0 <= y < self.free@.len() && x != y implies self.free@[x]
                != self.free@[y] by {}
        }
        assert(self.leaves() =~= old(self).leaves().remove(i as int));
    }

    /// Takes filled slot `i` out of the hierarchy; the slot itself is kept.
    fn detach(&mut self, i: usize, fat: &Aabb)
        requires
            old(self).wf(),
            i < old(self).slots@.len(),
            old(self).slots@[i as int] is Some,
            old(self).slots@[i as int].unwrap().fat == *fat,
        ensures
            final(self).slots@ == old(self).slots@,
            final(self).free@ == old(self).free@,
            slots_wf(final(self).slots@),
            holds_all_but(final(self).root, final(self).slots@, i as int),
    {
        let root = self.root.take();
        match root {
            None => {
                assert(false);
            },
            Some(t) => {
                assert(ids(t).contains(i as int));
                let (nt, found) = remove_bvh(t, i, fat, &self.slots, &mut self.spare);
                proof {
                    match &nt {
                        None => {
                            assert forall|j: int|
                                0 <= j < self.slots@.len() && j != i implies (
                                #[trigger] self.slots@[j]) is None by {
                                if self.slots@[j] is Some {
                                    assert(ids(t).contains(j));
                                }
                            }
                        },
                        Some(u) => {
                            assert forall|j: int| #[trigger] ids(*u).contains(j) <==> (0 <= j
                                < self.slots@.len() && self.slots@[j] is Some && j != i) by {
                                assert(ids(t).contains(j) <==> (0 <= j < self.slots@.len()
                                    && self.slots@[j] is Some));
                            }
                        },
                    }
                }
                self.root = nt;
            },
        }
    }

    /// Moves leaf `id` to a new tight box. When the box still fits inside
    /// the leaf's fattened box only the tight box changes and the result is
    /// false; otherwise the leaf is taken out and inserted again with a
    /// freshly fattened box, and the result is true. An id that names no
    /// leaf is ignored.
    pub fn update(&mut self, id: NodeId, tight: Aabb) -> (changed: bool)
        requires
            old(self).wf(),
            tight.valid(),
        ensures
            final(self).wf(),
            !changed ==> final(self).structure() == old(self).structure(),
            !old(self).leaves().dom().contains(id.0 as int) ==> !changed && final(self).leaves()
                == old(self).leaves(),
            old(self).leaves().dom().contains(id.0 as int) ==> {
                let e = old(self).leaves()[id.0 as int];
                &&& changed == !e.fat.contains(tight)
                &&& final(self).leaves() == old(self).leaves().insert(
                    id.0 as int,
                    LeafEntry {
                        entity: e.entity,
                        tight,
                        fat: if changed {
                            tight.expanded(crate::geometry::FAT_MARGIN)
                        } else {
                            e.fat
                        },
                    },
                )
            },
    {
        let i = id.0;
        if i >= self.slots.len() || self.slots[i].is_none() {
            return false;
        }
        let e = self.slots[i].unwrap();
        let ghost s0 = self.slots@;
        if e.fat.contains_box(&tight) {
            let ne = LeafEntry { entity: e.entity, tight, fat: e.fat };
            self.slots.set(i, Some(ne));
            proof {
                if self.root is Some {
                    let t = self.root->Some_0;
                    assert forall|j: int| #[trigger] ids(t).contains(j) implies self.slots@[j] is Some
                        && self.slots@[j].unwrap().fat == s0[j].unwrap().fat by {}
                    lemma_bvh_frame(t, s0, self.slots@);
                    assert forall|j: int| #[trigger] ids(t).contains(j) <==> (0 <= j
                        < self.slots@.len() && self.slots@[j] is Some) by {
                        assert(ids(t).contains(j) <==> (0 <= j < s0.len() && s0[j] is Some));
                    }
                }
                assert forall|k: int| 0 <= k < self.free@.len() implies (#[trigger] self.free@[k])
                    < self.slots@.len() && self.slots@[self.free@[k] as int] is None by {
                    assert(s0[self.free@[k] as int] is None);
                }
            }
            assert(self.leaves() =~= old(self).leaves().insert(i as int, ne));
            return false;
        }
        self.detach(i, &e.fat);
        let fat = tight.fattened();
        let ne = LeafEntry { entity: e.entity, tight, fat };
        let ghost s1 = self.slots@;
        self.slots.set(i, Some(ne));
        proof {
            assert forall|k: int| 0 <= k < self.free@.len() implies (#[trigger] self.free@[k])
                < self.slots@.len() && self.slots@[self.free@[k] as int] is None by {
                assert(s0[self.free@[k] as int] is None);
            }
        }
        let root = self.root.take();
        match root {
            None => {
                let t = Bvh::Leaf(i);
                assert forall|j: int| #[trigger] ids(t).contains(j) <==> (0 <= j < self.slots@.len()
                    && self.slots@[j] is Some) by {
                    if j != i as int && 0 <= j < s1.len() {
                        assert(s1[j] is None);
                    }
                }
                self.root = Some(t);
            },
            Some(t) => {
                proof {
                    assert forall|j: int| #[trigger] ids(t).contains(j) implies self.slots@[j] is Some
                        && self.slots@[j].unwrap().fat == s1[j].unwrap().fat by {
                        assert(j != i as int);
                    }
                    lemma_bvh_frame(t, s1, self.slots@);
                }
                let nt = insert_bvh(t, i, &fat, &self.slots, &mut self.spare);
                self.root = Some(nt);
            },
        }
        assert(self.leaves() =~= old(self).leaves().insert(i as int, ne));
        true
    }
}

impl Default for DynamicAabbTree {
    fn default() -> (r: DynamicAabbTree)
        ensures
            r.wf(),
            r.leaves() == Map::<int, LeafEntry>::empty(),
    {
        DynamicAabbTree::new()
    }
}

proof fn lemma_prefix_set_finite(slots: Seq<Option<LeafEntry>>, n: int)
    ensures
        Set::new(|j: int| 0 <= j < n && slots[j] is Some).finite(),
        Set::new(|j: int| 0 <= j < n && slots[j] is Some).len() <= if n >= 0 { n } else { 0 },
    decreases n,
{
    let s = Set::new(|j: int| 0 <= j < n && slots[j] is Some);
    if n <= 0 {
        assert(s =~= Set::empty());
    } else {
        lemma_prefix_set_finite(slots, n - 1);
        let p = Set::new(|j: int| 0 <= j < n - 1 && slots[j] is Some);
        if slots[n - 1] is Some {
            assert(s =~= p.insert(n - 1));
        } else {
            assert(s =~= p);
        }
    }
}

/// The pairs `(e, x)` that `out` adds to `before`, for leaves `x` of the tree
/// other than `e`, include every leaf whose tight box meets `r`.
pub open spec fn pairs_cover(
    leaves: Map<int, LeafEntry>,
    before: Seq<(u64, u64)>,
    out: Seq<(u64, u64)>,
    e: u64,
    r: Aabb,
) -> bool {
    forall|id: int|
        leaves.dom().contains(id) && leaves[id].tight.overlaps(r) && leaves[id].entity != e
            ==> exists|k: int|
            before.len() <= k < out.len() && out[k] == (e, #[trigger] leaves[id].entity)
}

impl DynamicAabbTree {
    /// Candidate pairs for the narrow phase: for each moving entity and its
    /// box, in order, the pairs `(entity, other)` for every other entity
    /// whose leaf the tree reports for that box. `scratch` is a reusable
    /// buffer.
    pub fn candidate_pairs(
        &self,
        moving: &Vec<(u64, Aabb)>,
        scratch: &mut Vec<u64>,
        out: &mut Vec<(u64, u64)>,
    )
        requires
            self.wf(),
        ensures
            final(out)@.len() >= old(out)@.len(),
            forall|m: int|
                0 <= m < moving@.len() ==> pairs_cover(
                    self.leaves(),
                    old(out)@,
                    final(out)@,
                    (#[trigger] moving@[m]).0,
                    moving@[m].1,
                ),
            forall|k: int|
                old(out)@.len() <= k < final(out)@.len() ==> (#[trigger] final(out)@[k]).0
                    != final(out)@[k].1,
    {
        let ghost o0 = out@;
        let mut m: usize = 0;
        while m < moving.len()
            invariant
                self.wf(),
                m <= moving@.len(),
                out@.len() >= o0.len(),
                forall|x: int|
                    0 <= x < m ==> pairs_cover(
                        self.leaves(),
                        o0,
                        out@,
                        (#[trigger] moving@[x]).0,
                        moving@[x].1,
                    ),
                forall|k: int| o0.len() <= k < out@.len() ==> (#[trigger] out@[k]).0 != out@[k].1,
            decreases moving@.len() - m,
        {
            let (e, r) = moving[m];
            scratch.clear();
            let ghost s0 = scratch@;
            self.query(&r, scratch);
            let ghost o1 = out@;
            let mut q: usize = 0;
            while q < scratch.len()
                invariant
                    q <= scratch@.len(),
                    out@.len() >= o1.len(),
                    o1.len() >= o0.len(),
                    out@.take(o1.len() as int) == o1,
                    forall|k: int| o0.len() <= k < out@.len() ==> (#[trigger] out@[k]).0 != out@[k].1,
                    forall|j: int|
                        0 <= j < q && scratch@[j] != e ==> exists|k: int|
                            o1.len() <= k < out@.len() && out@[k] == (e, #[trigger] scratch@[j]),
                decreases scratch@.len() - q,
            {
                let x = scratch[q];
                if x != e {
                    let ghost before = out@;
                    out.push((e, x));
                    assert(out@.take(o1.len() as int) =~= o1) by {
                        assert(before.take(o1.len() as int) == o1);
                    }
                    assert forall|j: int|
                        0 <= j < q + 1 && scratch@[j] != e implies exists|k: int|
                            o1.len() <= k < out@.len() && out@[k] == (e, #[trigger] scratch@[j]) by {
                        if j < q {
                            let k = choose|k: int|
                                o1.len() <= k < before.len() && before[k] == (e, scratch@[j]);
                            assert(out@[k] == before[k]);
                        } else {
                            assert(out@[before.len() as int] == (e, scratch@[j]));
                        }
                    }
                }
                q = q + 1;
            }
            proof {
                assert forall|x: int|
                    0 <= x < m + 1 implies pairs_cover(
                    self.leaves(),
                    o0,
                    out@,
                    (#[trigger] moving@[x]).0,
                    moving@[x].1,
                ) by {
                    if x < m {
                        assert forall|id: int|
                            self.leaves().dom().contains(id) && self.leaves()[id].tight.overlaps(
                                moving@[x].1,
                            ) && self.leaves()[id].entity != moving@[x].0 implies exists|k: int|
                            o0.len() <= k < out@.len() && out@[k] == (
                                moving@[x].0,
                                #[trigger] self.leaves()[id].entity,
                            ) by {
                            let k = choose|k: int|
                                o0.len() <= k < o1.len() && o1[k] == (
                                    moving@[x].0,
                                    self.leaves()[id].entity,
                                );
                            assert(out@.take(o1.len() as int)[k] == o1[k]);
                        }
                    } else {
                        assert forall|id: int|
                            self.leaves().dom().contains(id) && self.leaves()[id].tight.overlaps(r)
                                && self.leaves()[id].entity != e implies exists|k: int|
                            o0.len() <= k < out@.len() && out@[k] == (
                                e,
                                #[trigger] self.leaves()[id].entity,
                            ) by {
                            assert(appended(s0, scratch@, self.leaves()[id].entity));
                            let j = choose|j: int|
                                s0.len() <= j < scratch@.len() && scratch@[j]
                                    == self.leaves()[id].entity;
                            assert(scratch@[j] != e);
                        }
                    }
                }
            }
            m = m + 1;
        }
    }
}

} // verus!
