//! Boolean intersection test of two convex point sets (GJK) in exact
//! integer arithmetic.
//!
//! The search builds a simplex of points of the Minkowski difference
//! `A - B`, each one the support point in the current search direction,
//! and reduces it to the feature nearest the origin. It reports an
//! intersection only with a tetrahedron of difference points that holds the
//! origin, which proves that the shapes share a point.

use vstd::prelude::*;
use crate::geometry::Vec3i;

verus! {

/// Largest absolute coordinate of a collider point or offset.
pub const SHAPE_LIMIT: i64 = 524288;

/// Most simplex refinements before the search gives up.
pub const GJK_MAX_ITERATIONS: usize = 64;

/// Collision layer of a collider; no filtering depends on it.
#[derive(Clone, Copy, Debug, PartialEq, Eq, Structural)]
pub enum CollisionLayer {
    Default,
}

/// A convex shape given by its hull points, in the shape's own frame.
pub struct ConvexCollider {
    pub points: Vec<Vec3i>,
    pub layer: CollisionLayer,
}

/// Four points of the Minkowski difference.
#[derive(Clone, Copy, Debug, PartialEq, Eq, Structural)]
pub struct Simplex {
    pub a: Vec3i,
    pub b: Vec3i,
    pub c: Vec3i,
    pub d: Vec3i,
}

/// The terminal simplex of a successful search.
#[derive(Clone, Copy, Debug, PartialEq, Eq, Structural)]
pub struct GjkHit {
    pub simplex: Simplex,
}

#[derive(Clone, Copy, Debug, PartialEq, Eq, Structural)]
pub enum GjkResult {
    Intersection(GjkHit),
    NoIntersection,
}

/// What the search established: an intersection with an enclosing
/// tetrahedron, a separating direction, shapes that touch (the origin is
/// itself a point of the difference), or nothing within the iteration cap.
#[derive(Clone, Copy, Debug, PartialEq, Eq, Structural)]
pub enum GjkOutcome {
    Intersection(GjkHit),
    Separated(Dir),
    Touching,
    Exhausted,
}

pub open spec fn pt_ok(p: Vec3i) -> bool {
    -SHAPE_LIMIT <= p.x <= SHAPE_LIMIT && -SHAPE_LIMIT <= p.y <= SHAPE_LIMIT && -SHAPE_LIMIT <= p.z
        <= SHAPE_LIMIT
}

/// The corner `(sx h, sy h, sz h)` of a cube of half side `h`.
pub open spec fn corner(h: int, sx: int, sy: int, sz: int) -> Vec3i {
    Vec3i { x: (sx * h) as i64, y: (sy * h) as i64, z: (sz * h) as i64 }
}

impl ConvexCollider {
    /// At least one point, every coordinate within the shape limit.
    pub open spec fn wf(&self) -> bool {
        &&& self.points@.len() > 0
        &&& forall|i: int| 0 <= i < self.points@.len() ==> pt_ok(#[trigger] self.points@[i])
    }

    /// A cube of the given side centred on the origin, sides rounded down
    /// to an even number of units.
    pub fn cube(side: i64, layer: CollisionLayer) -> (r: ConvexCollider)
        requires
            0 <= side <= 2 * SHAPE_LIMIT,
        ensures
            r.wf(),
            r.layer == layer,
            r.points@ == seq![
                corner(side / 2, -1, -1, -1),
                corner(side / 2, -1, -1, 1),
                corner(side / 2, -1, 1, -1),
                corner(side / 2, -1, 1, 1),
                corner(side / 2, 1, -1, -1),
                corner(side / 2, 1, -1, 1),
                corner(side / 2, 1, 1, -1),
                corner(side / 2, 1, 1, 1),
            ],
    {
        let h = side / 2;
        let mut points: Vec<Vec3i> = Vec::new();
        points.push(Vec3i::new(-h, -h, -h));
        points.push(Vec3i::new(-h, -h, h));
        points.push(Vec3i::new(-h, h, -h));
        points.push(Vec3i::new(-h, h, h));
        points.push(Vec3i::new(h, -h, -h));
        points.push(Vec3i::new(h, -h, h));
        points.push(Vec3i::new(h, h, -h));
        points.push(Vec3i::new(h, h, h));
        assert(points@ =~= seq![
            corner(side / 2, -1, -1, -1),
            corner(side / 2, -1, -1, 1),
            corner(side / 2, -1, 1, -1),
            corner(side / 2, -1, 1, 1),
            corner(side / 2, 1, -1, -1),
            corner(side / 2, 1, -1, 1),
            corner(side / 2, 1, 1, -1),
            corner(side / 2, 1, 1, 1),
        ]);
        ConvexCollider { points, layer }
    }
}

/// `p` is `a[i] + oa - (b[j] + ob)` for some hull points `a[i]`, `b[j]`.
pub open spec fn in_difference(a: Seq<Vec3i>, oa: Vec3i, b: Seq<Vec3i>, ob: Vec3i, p: Vec3i) -> bool {
    exists|i: int, j: int|
        0 <= i < a.len() && 0 <= j < b.len() && p.x == a[i].x + oa.x - b[j].x - ob.x && p.y == a[i].y
            + oa.y - b[j].y - ob.y && p.z == a[i].z + oa.z - b[j].z - ob.z
}

/// Six times the signed volume of the tetrahedron `(p, q, r, s)`.
pub open spec fn orient(p: Vec3i, q: Vec3i, r: Vec3i, s: Vec3i) -> int {
    let ux = q.x - p.x;
    let uy = q.y - p.y;
    let uz = q.z - p.z;
    let vx = r.x - p.x;
    let vy = r.y - p.y;
    let vz = r.z - p.z;
    let wx = s.x - p.x;
    let wy = s.y - p.y;
    let wz = s.z - p.z;
    ux * (vy * wz - vz * wy) - uy * (vx * wz - vz * wx) + uz * (vx * wy - vy * wx)
}

pub open spec fn origin() -> Vec3i {
    Vec3i { x: 0, y: 0, z: 0 }
}

/// The origin and `s` are not on opposite sides of the plane `(p, q, r)`.
pub open spec fn same_side(p: Vec3i, q: Vec3i, r: Vec3i, s: Vec3i) -> bool {
    orient(p, q, r, s) * orient(p, q, r, origin()) >= 0
}

/// The tetrahedron has volume and holds the origin (boundary included).
pub open spec fn encloses_origin(t: Simplex) -> bool {
    &&& orient(t.a, t.b, t.c, t.d) != 0
    &&& same_side(t.a, t.b, t.c, t.d)
    &&& same_side(t.a, t.b, t.d, t.c)
    &&& same_side(t.a, t.c, t.d, t.b)
    &&& same_side(t.b, t.c, t.d, t.a)
}

/// Bound on the coordinates of difference points.
pub open spec fn diff_ok(p: Vec3i) -> bool {
    -4 * SHAPE_LIMIT <= p.x <= 4 * SHAPE_LIMIT && -4 * SHAPE_LIMIT <= p.y <= 4 * SHAPE_LIMIT && -4
        * SHAPE_LIMIT <= p.z <= 4 * SHAPE_LIMIT
}

/// A search direction with components below `2^72`.
#[derive(Clone, Copy, Debug, PartialEq, Eq, Structural)]
pub struct Dir {
    pub x: i128,
    pub y: i128,
    pub z: i128,
}

pub open spec fn dir_ok(d: Dir) -> bool {
    -0x100_0000_0000_0000_0000 <= d.x <= 0x100_0000_0000_0000_0000 && -0x100_0000_0000_0000_0000
        <= d.y <= 0x100_0000_0000_0000_0000 && -0x100_0000_0000_0000_0000 <= d.z
        <= 0x100_0000_0000_0000_0000
}

pub open spec fn dot_spec(p: Vec3i, d: Dir) -> int {
    p.x * d.x + p.y * d.y + p.z * d.z
}

pub(crate) proof fn lemma_mul_bound(a: int, b: int, x: int, y: int)
    requires
        -x <= a <= x,
        -y <= b <= y,
        x >= 0,
        y >= 0,
    ensures
        -(x * y) <= a * b <= x * y,
{
    assert(-(x * y) <= a * b <= x * y) by (nonlinear_arith)
        requires
            -x <= a <= x,
            -y <= b <= y,
            x >= 0,
            y >= 0,
    ;
}

/// `p . d` for a point within `2^22` and a direction within `2^72`.
pub(crate) fn dot(p: Vec3i, d: &Dir) -> (r: i128)
    requires
        -0x40_0000 <= p.x <= 0x40_0000,
        -0x40_0000 <= p.y <= 0x40_0000,
        -0x40_0000 <= p.z <= 0x40_0000,
        dir_ok(*d),
    ensures
        r == dot_spec(p, *d),
{
    proof {
        lemma_mul_bound(p.x as int, d.x as int, 0x40_0000, 0x100_0000_0000_0000_0000);
        lemma_mul_bound(p.y as int, d.y as int, 0x40_0000, 0x100_0000_0000_0000_0000);
        lemma_mul_bound(p.z as int, d.z as int, 0x40_0000, 0x100_0000_0000_0000_0000);
    }
    p.x as i128 * d.x + p.y as i128 * d.y + p.z as i128 * d.z
}

/// Index of the hull point farthest along `d`; the lowest index wins a tie.
pub(crate) fn support_index(points: &Vec<Vec3i>, d: &Dir) -> (r: usize)
    requires
        points@.len() > 0,
        forall|i: int| 0 <= i < points@.len() ==> pt_ok(#[trigger] points@[i]),
        dir_ok(*d),
    ensures
        r < points@.len(),
        forall|k: int| 0 <= k < points@.len() ==> dot_spec(points@[k], *d) <= dot_spec(points@[r as int], *d),
        forall|k: int| 0 <= k < r ==> dot_spec(points@[k], *d) < dot_spec(points@[r as int], *d),
{
    let mut best: usize = 0;
    let mut best_dot = dot(points[0], d);
    let mut i: usize = 1;
    while i < points.len()
        invariant
            1 <= i <= points@.len(),
            best < i,
            forall|j: int| 0 <= j < points@.len() ==> pt_ok(#[trigger] points@[j]),
            dir_ok(*d),
            best_dot == dot_spec(points@[best as int], *d),
            forall|k: int| 0 <= k < i ==> dot_spec(points@[k], *d) <= best_dot,
            forall|k: int| 0 <= k < best ==> dot_spec(points@[k], *d) < best_dot,
        decreases points@.len() - i,
    {
        assert(pt_ok(points@[i as int]));
        let v = dot(points[i], d);
        if v > best_dot {
            best = i;
            best_dot = v;
        }
        i = i + 1;
    }
    best
}

/// Every component of `p` lies in `[-k, k]`.
pub open spec fn bnd(p: Vec3i, k: int) -> bool {
    -k <= p.x <= k && -k <= p.y <= k && -k <= p.z <= k
}

/// Every component of `d` lies in `[-k, k]`.
pub open spec fn dbnd(d: Dir, k: int) -> bool {
    -k <= d.x <= k && -k <= d.y <= k && -k <= d.z <= k
}

pub(crate) fn sub_v(p: Vec3i, q: Vec3i) -> (r: Vec3i)
    requires
        bnd(p, 0x20_0000),
        bnd(q, 0x20_0000),
    ensures
        bnd(r, 0x40_0000),
        r.x == p.x - q.x && r.y == p.y - q.y && r.z == p.z - q.z,
{
    Vec3i { x: p.x - q.x, y: p.y - q.y, z: p.z - q.z }
}

pub(crate) fn to_dir(p: Vec3i) -> (r: Dir)
    requires
        bnd(p, 0x40_0000),
    ensures
        dbnd(r, 0x40_0000),
        dir_ok(r),
        r.x == p.x && r.y == p.y && r.z == p.z,
{
    Dir { x: p.x as i128, y: p.y as i128, z: p.z as i128 }
}

pub(crate) fn neg_dir(d: &Dir) -> (r: Dir)
    requires
        dir_ok(*d),
    ensures
        dir_ok(r),
        r.x == -d.x && r.y == -d.y && r.z == -d.z,
        forall|k: int| dbnd(*d, k) ==> dbnd(r, k),
{
    Dir { x: -d.x, y: -d.y, z: -d.z }
}

pub(crate) fn is_zero(d: &Dir) -> (r: bool)
    ensures
        r == (d.x == 0 && d.y == 0 && d.z == 0),
{
    d.x == 0 && d.y == 0 && d.z == 0
}

/// Cross product of two point differences.
pub(crate) fn cross_vv(u: Vec3i, v: Vec3i) -> (r: Dir)
    requires
        bnd(u, 0x40_0000),
        bnd(v, 0x40_0000),
    ensures
        dbnd(r, 0x2000_0000_0000),
        dir_ok(r),
        r.x == u.y * v.z - u.z * v.y,
        r.y == u.z * v.x - u.x * v.z,
        r.z == u.x * v.y - u.y * v.x,
{
    proof {
        lemma_mul_bound(u.y as int, v.z as int, 0x40_0000, 0x40_0000);
        lemma_mul_bound(u.z as int, v.y as int, 0x40_0000, 0x40_0000);
        lemma_mul_bound(u.z as int, v.x as int, 0x40_0000, 0x40_0000);
        lemma_mul_bound(u.x as int, v.z as int, 0x40_0000, 0x40_0000);
        lemma_mul_bound(u.x as int, v.y as int, 0x40_0000, 0x40_0000);
        lemma_mul_bound(u.y as int, v.x as int, 0x40_0000, 0x40_0000);
    }
    let (ux, uy, uz) = (u.x as i128, u.y as i128, u.z as i128);
    let (vx, vy, vz) = (v.x as i128, v.y as i128, v.z as i128);
    Dir { x: uy * vz - uz * vy, y: uz * vx - ux * vz, z: ux * vy - uy * vx }
}

/// Cross product of a normal and a point difference.
pub(crate) fn cross_dv(n: &Dir, v: Vec3i) -> (r: Dir)
    requires
        dbnd(*n, 0x2000_0000_0000),
        bnd(v, 0x40_0000),
    ensures
        dir_ok(r),
{
    proof {
        lemma_mul_bound(n.y as int, v.z as int, 0x2000_0000_0000, 0x40_0000);
        lemma_mul_bound(n.z as int, v.y as int, 0x2000_0000_0000, 0x40_0000);
        lemma_mul_bound(n.z as int, v.x as int, 0x2000_0000_0000, 0x40_0000);
        lemma_mul_bound(n.x as int, v.z as int, 0x2000_0000_0000, 0x40_0000);
        lemma_mul_bound(n.x as int, v.y as int, 0x2000_0000_0000, 0x40_0000);
        lemma_mul_bound(n.y as int, v.x as int, 0x2000_0000_0000, 0x40_0000);
    }
    let (vx, vy, vz) = (v.x as i128, v.y as i128, v.z as i128);
    Dir { x: n.y * vz - n.z * vy, y: n.z * vx - n.x * vz, z: n.x * vy - n.y * vx }
}

/// `v x n` for a point difference and a normal.
pub(crate) fn cross_vd(v: Vec3i, n: &Dir) -> (r: Dir)
    requires
        dbnd(*n, 0x2000_0000_0000),
        bnd(v, 0x40_0000),
    ensures
        dir_ok(r),
{
    let m = cross_dv(n, v);
    neg_dir(&m)
}

/// The support point of the difference `A - B` in direction `d`.
pub(crate) fn minkowski_support(
    a: &ConvexCollider,
    oa: Vec3i,
    b: &ConvexCollider,
    ob: Vec3i,
    d: &Dir,
) -> (p: Vec3i)
    requires
        a.wf(),
        b.wf(),
        pt_ok(oa),
        pt_ok(ob),
        dir_ok(*d),
    ensures
        in_difference(a.points@, oa, b.points@, ob, p),
        diff_ok(p),
        forall|i: int, j: int|
            0 <= i < a.points@.len() && 0 <= j < b.points@.len() ==> dot_spec(
                #[trigger] diff_pt(a.points@[i], oa, #[trigger] b.points@[j], ob),
                *d,
            ) <= dot_spec(p, *d),
{
    let ia = support_index(&a.points, d);
    let nd = neg_dir(d);
    let ib = support_index(&b.points, &nd);
    let pa = a.points[ia];
    let pb = b.points[ib];
    assert(pt_ok(pa) && pt_ok(pb));
    let p = Vec3i {
        x: pa.x + oa.x - pb.x - ob.x,
        y: pa.y + oa.y - pb.y - ob.y,
        z: pa.z + oa.z - pb.z - ob.z,
    };
    assert(in_difference(a.points@, oa, b.points@, ob, p)) by {
        assert(0 <= ia < a.points@.len() && 0 <= ib < b.points@.len());
    }
    proof {
        assert(p == diff_pt(pa, oa, pb, ob));
        assert forall|i: int, j: int|
            0 <= i < a.points@.len() && 0 <= j < b.points@.len() implies dot_spec(
            #[trigger] diff_pt(a.points@[i], oa, #[trigger] b.points@[j], ob),
            *d,
        ) <= dot_spec(p, *d) by {
            let ai = a.points@[i];
            let bj = b.points@[j];
            assert(dot_spec(ai, *d) <= dot_spec(pa, *d));
            assert(dot_spec(bj, nd) <= dot_spec(pb, nd));
            lemma_dot_diff(ai, oa, bj, ob, *d);
            lemma_dot_diff(pa, oa, pb, ob, *d);
            lemma_dot_neg(bj, *d, nd);
            lemma_dot_neg(pb, *d, nd);
        }
    }
    p
}

/// `pa + oa - pb - ob` componentwise.
pub open spec fn diff_pt(pa: Vec3i, oa: Vec3i, pb: Vec3i, ob: Vec3i) -> Vec3i {
    Vec3i {
        x: (pa.x + oa.x - pb.x - ob.x) as i64,
        y: (pa.y + oa.y - pb.y - ob.y) as i64,
        z: (pa.z + oa.z - pb.z - ob.z) as i64,
    }
}

proof fn lemma_dot_diff(pa: Vec3i, oa: Vec3i, pb: Vec3i, ob: Vec3i, d: Dir)
    requires
        pt_ok(pa),
        pt_ok(oa),
        pt_ok(pb),
        pt_ok(ob),
    ensures
        dot_spec(diff_pt(pa, oa, pb, ob), d) == dot_spec(pa, d) + dot_spec(oa, d) - dot_spec(pb, d)
            - dot_spec(ob, d),
{
    let q = diff_pt(pa, oa, pb, ob);
    assert(q.x == pa.x + oa.x - pb.x - ob.x);
    assert(q.y == pa.y + oa.y - pb.y - ob.y);
    assert(q.z == pa.z + oa.z - pb.z - ob.z);
    assert(q.x * d.x == pa.x * d.x + oa.x * d.x - pb.x * d.x - ob.x * d.x) by (nonlinear_arith)
        requires
            q.x == pa.x + oa.x - pb.x - ob.x,
    ;
    assert(q.y * d.y == pa.y * d.y + oa.y * d.y - pb.y * d.y - ob.y * d.y) by (nonlinear_arith)
        requires
            q.y == pa.y + oa.y - pb.y - ob.y,
    ;
    assert(q.z * d.z == pa.z * d.z + oa.z * d.z - pb.z * d.z - ob.z * d.z) by (nonlinear_arith)
        requires
            q.z == pa.z + oa.z - pb.z - ob.z,
    ;
}

proof fn lemma_dot_neg(p: Vec3i, d: Dir, nd: Dir)
    requires
        nd.x == -d.x,
        nd.y == -d.y,
        nd.z == -d.z,
    ensures
        dot_spec(p, nd) == -dot_spec(p, d),
{
    assert(p.x * nd.x == -(p.x * d.x)) by (nonlinear_arith)
        requires
            nd.x == -d.x,
    ;
    assert(p.y * nd.y == -(p.y * d.y)) by (nonlinear_arith)
        requires
            nd.y == -d.y,
    ;
    assert(p.z * nd.z == -(p.z * d.z)) by (nonlinear_arith)
        requires
            nd.z == -d.z,
    ;
}

/// Exact `orient` of four difference points.
pub(crate) fn orient_exec(p: Vec3i, q: Vec3i, r: Vec3i, s: Vec3i) -> (o: i128)
    requires
        diff_ok(p),
        diff_ok(q),
        diff_ok(r),
        diff_ok(s),
    ensures
        o == orient(p, q, r, s),
{
    let ux = q.x as i128 - p.x as i128;
    let uy = q.y as i128 - p.y as i128;
    let uz = q.z as i128 - p.z as i128;
    let vx = r.x as i128 - p.x as i128;
    let vy = r.y as i128 - p.y as i128;
    let vz = r.z as i128 - p.z as i128;
    let wx = s.x as i128 - p.x as i128;
    let wy = s.y as i128 - p.y as i128;
    let wz = s.z as i128 - p.z as i128;
    proof {
        lemma_mul_bound(vy as int, wz as int, 0x40_0000, 0x40_0000);
        lemma_mul_bound(vz as int, wy as int, 0x40_0000, 0x40_0000);
        lemma_mul_bound(vx as int, wz as int, 0x40_0000, 0x40_0000);
        lemma_mul_bound(vz as int, wx as int, 0x40_0000, 0x40_0000);
        lemma_mul_bound(vx as int, wy as int, 0x40_0000, 0x40_0000);
        lemma_mul_bound(vy as int, wx as int, 0x40_0000, 0x40_0000);
    }
    let m1 = vy * wz - vz * wy;
    let m2 = vx * wz - vz * wx;
    let m3 = vx * wy - vy * wx;
    proof {
        lemma_mul_bound(ux as int, m1 as int, 0x40_0000, 0x2000_0000_0000);
        lemma_mul_bound(uy as int, m2 as int, 0x40_0000, 0x2000_0000_0000);
        lemma_mul_bound(uz as int, m3 as int, 0x40_0000, 0x2000_0000_0000);
    }
    ux * m1 - uy * m2 + uz * m3
}

/// Whether `x * y >= 0`, without forming the product.
pub(crate) fn same_sign(x: i128, y: i128) -> (r: bool)
    ensures
        r == (x * y >= 0),
{
    proof {
        assert((x >= 0 && y >= 0) ==> x * y >= 0) by (nonlinear_arith);
        assert((x <= 0 && y <= 0) ==> x * y >= 0) by (nonlinear_arith);
        assert((x > 0 && y < 0) ==> x * y < 0) by (nonlinear_arith);
        assert((x < 0 && y > 0) ==> x * y < 0) by (nonlinear_arith);
    }
    (x >= 0 && y >= 0) || (x <= 0 && y <= 0)
}

/// Whether the tetrahedron `(a, b, c, d)` has volume and holds the origin.
fn encloses_exec(t: &Simplex) -> (r: bool)
    requires
        diff_ok(t.a),
        diff_ok(t.b),
        diff_ok(t.c),
        diff_ok(t.d),
    ensures
        r == encloses_origin(*t),
{
    let o = Vec3i { x: 0, y: 0, z: 0 };
    let vol = orient_exec(t.a, t.b, t.c, t.d);
    if vol == 0 {
        return false;
    }
    same_sign(orient_exec(t.a, t.b, t.c, t.d), orient_exec(t.a, t.b, t.c, o)) && same_sign(
        orient_exec(t.a, t.b, t.d, t.c),
        orient_exec(t.a, t.b, t.d, o),
    ) && same_sign(orient_exec(t.a, t.c, t.d, t.b), orient_exec(t.a, t.c, t.d, o)) && same_sign(
        orient_exec(t.b, t.c, t.d, t.a),
        orient_exec(t.b, t.c, t.d, o),
    )
}

/// Direction perpendicular to a non-zero segment `ab`.
fn perpendicular(ab: Vec3i) -> (r: Dir)
    requires
        bnd(ab, 0x40_0000),
        !(ab.x == 0 && ab.y == 0 && ab.z == 0),
    ensures
        dir_ok(r),
        !dir_zero(r),
{
    let ax = if ab.x >= 0 { ab.x } else { -ab.x };
    let ay = if ab.y >= 0 { ab.y } else { -ab.y };
    let az = if ab.z >= 0 { ab.z } else { -ab.z };
    let e = if ax <= ay && ax <= az {
        Vec3i { x: 1, y: 0, z: 0 }
    } else if ay <= az {
        Vec3i { x: 0, y: 1, z: 0 }
    } else {
        Vec3i { x: 0, y: 0, z: 1 }
    };
    cross_vv(ab, e)
}

/// The direction has no length.
pub open spec fn dir_zero(d: Dir) -> bool {
    d.x == 0 && d.y == 0 && d.z == 0
}

/// The reduced simplex (its first `n` points, oldest first) and the next
/// search direction.
#[derive(Clone, Copy)]
struct Reduced {
    n: usize,
    p0: Vec3i,
    p1: Vec3i,
    p2: Vec3i,
    dir: Dir,
}

spec fn point_at(r: Reduced, k: int) -> Vec3i {
    if k == 0 {
        r.p0
    } else if k == 1 {
        r.p1
    } else {
        r.p2
    }
}

/// Every kept point is one of `a`, `b`, `c`, `d`.
spec fn kept_from(r: Reduced, a: Vec3i, b: Vec3i, c: Vec3i, d: Vec3i) -> bool {
    &&& 1 <= r.n <= 3
    &&& dir_ok(r.dir)
    &&& (dir_zero(r.dir) ==> r.n == 1 && r.p0 == origin())
    &&& forall|k: int|
        0 <= k < r.n ==> (#[trigger] point_at(r, k) == a || point_at(r, k) == b || point_at(r, k)
            == c || point_at(r, k) == d)
}

/// Simplex of a segment `[b, a]` (`a` newest): keeps the segment and looks
/// across it towards the origin, or keeps `a` alone.
fn line_case(b: Vec3i, a: Vec3i) -> (r: Reduced)
    requires
        diff_ok(a),
        diff_ok(b),
    ensures
        kept_from(r, a, b, a, a),
        r.n <= 2,
{
    let o = Vec3i { x: 0, y: 0, z: 0 };
    let ab = sub_v(b, a);
    let ao = sub_v(o, a);
    let abd = to_dir(ab);
    if dot(ao, &abd) > 0 {
        assert(!(ab.x == 0 && ab.y == 0 && ab.z == 0)) by {
            if ab.x == 0 && ab.y == 0 && ab.z == 0 {
                assert(dot_spec(ao, abd) == 0) by (nonlinear_arith)
                    requires
                        abd.x == 0 && abd.y == 0 && abd.z == 0,
                        dot_spec(ao, abd) == ao.x * abd.x + ao.y * abd.y + ao.z * abd.z,
                ;
            }
        }
        let n = cross_vv(ab, ao);
        let mut d = cross_dv(&n, ab);
        if is_zero(&d) {
            d = perpendicular(ab);
        }
        Reduced { n: 2, p0: b, p1: a, p2: a, dir: d }
    } else {
        Reduced { n: 1, p0: a, p1: a, p2: a, dir: to_dir(ao) }
    }
}

/// Simplex of a triangle `[c, b, a]` (`a` newest).
fn triangle_case(c: Vec3i, b: Vec3i, a: Vec3i) -> (r: Reduced)
    requires
        diff_ok(a),
        diff_ok(b),
        diff_ok(c),
    ensures
        kept_from(r, a, b, c, a),
{
    let o = Vec3i { x: 0, y: 0, z: 0 };
    let ab = sub_v(b, a);
    let ac = sub_v(c, a);
    let ao = sub_v(o, a);
    let abc = cross_vv(ab, ac);
    if is_zero(&abc) {
        return line_case(b, a);
    }
    let toward_ac = cross_dv(&abc, ac);
    if dot(ao, &toward_ac) > 0 {
        let acd = to_dir(ac);
        if dot(ao, &acd) > 0 {
            assert(!(ac.x == 0 && ac.y == 0 && ac.z == 0)) by {
                if ac.x == 0 && ac.y == 0 && ac.z == 0 {
                    assert(dot_spec(ao, acd) == 0) by (nonlinear_arith)
                        requires
                            acd.x == 0 && acd.y == 0 && acd.z == 0,
                            dot_spec(ao, acd) == ao.x * acd.x + ao.y * acd.y + ao.z * acd.z,
                    ;
                }
            }
            let n = cross_vv(ac, ao);
            let mut d = cross_dv(&n, ac);
            if is_zero(&d) {
                d = perpendicular(ac);
            }
            return Reduced { n: 2, p0: c, p1: a, p2: a, dir: d };
        }
        return line_case(b, a);
    }
    let toward_ab = cross_vd(ab, &abc);
    if dot(ao, &toward_ab) > 0 {
        return line_case(b, a);
    }
    if dot(ao, &abc) >= 0 {
        Reduced { n: 3, p0: c, p1: b, p2: a, dir: abc }
    } else {
        Reduced { n: 3, p0: b, p1: c, p2: a, dir: neg_dir(&abc) }
    }
}

/// Whether the origin lies strictly on the other side of plane `(p, q, r)`
/// from `w`.
fn beyond(p: Vec3i, q: Vec3i, r: Vec3i, w: Vec3i) -> (res: bool)
    requires
        diff_ok(p),
        diff_ok(q),
        diff_ok(r),
        diff_ok(w),
{
    let o = Vec3i { x: 0, y: 0, z: 0 };
    !same_sign(orient_exec(p, q, r, w), orient_exec(p, q, r, o))
}

/// Simplex of a tetrahedron `[d, c, b, a]` (`a` newest) that does not hold
/// the origin: keeps a face that the origin lies beyond.
fn tetra_case(d: Vec3i, c: Vec3i, b: Vec3i, a: Vec3i) -> (r: Reduced)
    requires
        diff_ok(a),
        diff_ok(b),
        diff_ok(c),
        diff_ok(d),
    ensures
        kept_from(r, a, b, c, d),
{
    if beyond(a, b, c, d) {
        triangle_case(c, b, a)
    } else if beyond(a, c, d, b) {
        triangle_case(d, c, a)
    } else if beyond(a, d, b, c) {
        triangle_case(b, d, a)
    } else if beyond(b, c, d, a) {
        triangle_case(d, c, b)
    } else {
        triangle_case(c, b, a)
    }
}

/// Every point of the difference `A - B` lies strictly on the negative side
/// of direction `d`, so the two hulls share no point.
pub open spec fn separates(a: Seq<Vec3i>, oa: Vec3i, b: Seq<Vec3i>, ob: Vec3i, d: Dir) -> bool {
    forall|i: int, j: int|
        0 <= i < a.len() && 0 <= j < b.len() ==> dot_spec(
            #[trigger] diff_pt(a[i], oa, #[trigger] b[j], ob),
            d,
        ) < 0
}

/// The simplex search between two colliders moved by `oa` and `ob`. An
/// intersection comes with a tetrahedron of difference points that holds
/// the origin; a separation comes with a direction along which the whole
/// difference lies below zero.
pub fn gjk_search(a: &ConvexCollider, oa: Vec3i, b: &ConvexCollider, ob: Vec3i) -> (r: GjkOutcome)
    requires
        a.wf(),
        b.wf(),
        pt_ok(oa),
        pt_ok(ob),
    ensures
        r matches GjkOutcome::Intersection(hit) ==> {
            &&& encloses_origin(hit.simplex)
            &&& in_difference(a.points@, oa, b.points@, ob, hit.simplex.a)
            &&& in_difference(a.points@, oa, b.points@, ob, hit.simplex.b)
            &&& in_difference(a.points@, oa, b.points@, ob, hit.simplex.c)
            &&& in_difference(a.points@, oa, b.points@, ob, hit.simplex.d)
            &&& diff_ok(hit.simplex.a) && diff_ok(hit.simplex.b) && diff_ok(hit.simplex.c)
                && diff_ok(hit.simplex.d)
        },
        r matches GjkOutcome::Separated(d) ==> separates(a.points@, oa, b.points@, ob, d),
        r is Touching ==> in_difference(a.points@, oa, b.points@, ob, origin()),
{
    let start = Dir { x: 1, y: 0, z: 0 };
    let first = minkowski_support(a, oa, b, ob, &start);
    let o = Vec3i { x: 0, y: 0, z: 0 };
    let mut s = Reduced { n: 1, p0: first, p1: first, p2: first, dir: to_dir(sub_v(o, first)) };
    let mut iter: usize = 0;
    while iter < GJK_MAX_ITERATIONS
        invariant
            a.wf(),
            b.wf(),
            pt_ok(oa),
            pt_ok(ob),
            1 <= s.n <= 3,
            dir_ok(s.dir),
            dir_zero(s.dir) ==> s.n == 1 && s.p0 == origin(),
            forall|k: int|
                0 <= k < s.n ==> in_difference(a.points@, oa, b.points@, ob, #[trigger] point_at(s, k))
                    && diff_ok(point_at(s, k)),
        decreases GJK_MAX_ITERATIONS - iter,
    {
        let d = s.dir;
        if is_zero(&d) {
            assert(in_difference(a.points@, oa, b.points@, ob, point_at(s, 0)));
            return GjkOutcome::Touching;
        }
        let p = minkowski_support(a, oa, b, ob, &d);
        if dot(p, &d) < 0 {
            return GjkOutcome::Separated(d);
        }
        assert(in_difference(a.points@, oa, b.points@, ob, point_at(s, 0)) && diff_ok(point_at(s, 0)));
        if s.n >= 2 {
            assert(in_difference(a.points@, oa, b.points@, ob, point_at(s, 1)) && diff_ok(point_at(s, 1)));
        }
        if s.n >= 3 {
            assert(in_difference(a.points@, oa, b.points@, ob, point_at(s, 2)) && diff_ok(point_at(s, 2)));
        }
        let next = if s.n == 1 {
            line_case(s.p0, p)
        } else if s.n == 2 {
            triangle_case(s.p0, s.p1, p)
        } else {
            let t = Simplex { a: s.p0, b: s.p1, c: s.p2, d: p };
            if encloses_exec(&t) {
                return GjkOutcome::Intersection(GjkHit { simplex: t });
            }
            tetra_case(s.p0, s.p1, s.p2, p)
        };
        assert forall|k: int| 0 <= k < next.n implies in_difference(
            a.points@,
            oa,
            b.points@,
            ob,
            #[trigger] point_at(next, k),
        ) && diff_ok(point_at(next, k)) by {
            assert(point_at(next, k) == p || point_at(next, k) == point_at(s, 0) || point_at(next, k)
                == point_at(s, 1) || point_at(next, k) == point_at(s, 2));
        }
        s = next;
        iter = iter + 1;
    }
    GjkOutcome::Exhausted
}

/// Whether the two colliders, moved by `oa` and `ob`, share a point. An
/// intersection comes with a tetrahedron of points of the difference
/// `A - B` that holds the origin, which proves it; a search that separates
/// the shapes, or does not decide, reports no intersection.
pub fn gjk_intersect(a: &ConvexCollider, oa: Vec3i, b: &ConvexCollider, ob: Vec3i) -> (r:
    GjkResult)
    requires
        a.wf(),
        b.wf(),
        pt_ok(oa),
        pt_ok(ob),
    ensures
        r matches GjkResult::Intersection(hit) ==> {
            &&& encloses_origin(hit.simplex)
            &&& in_difference(a.points@, oa, b.points@, ob, hit.simplex.a)
            &&& in_difference(a.points@, oa, b.points@, ob, hit.simplex.b)
            &&& in_difference(a.points@, oa, b.points@, ob, hit.simplex.c)
            &&& in_difference(a.points@, oa, b.points@, ob, hit.simplex.d)
            &&& diff_ok(hit.simplex.a) && diff_ok(hit.simplex.b) && diff_ok(hit.simplex.c)
                && diff_ok(hit.simplex.d)
        },
{
    match gjk_search(a, oa, b, ob) {
        GjkOutcome::Intersection(hit) => GjkResult::Intersection(hit),
        _ => GjkResult::NoIntersection,
    }
}

} // verus!
