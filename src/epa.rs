//! Penetration depth of two intersecting convex point sets (EPA) in exact
//! integer arithmetic.
//!
//! Starting from the tetrahedron that the intersection test found, the
//! polytope of Minkowski-difference points grows towards its face nearest
//! the origin until the support point in that face's normal direction lies
//! within the configured tolerance of the face. Distances are measured as
//! `n . v / floor(|n|)` for a face normal `n` and a face vertex `v`.

use vstd::prelude::*;
use crate::contact::{CollisionSystem, Contact, contact_ok, normal_ok};
use crate::geometry::{Vec3i, WORLD_LIMIT};
use crate::gjk::{
    GjkOutcome,
    gjk_search,
    neg_dir,
    support_index,
    ConvexCollider,
    Dir,
    Simplex,
    bnd,
    cross_vv,
    dbnd,
    diff_ok,
    diff_pt,
    dir_ok,
    dot,
    dot_spec,
    in_difference,
    is_zero,
    orient,
    orient_exec,
    lemma_mul_bound,
    minkowski_support,
    pt_ok,
    sub_v,
};
use crate::resolver::{floor_sqrt, is_floor_sqrt, isqrt, lemma_component_le_len, lemma_fraction_bound};

verus! {

/// Most polytope expansions before the search stops with its best face.
pub const EPA_MAX_ITERATIONS: usize = 64;

/// Largest tolerance that the search accepts.
pub const EPA_TOLERANCE_LIMIT: i64 = 1048576;

/// How close, in length units, the support point must come to the nearest
/// face before the search stops.
#[derive(Clone, Copy, Debug, PartialEq, Eq, Structural)]
pub struct EpaConfig {
    pub tolerance: i64,
}

impl EpaConfig {
    pub open spec fn wf(self) -> bool {
        0 <= self.tolerance <= EPA_TOLERANCE_LIMIT
    }

    /// A tolerance of one unit.
    pub fn standard() -> (r: EpaConfig)
        ensures
            r.tolerance == 1,
            r.wf(),
    {
        EpaConfig { tolerance: 1 }
    }
}

/// The face of the difference `A - B` nearest the origin.
pub struct EpaResult {
    /// Distance of the face from the origin, rounded down; zero when the
    /// origin lies on or beyond the face.
    pub penetration_depth: i128,
    /// Face normal scaled to a length of about 1000, pointing from A to B.
    pub normal: Vec3i,
    /// The face normal as computed, not normalised.
    pub face_normal: Dir,
    /// `floor(|face_normal|)`, at least one.
    pub normal_length: i128,
    /// `face_normal . witness`.
    pub face_offset: i128,
    /// A vertex of the face: a point of the difference.
    pub witness: Vec3i,
    /// The point of the difference farthest along the face normal.
    pub support: Vec3i,
    /// `face_normal . support`.
    pub support_offset: i128,
    /// The support point lies within the tolerance of the face.
    pub converged: bool,
}

#[derive(Clone, Copy, Debug, PartialEq, Eq, Structural)]
pub enum EpaError {
    DegenerateSimplex,
}

/// A triangle of polytope vertices with its normal, its offset and the
/// rounded-down length of its normal.
#[derive(Clone, Copy)]
struct Face {
    i: usize,
    j: usize,
    k: usize,
    n: Dir,
    off: i128,
    len: i128,
}

pub open spec fn depth_of(off: int, len: int) -> int {
    if off <= 0 {
        0
    } else {
        off / len
    }
}

/// `t * 1000 / len`, rounded towards zero.
pub open spec fn unit_component(t: int, len: int) -> int {
    if t >= 0 {
        t * 1000 / len
    } else {
        -((-t) * 1000 / len)
    }
}

pub open spec fn norm2(n: Dir) -> int {
    n.x * n.x + n.y * n.y + n.z * n.z
}

spec fn face_ok(f: Face, verts: Seq<Vec3i>) -> bool {
    &&& f.i < verts.len()
    &&& f.j < verts.len()
    &&& f.k < verts.len()
    &&& dbnd(f.n, 0x2000_0000_0000)
    &&& dir_ok(f.n)
    &&& f.off == dot_spec(verts[f.i as int], f.n)
    &&& f.len == floor_sqrt(norm2(f.n))
    &&& 1 <= f.len <= 0x8000_0000_0000
    &&& is_floor_sqrt(norm2(f.n), f.len as int)
}

spec fn verts_ok(verts: Seq<Vec3i>, a: Seq<Vec3i>, oa: Vec3i, b: Seq<Vec3i>, ob: Vec3i) -> bool {
    forall|k: int|
        0 <= k < verts.len() ==> in_difference(a, oa, b, ob, #[trigger] verts[k]) && diff_ok(verts[k])
}

/// The three points lie on one line: the face they span has no normal.
pub open spec fn flat(p: Vec3i, q: Vec3i, r: Vec3i) -> bool {
    let (ux, uy, uz) = (q.x - p.x, q.y - p.y, q.z - p.z);
    let (vx, vy, vz) = (r.x - p.x, r.y - p.y, r.z - p.z);
    &&& uy * vz - uz * vy == 0
    &&& uz * vx - ux * vz == 0
    &&& ux * vy - uy * vx == 0
}

/// Swapping two vertices of a face does not change whether it is flat.
proof fn lemma_flat_swap(p: Vec3i, q: Vec3i, r: Vec3i)
    ensures
        flat(p, q, r) == flat(p, r, q),
{
    let (ux, uy, uz) = (q.x - p.x, q.y - p.y, q.z - p.z);
    let (vx, vy, vz) = (r.x - p.x, r.y - p.y, r.z - p.z);
    assert(uy * vz - uz * vy == -(vy * uz - vz * uy)) by (nonlinear_arith);
    assert(uz * vx - ux * vz == -(vz * ux - vx * uz)) by (nonlinear_arith);
    assert(ux * vy - uy * vx == -(vx * uy - vy * ux)) by (nonlinear_arith);
}

/// The starting tetrahedron has volume and none of its faces is flat.
pub open spec fn solid_start(t: Simplex) -> bool {
    &&& orient(t.a, t.b, t.c, t.d) != 0
    &&& !flat(t.a, t.b, t.c)
    &&& !flat(t.a, t.b, t.d)
    &&& !flat(t.a, t.c, t.d)
    &&& !flat(t.b, t.c, t.d)
}

/// The face `(i, j, k)` of `verts`, or nothing when its normal vanishes.
fn make_face(verts: &Vec<Vec3i>, i: usize, j: usize, k: usize) -> (r: Option<Face>)
    requires
        i < verts@.len(),
        j < verts@.len(),
        k < verts@.len(),
        forall|q: int| 0 <= q < verts@.len() ==> diff_ok(#[trigger] verts@[q]),
    ensures
        r matches Some(f) ==> face_ok(f, verts@) && f.i == i && f.j == j && f.k == k,
        r is None <==> flat(verts@[i as int], verts@[j as int], verts@[k as int]),
{
    let vi = verts[i];
    let vj = verts[j];
    let vk = verts[k];
    assert(diff_ok(vi) && diff_ok(vj) && diff_ok(vk));
    let n = cross_vv(sub_v(vj, vi), sub_v(vk, vi));
    if is_zero(&n) {
        return None;
    }
    proof {
        lemma_mul_bound(n.x as int, n.x as int, 0x2000_0000_0000, 0x2000_0000_0000);
        lemma_mul_bound(n.y as int, n.y as int, 0x2000_0000_0000, 0x2000_0000_0000);
        lemma_mul_bound(n.z as int, n.z as int, 0x2000_0000_0000, 0x2000_0000_0000);
        assert(n.x * n.x >= 0 && n.y * n.y >= 0 && n.z * n.z >= 0) by (nonlinear_arith);
        assert(n.x * n.x + n.y * n.y + n.z * n.z > 0) by (nonlinear_arith)
            requires
                n.x != 0 || n.y != 0 || n.z != 0,
        ;
    }
    let n2 = (n.x * n.x + n.y * n.y + n.z * n.z) as u128;
    let len = isqrt(n2);
    assert(len >= 1) by {
        assert((len + 1) * (len + 1) > n2);
        if len == 0 {
            assert(n2 < 1);
        }
    }
    let off = dot(vi, &n);
    Some(Face { i, j, k, n, off, len: len as i128 })
}

/// Adds the face `(i, j, k)`, wound so that its normal points away from
/// vertex `l`.
fn push_oriented(verts: &Vec<Vec3i>, i: usize, j: usize, k: usize, l: usize, faces: &mut Vec<Face>)
    requires
        i < verts@.len(),
        j < verts@.len(),
        k < verts@.len(),
        l < verts@.len(),
        forall|q: int| 0 <= q < verts@.len() ==> diff_ok(#[trigger] verts@[q]),
        forall|q: int| 0 <= q < old(faces)@.len() ==> face_ok(#[trigger] old(faces)@[q], verts@),
    ensures
        forall|q: int| 0 <= q < final(faces)@.len() ==> face_ok(#[trigger] final(faces)@[q], verts@),
        final(faces)@.len() == old(faces)@.len() + if flat(
            verts@[i as int],
            verts@[j as int],
            verts@[k as int],
        ) {
            0int
        } else {
            1int
        },
{
    proof {
        lemma_flat_swap(verts@[i as int], verts@[j as int], verts@[k as int]);
    }
    match make_face(verts, i, j, k) {
        None => {},
        Some(f) => {
            assert(diff_ok(verts@[l as int]) && diff_ok(verts@[i as int]));
            if dot(sub_v(verts[l], verts[i]), &f.n) > 0 {
                match make_face(verts, i, k, j) {
                    None => {},
                    Some(g) => faces.push(g),
                }
            } else {
                faces.push(f);
            }
        },
    }
}

/// Index of the face nearest the origin.
fn closest(faces: &Vec<Face>) -> (r: usize)
    requires
        faces@.len() > 0,
        forall|q: int| 0 <= q < faces@.len() ==> (#[trigger] faces@[q]).len >= 1,
    ensures
        r < faces@.len(),
{
    let mut best: usize = 0;
    let mut best_d = face_depth(&faces[0]);
    let mut q: usize = 1;
    while q < faces.len()
        invariant
            1 <= q <= faces@.len(),
            best < faces@.len(),
            forall|x: int| 0 <= x < faces@.len() ==> (#[trigger] faces@[x]).len >= 1,
        decreases faces@.len() - q,
    {
        let d = face_depth(&faces[q]);
        if d < best_d {
            best = q;
            best_d = d;
        }
        q = q + 1;
    }
    best
}

fn face_depth(f: &Face) -> (r: i128)
    requires
        f.len >= 1,
    ensures
        r == depth_of(f.off as int, f.len as int),
{
    if f.off <= 0 {
        0
    } else {
        f.off / f.len
    }
}

/// Every edge joins vertices below `n`.
spec fn edges_below(edges: Seq<(usize, usize)>, n: int) -> bool {
    forall|x: int| 0 <= x < edges.len() ==> (#[trigger] edges[x]).0 < n && edges[x].1 < n
}

/// Records edge `(u, v)` of a removed face; an edge met in both directions
/// lies between two removed faces and is dropped.
fn add_edge(edges: &mut Vec<(usize, usize)>, u: usize, v: usize, n: usize)
    requires
        u < n,
        v < n,
        edges_below(old(edges)@, n as int),
    ensures
        edges_below(final(edges)@, n as int),
{
    let mut q: usize = 0;
    while q < edges.len()
        invariant
            q <= edges@.len(),
            edges_below(edges@, n as int),
        decreases edges@.len() - q,
    {
        if edges[q].0 == v && edges[q].1 == u {
            edges.remove(q);
            return ;
        }
        q = q + 1;
    }
    edges.push((u, v));
}

fn unit_normal(n: &Dir, len: i128) -> (r: Vec3i)
    requires
        dbnd(*n, 0x2000_0000_0000),
        1 <= len <= 0x8000_0000_0000,
        is_floor_sqrt(norm2(*n), len as int),
    ensures
        r.x == unit_component(n.x as int, len as int),
        r.y == unit_component(n.y as int, len as int),
        r.z == unit_component(n.z as int, len as int),
        normal_ok(r),
{
    proof {
        assert(n.x * n.x >= 0 && n.y * n.y >= 0 && n.z * n.z >= 0) by (nonlinear_arith);
        lemma_component_le_len(n.x as int, norm2(*n), len as int);
        lemma_component_le_len(n.y as int, norm2(*n), len as int);
        lemma_component_le_len(n.z as int, norm2(*n), len as int);
    }
    Vec3i { x: unit_part(n.x, len), y: unit_part(n.y, len), z: unit_part(n.z, len) }
}

fn unit_part(t: i128, len: i128) -> (r: i64)
    requires
        1 <= len <= 0x1_0000_0000_0000,
        -0x2000_0000_0000 <= t <= 0x2000_0000_0000,
        t * t <= len * len,
    ensures
        r == unit_component(t as int, len as int),
        -1000 <= r <= 1000,
{
    let at: i128 = if t >= 0 {
        t
    } else {
        -t
    };
    assert(at * at == t * t) by (nonlinear_arith)
        requires
            at == t || at == -t,
    ;
    assert(at <= len) by (nonlinear_arith)
        requires
            at * at <= len * len,
            at == t || at == -t,
            at >= 0,
            len >= 1,
    ;
    proof {
        lemma_fraction_bound(1000, at as int, len as int);
        assert(at * 1000 == 1000 * at);
    }
    let v = at * 1000 / len;
    if t >= 0 {
        v as i64
    } else {
        -(v as i64)
    }
}

/// The result for face `f`: its normal, depth and witness, the support
/// point of the difference in the face's normal direction, and whether that
/// point lies within the tolerance of the face.
fn face_result(
    f: &Face,
    verts: &Vec<Vec3i>,
    a: &ConvexCollider,
    oa: Vec3i,
    b: &ConvexCollider,
    ob: Vec3i,
    cfg: &EpaConfig,
) -> (r: EpaResult)
    requires
        face_ok(*f, verts@),
        verts_ok(verts@, a.points@, oa, b.points@, ob),
        a.wf(),
        b.wf(),
        pt_ok(oa),
        pt_ok(ob),
        cfg.wf(),
    ensures
        r.face_normal == f.n,
        r.normal_length == f.len,
        r.face_offset == f.off,
        r.witness == verts@[f.i as int],
        r.penetration_depth == depth_of(f.off as int, f.len as int),
        r.normal.x == unit_component(f.n.x as int, f.len as int),
        r.normal.y == unit_component(f.n.y as int, f.len as int),
        r.normal.z == unit_component(f.n.z as int, f.len as int),
        normal_ok(r.normal),
        dir_ok(r.face_normal),
        in_difference(a.points@, oa, b.points@, ob, r.support),
        r.support_offset == dot_spec(r.support, r.face_normal),
        forall|i: int, j: int|
            0 <= i < a.points@.len() && 0 <= j < b.points@.len() ==> dot_spec(
                #[trigger] diff_pt(a.points@[i], oa, #[trigger] b.points@[j], ob),
                r.face_normal,
            ) <= r.support_offset,
        r.converged == (r.support_offset - r.face_offset <= cfg.tolerance * r.normal_length),
{
    let p = minkowski_support(a, oa, b, ob, &f.n);
    let sd = dot(p, &f.n);
    proof {
        lemma_mul_bound(
            cfg.tolerance as int,
            f.len as int,
            EPA_TOLERANCE_LIMIT as int,
            0x8000_0000_0000,
        );
        lemma_mul_bound(p.x as int, f.n.x as int, 0x40_0000, 0x2000_0000_0000);
        lemma_mul_bound(p.y as int, f.n.y as int, 0x40_0000, 0x2000_0000_0000);
        lemma_mul_bound(p.z as int, f.n.z as int, 0x40_0000, 0x2000_0000_0000);
        let v = verts@[f.i as int];
        assert(in_difference(a.points@, oa, b.points@, ob, v) && diff_ok(v));
        lemma_mul_bound(v.x as int, f.n.x as int, 0x40_0000, 0x2000_0000_0000);
        lemma_mul_bound(v.y as int, f.n.y as int, 0x40_0000, 0x2000_0000_0000);
        lemma_mul_bound(v.z as int, f.n.z as int, 0x40_0000, 0x2000_0000_0000);
    }
    let converged = sd - f.off <= cfg.tolerance as i128 * f.len;
    let n = Dir { x: f.n.x, y: f.n.y, z: f.n.z };
    EpaResult {
        penetration_depth: face_depth(f),
        normal: unit_normal(&f.n, f.len),
        face_normal: n,
        normal_length: f.len,
        face_offset: f.off,
        witness: verts[f.i],
        support: p,
        support_offset: sd,
        converged,
    }
}

/// Buffers that the penetration search reuses from call to call, so that
/// repeated searches need no new memory once the buffers have grown.
pub struct EpaScratch {
    verts: Vec<Vec3i>,
    faces: Vec<Face>,
    edges: Vec<(usize, usize)>,
    kept: Vec<Face>,
}

impl EpaScratch {
    pub fn new() -> (r: EpaScratch) {
        EpaScratch { verts: Vec::new(), faces: Vec::new(), edges: Vec::new(), kept: Vec::new() }
    }
}

/// Penetration of two intersecting colliders, moved by `oa` and `ob`,
/// starting from the tetrahedron of the intersection test. The result
/// names the support point of the difference along its face normal; it is
/// converged exactly when that point, and so the whole difference `A - B`,
/// lies no more than the tolerance beyond the face. The search fails exactly when the starting tetrahedron, or one of
/// its faces, is flat.
pub fn epa(
    a: &ConvexCollider,
    oa: Vec3i,
    b: &ConvexCollider,
    ob: Vec3i,
    simplex: &Simplex,
    cfg: &EpaConfig,
) -> (r: Result<EpaResult, EpaError>)
    requires
        a.wf(),
        b.wf(),
        pt_ok(oa),
        pt_ok(ob),
        cfg.wf(),
        in_difference(a.points@, oa, b.points@, ob, simplex.a) && diff_ok(simplex.a),
        in_difference(a.points@, oa, b.points@, ob, simplex.b) && diff_ok(simplex.b),
        in_difference(a.points@, oa, b.points@, ob, simplex.c) && diff_ok(simplex.c),
        in_difference(a.points@, oa, b.points@, ob, simplex.d) && diff_ok(simplex.d),
    ensures
        !solid_start(*simplex) ==> r == Err::<EpaResult, EpaError>(EpaError::DegenerateSimplex),
        solid_start(*simplex) ==> r is Ok,
        r matches Ok(res) ==> {
            &&& normal_ok(res.normal)
            &&& dir_ok(res.face_normal)
            &&& in_difference(a.points@, oa, b.points@, ob, res.witness)
            &&& res.face_offset == dot_spec(res.witness, res.face_normal)
            &&& 1 <= res.normal_length
            &&& res.normal_length == floor_sqrt(norm2(res.face_normal))
            &&& res.penetration_depth == depth_of(
                res.face_offset as int,
                res.normal_length as int,
            )
            &&& res.normal.x == unit_component(
                res.face_normal.x as int,
                res.normal_length as int,
            )
            &&& res.normal.y == unit_component(
                res.face_normal.y as int,
                res.normal_length as int,
            )
            &&& res.normal.z == unit_component(
                res.face_normal.z as int,
                res.normal_length as int,
            )
            &&& in_difference(a.points@, oa, b.points@, ob, res.support)
            &&& res.support_offset == dot_spec(res.support, res.face_normal)
            &&& forall|i: int, j: int|
                0 <= i < a.points@.len() && 0 <= j < b.points@.len() ==> dot_spec(
                    #[trigger] diff_pt(a.points@[i], oa, #[trigger] b.points@[j], ob),
                    res.face_normal,
                ) <= res.support_offset
            &&& res.converged == (res.support_offset - res.face_offset <= cfg.tolerance
                * res.normal_length)
        },
{
    let mut scratch = EpaScratch::new();
    epa_in(a, oa, b, ob, simplex, cfg, &mut scratch)
}

/// The search of `epa`, working in the buffers of `scratch`.
pub fn epa_in(
    a: &ConvexCollider,
    oa: Vec3i,
    b: &ConvexCollider,
    ob: Vec3i,
    simplex: &Simplex,
    cfg: &EpaConfig,
    scratch: &mut EpaScratch,
) -> (r: Result<EpaResult, EpaError>)
    requires
        a.wf(),
        b.wf(),
        pt_ok(oa),
        pt_ok(ob),
        cfg.wf(),
        in_difference(a.points@, oa, b.points@, ob, simplex.a) && diff_ok(simplex.a),
        in_difference(a.points@, oa, b.points@, ob, simplex.b) && diff_ok(simplex.b),
        in_difference(a.points@, oa, b.points@, ob, simplex.c) && diff_ok(simplex.c),
        in_difference(a.points@, oa, b.points@, ob, simplex.d) && diff_ok(simplex.d),
    ensures
        !solid_start(*simplex) ==> r == Err::<EpaResult, EpaError>(EpaError::DegenerateSimplex),
        solid_start(*simplex) ==> r is Ok,
        r matches Ok(res) ==> {
            &&& normal_ok(res.normal)
            &&& dir_ok(res.face_normal)
            &&& in_difference(a.points@, oa, b.points@, ob, res.witness)
            &&& res.face_offset == dot_spec(res.witness, res.face_normal)
            &&& 1 <= res.normal_length
            &&& res.normal_length == floor_sqrt(norm2(res.face_normal))
            &&& res.penetration_depth == depth_of(
                res.face_offset as int,
                res.normal_length as int,
            )
            &&& res.normal.x == unit_component(
                res.face_normal.x as int,
                res.normal_length as int,
            )
            &&& res.normal.y == unit_component(
                res.face_normal.y as int,
                res.normal_length as int,
            )
            &&& res.normal.z == unit_component(
                res.face_normal.z as int,
                res.normal_length as int,
            )
            &&& in_difference(a.points@, oa, b.points@, ob, res.support)
            &&& res.support_offset == dot_spec(res.support, res.face_normal)
            &&& forall|i: int, j: int|
                0 <= i < a.points@.len() && 0 <= j < b.points@.len() ==> dot_spec(
                    #[trigger] diff_pt(a.points@[i], oa, #[trigger] b.points@[j], ob),
                    res.face_normal,
                ) <= res.support_offset
            &&& res.converged == (res.support_offset - res.face_offset <= cfg.tolerance
                * res.normal_length)
        },
{
    if orient_exec(simplex.a, simplex.b, simplex.c, simplex.d) == 0 {
        return Err(EpaError::DegenerateSimplex);
    }
    scratch.verts.clear();
    scratch.verts.push(simplex.a);
    scratch.verts.push(simplex.b);
    scratch.verts.push(simplex.c);
    scratch.verts.push(simplex.d);
    assert(scratch.verts@ == seq![simplex.a, simplex.b, simplex.c, simplex.d]);
    scratch.faces.clear();
    push_oriented(&scratch.verts, 0, 1, 2, 3, &mut scratch.faces);
    push_oriented(&scratch.verts, 0, 1, 3, 2, &mut scratch.faces);
    push_oriented(&scratch.verts, 0, 2, 3, 1, &mut scratch.faces);
    push_oriented(&scratch.verts, 1, 2, 3, 0, &mut scratch.faces);
    if scratch.faces.len() < 4 {
        return Err(EpaError::DegenerateSimplex);
    }
    assert(solid_start(*simplex));
    let mut iter: usize = 0;
    while iter < EPA_MAX_ITERATIONS
        invariant
            a.wf(),
            b.wf(),
            pt_ok(oa),
            pt_ok(ob),
            cfg.wf(),
            solid_start(*simplex),
            scratch.faces@.len() > 0,
            verts_ok(scratch.verts@, a.points@, oa, b.points@, ob),
            forall|q: int|
                0 <= q < scratch.faces@.len() ==> face_ok(#[trigger] scratch.faces@[q], scratch.verts@),
        decreases EPA_MAX_ITERATIONS - iter,
    {
        let best = closest(&scratch.faces);
        assert(face_ok(scratch.faces@[best as int], scratch.verts@));
        let f = &scratch.faces[best];
        let p = minkowski_support(a, oa, b, ob, &f.n);
        let sd = dot(p, &f.n);
        proof {
            lemma_mul_bound(
                cfg.tolerance as int,
                f.len as int,
                EPA_TOLERANCE_LIMIT as int,
                0x8000_0000_0000,
            );
            lemma_mul_bound(p.x as int, f.n.x as int, 0x40_0000, 0x2000_0000_0000);
            lemma_mul_bound(p.y as int, f.n.y as int, 0x40_0000, 0x2000_0000_0000);
            lemma_mul_bound(p.z as int, f.n.z as int, 0x40_0000, 0x2000_0000_0000);
            let v = scratch.verts@[f.i as int];
            assert(in_difference(a.points@, oa, b.points@, ob, v) && diff_ok(v));
            lemma_mul_bound(v.x as int, f.n.x as int, 0x40_0000, 0x2000_0000_0000);
            lemma_mul_bound(v.y as int, f.n.y as int, 0x40_0000, 0x2000_0000_0000);
            lemma_mul_bound(v.z as int, f.n.z as int, 0x40_0000, 0x2000_0000_0000);
        }
        if sd - f.off <= cfg.tolerance as i128 * f.len {
            let res = face_result(f, &scratch.verts, a, oa, b, ob, cfg);
            return Ok(res);
        }
        let m = scratch.verts.len();
        let ghost old_verts = scratch.verts@;
        scratch.verts.push(p);
        assert forall|q: int| 0 <= q < scratch.faces@.len() implies face_ok(
            #[trigger] scratch.faces@[q],
            scratch.verts@,
        ) by {
            assert(face_ok(scratch.faces@[q], old_verts));
            assert(scratch.verts@[scratch.faces@[q].i as int] == old_verts[scratch.faces@[q].i as int]);
        }
        assert(verts_ok(scratch.verts@, a.points@, oa, b.points@, ob)) by {
            assert forall|k: int| 0 <= k < scratch.verts@.len() implies in_difference(
                a.points@,
                oa,
                b.points@,
                ob,
                #[trigger] scratch.verts@[k],
            ) && diff_ok(scratch.verts@[k]) by {
                if k < old_verts.len() {
                    assert(scratch.verts@[k] == old_verts[k]);
                }
            }
        }
        scratch.edges.clear();
        scratch.kept.clear();
        let mut q: usize = 0;
        while q < scratch.faces.len()
            invariant
                q <= scratch.faces@.len(),
                scratch.faces@.len() > 0,
                m < scratch.verts@.len(),
                verts_ok(scratch.verts@, a.points@, oa, b.points@, ob),
                forall|x: int|
                    0 <= x < scratch.faces@.len() ==> face_ok(#[trigger] scratch.faces@[x], scratch.verts@),
                forall|x: int|
                    0 <= x < scratch.kept@.len() ==> face_ok(#[trigger] scratch.kept@[x], scratch.verts@),
                edges_below(scratch.edges@, scratch.verts@.len() as int),
                diff_ok(p),
            decreases scratch.faces@.len() - q,
        {
            assert(face_ok(scratch.faces@[q as int], scratch.verts@));
            let g = &scratch.faces[q];
            assert(diff_ok(scratch.verts@[g.i as int]));
            if dot(sub_v(p, scratch.verts[g.i]), &g.n) > 0 {
                let (gi, gj, gk) = (g.i, g.j, g.k);
                let n = scratch.verts.len();
                add_edge(&mut scratch.edges, gi, gj, n);
                add_edge(&mut scratch.edges, gj, gk, n);
                add_edge(&mut scratch.edges, gk, gi, n);
            } else {
                let h = Face { i: g.i, j: g.j, k: g.k, n: g.n, off: g.off, len: g.len };
                scratch.kept.push(h);
            }
            q = q + 1;
        }
        let mut e: usize = 0;
        while e < scratch.edges.len()
            invariant
                e <= scratch.edges@.len(),
                scratch.faces@.len() > 0,
                forall|x: int|
                    0 <= x < scratch.faces@.len() ==> face_ok(#[trigger] scratch.faces@[x], scratch.verts@),
                m < scratch.verts@.len(),
                verts_ok(scratch.verts@, a.points@, oa, b.points@, ob),
                forall|x: int|
                    0 <= x < scratch.kept@.len() ==> face_ok(#[trigger] scratch.kept@[x], scratch.verts@),
                edges_below(scratch.edges@, scratch.verts@.len() as int),
            decreases scratch.edges@.len() - e,
        {
            let (u, v) = scratch.edges[e];
            assert(scratch.edges@[e as int].0 < scratch.verts@.len() && scratch.edges@[e as int].1
                < scratch.verts@.len());
            match make_face(&scratch.verts, u, v, m) {
                Some(nf) => scratch.kept.push(nf),
                None => {},
            }
            e = e + 1;
        }
        if scratch.kept.len() == 0 {
            let best = closest(&scratch.faces);
            assert(face_ok(scratch.faces@[best as int], scratch.verts@));
            let res = face_result(&scratch.faces[best], &scratch.verts, a, oa, b, ob, cfg);
            return Ok(res);
        }
        core::mem::swap(&mut scratch.faces, &mut scratch.kept);
        iter = iter + 1;
    }
    let best = closest(&scratch.faces);
    assert(face_ok(scratch.faces@[best as int], scratch.verts@));
    let res = face_result(&scratch.faces[best], &scratch.verts, a, oa, b, ob, cfg);
    Ok(res)
}

/// `p` is a point of collider `b` moved by `ob`.
pub open spec fn point_of(b: Seq<Vec3i>, ob: Vec3i, p: Vec3i) -> bool {
    exists|j: int|
        0 <= j < b.len() && p.x == b[j].x + ob.x && p.y == b[j].y + ob.y && p.z == b[j].z + ob.z
}

/// Contact `c` is the face with normal `n` through difference point `w`:
/// its normal is `n` scaled to thousandths and its depth is the face's
/// distance from the origin.
pub open spec fn face_contact(
    c: Contact,
    a: Seq<Vec3i>,
    oa: Vec3i,
    b: Seq<Vec3i>,
    ob: Vec3i,
    n: Dir,
    w: Vec3i,
) -> bool {
    let len = floor_sqrt(norm2(n));
    &&& in_difference(a, oa, b, ob, w)
    &&& 1 <= len
    &&& c.normal.x == unit_component(n.x as int, len)
    &&& c.normal.y == unit_component(n.y as int, len)
    &&& c.normal.z == unit_component(n.z as int, len)
    &&& c.penetration == depth_of(dot_spec(w, n), len)
}

impl CollisionSystem {
    /// Accurate contact between two convex colliders moved by `oa` and
    /// `ob`: the intersection test, then the penetration search. The normal
    /// is the nearest face's, from A to B; the depth is its distance; the
    /// contact point is the point of B that reaches farthest into A. Gives
    /// nothing when the intersection search separates the shapes, finds
    /// them touching or runs out of steps, when the penetration search
    /// fails, or when the depth exceeds the range of contacts. The search works in
    /// the buffers of `scratch`.
    pub fn convex_contact(
        ea: usize,
        eb: usize,
        a: &ConvexCollider,
        oa: Vec3i,
        b: &ConvexCollider,
        ob: Vec3i,
        cfg: &EpaConfig,
        scratch: &mut EpaScratch,
    ) -> (r: Option<Contact>)
        requires
            a.wf(),
            b.wf(),
            pt_ok(oa),
            pt_ok(ob),
            cfg.wf(),
        ensures
            r matches Some(c) ==> {
                &&& c.entity_a == ea
                &&& c.entity_b == eb
                &&& contact_ok(c)
                &&& point_of(b.points@, ob, c.contact_point)
                &&& exists|n: Dir, w: Vec3i| #[trigger]
                    face_contact(c, a.points@, oa, b.points@, ob, n, w)
            },
    {
        match gjk_search(a, oa, b, ob) {
            GjkOutcome::Separated(_) => None,
            GjkOutcome::Touching => None,
            GjkOutcome::Exhausted => None,
            GjkOutcome::Intersection(hit) => {
                match epa_in(a, oa, b, ob, &hit.simplex, cfg, scratch) {
                    Err(_) => None,
                    Ok(res) => {
                        if res.penetration_depth > 2 * WORLD_LIMIT as i128 {
                            return None;
                        }
                        let back = neg_dir(&res.face_normal);
                        let j = support_index(&b.points, &back);
                        let q = b.points[j];
                        assert(pt_ok(q));
                        let point = Vec3i { x: q.x + ob.x, y: q.y + ob.y, z: q.z + ob.z };
                        let c = Contact {
                            entity_a: ea,
                            entity_b: eb,
                            normal: res.normal,
                            penetration: res.penetration_depth as i64,
                            contact_point: point,
                        };
                        assert(face_contact(
                            c,
                            a.points@,
                            oa,
                            b.points@,
                            ob,
                            res.face_normal,
                            res.witness,
                        ));
                        Some(c)
                    },
                }
            },
        }
    }
}

} // verus!
