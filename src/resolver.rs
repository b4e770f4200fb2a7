//! Sequential-impulse contact resolution: restitution along the contact
//! normal, clamped friction in the tangent plane and a positional correction
//! for the depth beyond the allowed slop.
//!
//! Coefficients and normal components are in thousandths, the correction
//! share in percent; every division rounds towards zero. The stage reads the velocities as they were at the start of the tick and
//! hands back one record per change; it keeps nothing between ticks.

use vstd::prelude::*;
use vstd::arithmetic::div_mod::{
    lemma_div_is_ordered,
    lemma_div_by_multiple,
    lemma_div_multiples_vanish_quotient,
    lemma_div_pos_is_pos,
};
use crate::geometry::Vec3i;
use crate::contact::{CollisionSystem, Contact, contact_ok, min_i, normal_ok, axis_normal};
use crate::physics::{BodyState, PhysicsComponent, PhysicsType, velocity_ok};

verus! {

/// Tunable constants of the resolver.
#[derive(Clone, Copy, Debug, PartialEq, Eq, Structural)]
pub struct SolverConfig {
    /// Speed along the normal below which a contact counts as resting.
    pub resting_threshold: i64,
    /// Depth that is tolerated without positional correction.
    pub penetration_slop: i64,
    /// Percentage of the excess depth removed in one tick.
    pub correction_percent: u32,
}

impl SolverConfig {
    pub open spec fn wf(self) -> bool {
        0 <= self.resting_threshold && 0 <= self.penetration_slop && self.correction_percent
            <= 100
    }

    /// 0.2 m/s resting speed, 1 cm slop, 20 % correction.
    pub fn standard() -> (r: SolverConfig)
        ensures
            r.resting_threshold == 200,
            r.penetration_slop == 10,
            r.correction_percent == 20,
            r.wf(),
    {
        SolverConfig { resting_threshold: 200, penetration_slop: 10, correction_percent: 20 }
    }
}

/// A change of one body's velocity caused by one contact.
#[derive(Clone, Copy, Debug, PartialEq, Eq, Structural)]
pub struct Impulse {
    pub entity: usize,
    pub linear: Vec3i,
    pub angular: Vec3i,
}

/// A direct change of one body's position caused by one contact.
#[derive(Clone, Copy, Debug, PartialEq, Eq, Structural)]
pub struct Correction {
    pub entity: usize,
    pub delta: Vec3i,
}

pub open spec fn zero_vec() -> Vec3i {
    Vec3i { x: 0, y: 0, z: 0 }
}

/// `r` is the square root of `n` rounded down.
pub open spec fn is_floor_sqrt(n: int, r: int) -> bool {
    0 <= r && r * r <= n < (r + 1) * (r + 1)
}

/// The integer square root, rounded down.
pub open spec fn floor_sqrt(n: int) -> int {
    choose|r: int| #[trigger] is_floor_sqrt(n, r)
}

pub open spec fn body_at(bs: Seq<BodyState>, e: usize) -> BodyState {
    if e < bs.len() {
        bs[e as int]
    } else {
        BodyState { velocity: None, physics: None }
    }
}

pub open spec fn vel_of(b: BodyState) -> Vec3i {
    match b.velocity {
        Some(v) => v,
        None => zero_vec(),
    }
}

pub open spec fn movable_opt(p: Option<PhysicsComponent>) -> bool {
    p is Some && p.unwrap().movable()
}

/// Integer weights `(wa, wb)` proportional to the inverse masses; body A
/// takes the share `wa / (wa + wb)` of a change. A body that does not move
/// has weight zero.
pub open spec fn weights(pa: Option<PhysicsComponent>, pb: Option<PhysicsComponent>) -> (int, int) {
    if movable_opt(pa) && movable_opt(pb) {
        (pb.unwrap().mass as int, pa.unwrap().mass as int)
    } else if movable_opt(pa) {
        (1, 0)
    } else if movable_opt(pb) {
        (0, 1)
    } else {
        (0, 0)
    }
}

/// The lesser restitution of the two, or the only one given.
pub open spec fn restitution_of(pa: Option<PhysicsComponent>, pb: Option<PhysicsComponent>) -> int {
    match (pa, pb) {
        (Some(a), Some(b)) => min_i(a.restitution as int, b.restitution as int),
        (Some(a), None) => a.restitution as int,
        (None, Some(b)) => b.restitution as int,
        (None, None) => 0,
    }
}

/// The geometric mean of the two friction coefficients, or the only one given.
pub open spec fn friction_of(pa: Option<PhysicsComponent>, pb: Option<PhysicsComponent>) -> int {
    match (pa, pb) {
        (Some(a), Some(b)) => floor_sqrt(a.friction * b.friction),
        (Some(a), None) => a.friction as int,
        (None, Some(b)) => b.friction as int,
        (None, None) => 0,
    }
}

/// Velocity of B relative to A.
pub open spec fn relative(va: Vec3i, vb: Vec3i) -> (int, int, int) {
    (vb.x - va.x, vb.y - va.y, vb.z - va.z)
}

/// `x / d` rounded towards zero.
pub open spec fn quot(x: int, d: int) -> int {
    if x >= 0 {
        x / d
    } else {
        -((-x) / d)
    }
}

/// Component of `r` along the normal `n` (in thousandths), rounded towards
/// zero.
pub open spec fn along(r: (int, int, int), n: Vec3i) -> int {
    quot(r.0 * n.x + r.1 * n.y + r.2 * n.z, 1000)
}

/// `r` with its component `vn` along the normal `n` removed.
pub open spec fn tangent(r: (int, int, int), n: Vec3i, vn: int) -> (int, int, int) {
    (r.0 - quot(vn * n.x, 1000), r.1 - quot(vn * n.y, 1000), r.2 - quot(vn * n.z, 1000))
}

/// The vector `m * n` for a normal `n` in thousandths, each component
/// rounded towards zero.
pub open spec fn scaled_by(n: Vec3i, m: int) -> Vec3i {
    Vec3i {
        x: quot(n.x * m, 1000) as i64,
        y: quot(n.y * m, 1000) as i64,
        z: quot(n.z * m, 1000) as i64,
    }
}

pub open spec fn abs_i(v: int) -> int {
    if v >= 0 { v } else { -v }
}

/// `t * q * w / den`, rounded towards zero.
pub open spec fn share(t: int, q: int, w: int, den: int) -> int {
    if t >= 0 {
        t * q * w / den
    } else {
        -((-t) * q * w / den)
    }
}

/// The velocity changes along the normal for an approaching contact:
/// `(1 + e) |v_n|` split between the bodies by their weights.
pub open spec fn normal_part(c: Contact, wa: int, wb: int, e: int, avn: int) -> Seq<Impulse> {
    let tot = wa + wb;
    seq![
        Impulse {
            entity: c.entity_a,
            linear: scaled_by(c.normal, -((1000 + e) * avn * wa / (1000 * tot))),
            angular: zero_vec(),
        },
        Impulse {
            entity: c.entity_b,
            linear: scaled_by(c.normal, (1000 + e) * avn * wb / (1000 * tot)),
            angular: zero_vec(),
        },
    ]
}

/// The friction changes for an approaching contact with tangential relative
/// velocity `t`: opposite to `t`, of magnitude at most `mu (1 + e) |v_n|`,
/// split between the bodies by their weights.
pub open spec fn friction_part(
    c: Contact,
    t: (int, int, int),
    wa: int,
    wb: int,
    mu: int,
    e: int,
    avn: int,
) -> Seq<Impulse> {
    let l2 = t.0 * t.0 + t.1 * t.1 + t.2 * t.2;
    if l2 > 0 {
        let tot = wa + wb;
        let len = floor_sqrt(l2);
        let q = min_i(len * 1000000, mu * (1000 + e) * avn);
        let den = len * 1000000 * tot;
        seq![
            Impulse {
                entity: c.entity_a,
                linear: Vec3i {
                    x: share(t.0, q, wa, den) as i64,
                    y: share(t.1, q, wa, den) as i64,
                    z: share(t.2, q, wa, den) as i64,
                },
                angular: zero_vec(),
            },
            Impulse {
                entity: c.entity_b,
                linear: Vec3i {
                    x: -share(t.0, q, wb, den) as i64,
                    y: -share(t.1, q, wb, den) as i64,
                    z: -share(t.2, q, wb, den) as i64,
                },
                angular: zero_vec(),
            },
        ]
    } else {
        Seq::empty()
    }
}

/// The position changes for the depth beyond the slop, one for each body
/// that impulses move.
pub open spec fn correction_part(c: Contact, excess: int, pct: int, wa: int, wb: int) -> Seq<
    Correction,
> {
    let tot = wa + wb;
    if excess > 0 {
        (if wa > 0 {
            seq![
                Correction {
                    entity: c.entity_a,
                    delta: scaled_by(c.normal, -(excess * pct * wa / (100 * tot))),
                },
            ]
        } else {
            Seq::empty()
        }) + (if wb > 0 {
            seq![
                Correction {
                    entity: c.entity_b,
                    delta: scaled_by(c.normal, excess * pct * wb / (100 * tot)),
                },
            ]
        } else {
            Seq::empty()
        })
    } else {
        Seq::empty()
    }
}

/// A contact is skipped when neither body is moved by impulses, or when it
/// is resting: slow along the normal and not deeper than the slop.
pub open spec fn skipped(c: Contact, bs: Seq<BodyState>, cfg: SolverConfig) -> bool {
    let ba = body_at(bs, c.entity_a);
    let bb = body_at(bs, c.entity_b);
    let w = weights(ba.physics, bb.physics);
    let vn = along(relative(vel_of(ba), vel_of(bb)), c.normal);
    w.0 + w.1 == 0 || (abs_i(vn) < cfg.resting_threshold && c.penetration
        <= cfg.penetration_slop)
}

/// The impulses and corrections that one contact produces.
pub open spec fn contact_resolution(c: Contact, bs: Seq<BodyState>, cfg: SolverConfig) -> (
    Seq<Impulse>,
    Seq<Correction>,
) {
    let ba = body_at(bs, c.entity_a);
    let bb = body_at(bs, c.entity_b);
    let w = weights(ba.physics, bb.physics);
    let r = relative(vel_of(ba), vel_of(bb));
    let vn = along(r, c.normal);
    let e = restitution_of(ba.physics, bb.physics);
    if skipped(c, bs, cfg) {
        (Seq::empty(), Seq::empty())
    } else {
        (
            if vn < -cfg.resting_threshold {
                normal_part(c, w.0, w.1, e, abs_i(vn)) + friction_part(
                    c,
                    tangent(r, c.normal, vn),
                    w.0,
                    w.1,
                    friction_of(ba.physics, bb.physics),
                    e,
                    abs_i(vn),
                )
            } else {
                Seq::empty()
            },
            correction_part(
                c,
                c.penetration - cfg.penetration_slop,
                cfg.correction_percent as int,
                w.0,
                w.1,
            ),
        )
    }
}

/// The records of a whole tick: each contact's in the order of the contacts.
pub open spec fn resolution_of(cs: Seq<Contact>, bs: Seq<BodyState>, cfg: SolverConfig) -> (
    Seq<Impulse>,
    Seq<Correction>,
)
    decreases cs.len(),
{
    if cs.len() == 0 {
        (Seq::empty(), Seq::empty())
    } else {
        let prev = resolution_of(cs.drop_last(), bs, cfg);
        let last = contact_resolution(cs.last(), bs, cfg);
        (prev.0 + last.0, prev.1 + last.1)
    }
}

pub open spec fn bodies_wf(bs: Seq<BodyState>) -> bool {
    forall|i: int| 0 <= i < bs.len() ==> (#[trigger] bs[i]).wf()
}

pub open spec fn contacts_ok(cs: Seq<Contact>) -> bool {
    forall|i: int| 0 <= i < cs.len() ==> contact_ok(#[trigger] cs[i])
}

proof fn lemma_sqrt_unique(n: int, r: int, s: int)
    requires
        0 <= r,
        0 <= s,
        r * r <= n < (r + 1) * (r + 1),
        s * s <= n < (s + 1) * (s + 1),
    ensures
        r == s,
{
    if r < s {
        assert((r + 1) * (r + 1) <= s * s) by (nonlinear_arith)
            requires
                0 <= r < s,
        ;
    } else if s < r {
        assert((s + 1) * (s + 1) <= r * r) by (nonlinear_arith)
            requires
                0 <= s < r,
        ;
    }
}

/// Integer square root by bisection.
pub fn isqrt(n: u128) -> (r: u128)
    requires
        n < 0x4000_0000_0000_0000_0000_0000,
    ensures
        r == floor_sqrt(n as int),
        is_floor_sqrt(n as int, r as int),
        r <= 0x8000_0000_0000,
        n < 0x4_0000_0000_0000_0000 ==> r <= 0x2_0000_0000,
        n < 0x40_0000_0000_0000_0000 ==> r <= 0x8_0000_0000,
{
    let mut lo: u128 = 0;
    let mut hi: u128 = 0x8000_0000_0000;
    assert(hi * hi == 0x4000_0000_0000_0000_0000_0000);
    while hi - lo > 1
        invariant
            lo < hi <= 0x8000_0000_0000,
            lo * lo <= n < hi * hi,
        decreases hi - lo,
    {
        let mid = lo + (hi - lo) / 2;
        assert(mid * mid <= 0x4000_0000_0000_0000_0000_0000) by (nonlinear_arith)
            requires
                mid <= 0x8000_0000_0000,
        ;
        if mid * mid <= n {
            lo = mid;
        } else {
            hi = mid;
        }
    }
    proof {
        let lo_i = lo as int;
        assert(is_floor_sqrt(n as int, lo_i));
        let c = floor_sqrt(n as int);
        lemma_sqrt_unique(n as int, lo_i, c);
        if n < 0x40_0000_0000_0000_0000 && lo > 0x8_0000_0000 {
            assert(lo * lo > 0x40_0000_0000_0000_0000) by (nonlinear_arith)
                requires
                    lo > 0x8_0000_0000,
            ;
        }
        if n < 0x4_0000_0000_0000_0000 && lo > 0x2_0000_0000 {
            assert(lo * lo > 0x4_0000_0000_0000_0000) by (nonlinear_arith)
                requires
                    lo > 0x2_0000_0000,
            ;
        }
    }
    lo
}

/// `n * w / (k * tot)` is at most `n / k` when `w <= tot`.
proof fn lemma_part_bound(n: int, w: int, tot: int, k: int)
    requires
        0 <= n,
        0 <= w <= tot,
        0 < tot,
        0 < k,
    ensures
        0 <= n * w / (k * tot) <= n / k,
{
    assert(n * w <= n * tot && 0 <= n * w && 0 < k * tot) by (nonlinear_arith)
        requires
            0 <= n,
            0 <= w <= tot,
            0 < tot,
            0 < k,
    ;
    lemma_div_is_ordered(n * w, n * tot, k * tot);
    lemma_div_multiples_vanish_quotient(tot, n, k);
    assert(tot * n == n * tot && tot * k == k * tot) by (nonlinear_arith);
    lemma_div_pos_is_pos(n * w, k * tot);
}

/// `t * q / l` is at most `t` when `q <= l`.
pub(crate) proof fn lemma_fraction_bound(t: int, q: int, l: int)
    requires
        0 <= t,
        0 <= q <= l,
        0 < l,
    ensures
        t * q / l <= t,
{
    assert(t * q <= t * l) by (nonlinear_arith)
        requires
            0 <= t,
            0 <= q <= l,
    ;
    lemma_div_is_ordered(t * q, t * l, l);
    lemma_div_by_multiple(t, l);
}

fn quot_exec(x: i128) -> (r: i128)
    requires
        x > i128::MIN,
    ensures
        r == quot(x as int, 1000),
{
    if x >= 0 {
        x / 1000
    } else {
        -((-x) / 1000)
    }
}

/// `quot(t * m, 1000)` is at most `|m|` in size when `|t| <= 1000`.
proof fn lemma_quot_bound(t: int, m: int)
    requires
        -1000 <= t <= 1000,
    ensures
        -abs_i(m) <= quot(t * m, 1000) <= abs_i(m),
{
    let am = abs_i(m);
    let at = abs_i(t);
    assert(abs_i(t * m) == at * am) by (nonlinear_arith)
        requires
            am == abs_i(m),
            at == abs_i(t),
    ;
    assert(at * am <= 1000 * am) by (nonlinear_arith)
        requires
            0 <= at <= 1000,
            am >= 0,
    ;
    lemma_div_is_ordered(at * am, 1000 * am, 1000);
    lemma_div_by_multiple(am, 1000);
    assert(1000 * am == am * 1000);
    lemma_div_pos_is_pos(at * am, 1000);
}

fn scaled_exec(n: Vec3i, m: i64) -> (r: Vec3i)
    requires
        normal_ok(n),
        -0x4000_0000_0000_0000 <= m <= 0x4000_0000_0000_0000,
    ensures
        r == scaled_by(n, m as int),
{
    proof {
        lemma_quot_bound(n.x as int, m as int);
        lemma_quot_bound(n.y as int, m as int);
        lemma_quot_bound(n.z as int, m as int);
        crate::gjk::lemma_mul_bound(n.x as int, m as int, 1000, 0x4000_0000_0000_0000);
        crate::gjk::lemma_mul_bound(n.y as int, m as int, 1000, 0x4000_0000_0000_0000);
        crate::gjk::lemma_mul_bound(n.z as int, m as int, 1000, 0x4000_0000_0000_0000);
    }
    Vec3i {
        x: quot_exec(n.x as i128 * m as i128) as i64,
        y: quot_exec(n.y as i128 * m as i128) as i64,
        z: quot_exec(n.z as i128 * m as i128) as i64,
    }
}

fn is_movable(p: &Option<PhysicsComponent>) -> (r: bool)
    ensures
        r == movable_opt(*p),
{
    match p {
        Some(c) => c.is_movable(),
        None => false,
    }
}

fn weights_of(pa: &Option<PhysicsComponent>, pb: &Option<PhysicsComponent>) -> (r: (u128, u128))
    ensures
        r.0 == weights(*pa, *pb).0,
        r.1 == weights(*pa, *pb).1,
        r.0 < 0x1_0000_0000,
        r.1 < 0x1_0000_0000,
{
    let ma = is_movable(pa);
    let mb = is_movable(pb);
    if ma && mb {
        (pb.unwrap().mass as u128, pa.unwrap().mass as u128)
    } else if ma {
        (1, 0)
    } else if mb {
        (0, 1)
    } else {
        (0, 0)
    }
}

fn pair_restitution(pa: &Option<PhysicsComponent>, pb: &Option<PhysicsComponent>) -> (r: u128)
    ensures
        r == restitution_of(*pa, *pb),
        r < 0x1_0000_0000,
{
    match (pa, pb) {
        (Some(a), Some(b)) => if a.restitution <= b.restitution {
            a.restitution as u128
        } else {
            b.restitution as u128
        },
        (Some(a), None) => a.restitution as u128,
        (None, Some(b)) => b.restitution as u128,
        (None, None) => 0,
    }
}

fn pair_friction(pa: &Option<PhysicsComponent>, pb: &Option<PhysicsComponent>) -> (r: u128)
    ensures
        r == friction_of(*pa, *pb),
        r <= 0x2_0000_0000,
{
    match (pa, pb) {
        (Some(a), Some(b)) => {
            let fa = a.friction as u128;
            let fb = b.friction as u128;
            assert(fa * fb < 0x1_0000_0000_0000_0000) by (nonlinear_arith)
                requires
                    fa < 0x1_0000_0000,
                    fb < 0x1_0000_0000,
            ;
            let p = fa * fb;
            isqrt(p)
        },
        (Some(a), None) => a.friction as u128,
        (None, Some(b)) => b.friction as u128,
        (None, None) => 0,
    }
}

fn velocity_or_zero(b: &BodyState) -> (r: Vec3i)
    requires
        b.wf(),
    ensures
        r == vel_of(*b),
        velocity_ok(r),
{
    match b.velocity {
        Some(v) => v,
        None => Vec3i { x: 0, y: 0, z: 0 },
    }
}

fn along_exec(rx: i64, ry: i64, rz: i64, n: Vec3i) -> (r: i64)
    requires
        -0x8000_0000 <= rx <= 0x8000_0000,
        -0x8000_0000 <= ry <= 0x8000_0000,
        -0x8000_0000 <= rz <= 0x8000_0000,
        normal_ok(n),
    ensures
        r == along((rx as int, ry as int, rz as int), n),
        -0x2_0000_0000 <= r <= 0x2_0000_0000,
{
    proof {
        crate::gjk::lemma_mul_bound(rx as int, n.x as int, 0x8000_0000, 1000);
        crate::gjk::lemma_mul_bound(ry as int, n.y as int, 0x8000_0000, 1000);
        crate::gjk::lemma_mul_bound(rz as int, n.z as int, 0x8000_0000, 1000);
    }
    let d = rx as i128 * n.x as i128 + ry as i128 * n.y as i128 + rz as i128 * n.z as i128;
    proof {
        let ad = abs_i(d as int);
        lemma_div_is_ordered(ad, (3 * 0x8000_0000 * 1000) as int, 1000);
        lemma_div_pos_is_pos(ad, 1000);
    }
    quot_exec(d) as i64
}

fn tangent_exec(rx: i64, ry: i64, rz: i64, n: Vec3i, vn: i64) -> (r: (i64, i64, i64))
    requires
        -0x8000_0000 <= rx <= 0x8000_0000,
        -0x8000_0000 <= ry <= 0x8000_0000,
        -0x8000_0000 <= rz <= 0x8000_0000,
        -0x2_0000_0000 <= vn <= 0x2_0000_0000,
        normal_ok(n),
    ensures
        (r.0 as int, r.1 as int, r.2 as int) == tangent((rx as int, ry as int, rz as int), n, vn as int),
        -0x4_0000_0000 <= r.0 <= 0x4_0000_0000,
        -0x4_0000_0000 <= r.1 <= 0x4_0000_0000,
        -0x4_0000_0000 <= r.2 <= 0x4_0000_0000,
{
    proof {
        lemma_quot_bound(n.x as int, vn as int);
        lemma_quot_bound(n.y as int, vn as int);
        lemma_quot_bound(n.z as int, vn as int);
        assert(vn * n.x == n.x * vn && vn * n.y == n.y * vn && vn * n.z == n.z * vn) by (nonlinear_arith);
        crate::gjk::lemma_mul_bound(vn as int, n.x as int, 0x2_0000_0000, 1000);
        crate::gjk::lemma_mul_bound(vn as int, n.y as int, 0x2_0000_0000, 1000);
        crate::gjk::lemma_mul_bound(vn as int, n.z as int, 0x2_0000_0000, 1000);
    }
    (
        rx - quot_exec(vn as i128 * n.x as i128) as i64,
        ry - quot_exec(vn as i128 * n.y as i128) as i64,
        rz - quot_exec(vn as i128 * n.z as i128) as i64,
    )
}

/// One component of a friction change: `t * q * w / den`, rounded towards zero.
fn share_exec(t: i64, q: u128, w: u128, den: u128, len: u128, tot: u128) -> (r: i64)
    requires
        -0x4_0000_0000 <= t <= 0x4_0000_0000,
        t * t <= len * len,
        0 < len <= 0x8_0000_0000,
        q <= len * 1000000,
        0 <= w <= tot,
        0 < tot < 0x2_0000_0000,
        den == len * 1000000 * tot,
    ensures
        r == share(t as int, q as int, w as int, den as int),
        -0x4_0000_0000 <= r <= 0x4_0000_0000,
{
    let at: u128 = if t >= 0 { t as u128 } else { (-t) as u128 };
    assert(at * at == t * t) by (nonlinear_arith)
        requires
            at == t || at == -t,
    ;
    assert(den > 0) by (nonlinear_arith)
        requires
            den == len * 1000000 * tot,
            len > 0,
            tot > 0,
    ;
    assert(at <= len) by (nonlinear_arith)
        requires
            at * at <= len * len,
            0 < len,
            at >= 0,
    ;
    assert(at * q <= 0x8_0000_0000 * (0x8_0000_0000 * 1000000)) by (nonlinear_arith)
        requires
            at <= 0x8_0000_0000,
            q <= len * 1000000,
            len <= 0x8_0000_0000,
    ;
    assert(at * q * w <= 0x8_0000_0000 * (0x8_0000_0000 * 1000000) * 0x2_0000_0000)
        by (nonlinear_arith)
        requires
            at * q <= 0x8_0000_0000 * (0x8_0000_0000 * 1000000),
            w <= 0x2_0000_0000,
    ;
    let v = at * q * w / den;
    proof {
        lemma_part_bound(at * q, w as int, tot as int, len * 1000000);
        assert(len * 1000000 * tot == (len * 1000000) * tot);
        lemma_fraction_bound(at as int, q as int, len * 1000000);
    }
    if t >= 0 {
        v as i64
    } else {
        -(v as i64)
    }
}

/// `m * w / (k * tot)` as used for the normal change and the correction.
fn part_exec(m: u128, w: u128, tot: u128, k: u128) -> (r: u128)
    requires
        m < 0x1_0000_0000_0000_0000_0000,
        w <= tot,
        0 < tot < 0x2_0000_0000,
        0 < k <= 1000,
    ensures
        r == m * w / (k * tot),
        r <= m / k,
{
    assert(m * w < 0x1_0000_0000_0000_0000_0000 * 0x2_0000_0000) by (nonlinear_arith)
        requires
            m < 0x1_0000_0000_0000_0000_0000,
            w < 0x2_0000_0000,
    ;
    assert(k * tot <= 1000 * 0x2_0000_0000) by (nonlinear_arith)
        requires
            k <= 1000,
            tot < 0x2_0000_0000,
    ;
    assert(k * tot > 0) by (nonlinear_arith)
        requires
            k > 0,
            tot > 0,
    ;
    proof {
        lemma_part_bound(m as int, w as int, tot as int, k as int);
    }
    m * w / (k * tot)
}

/// A tangent component is no longer than the rounded-down tangent length.
pub(crate) proof fn lemma_component_le_len(t: int, l2: int, len: int)
    requires
        t * t <= l2,
        is_floor_sqrt(l2, len),
    ensures
        t * t <= len * len,
{
    if t * t > len * len {
        let at = abs_i(t);
        assert(at * at == t * t) by (nonlinear_arith)
            requires
                at == t || at == -t,
        ;
        if at <= len {
            assert(at * at <= len * len) by (nonlinear_arith)
                requires
                    0 <= at <= len,
            ;
        }
        assert((len + 1) * (len + 1) <= at * at) by (nonlinear_arith)
            requires
                0 <= len < at,
        ;
    }
}

fn push_normal(
    c: &Contact,
    wa: u128,
    wb: u128,
    e: u128,
    avn: u128,
    impulses: &mut Vec<Impulse>,
)
    requires
        wa + wb > 0,
        wa < 0x1_0000_0000,
        wb < 0x1_0000_0000,
        e < 0x1_0000_0000,
        avn <= 0x2_0000_0000,
        normal_ok(c.normal),
    ensures
        final(impulses)@ == old(impulses)@ + normal_part(
            *c,
            wa as int,
            wb as int,
            e as int,
            avn as int,
        ),
{
    let tot = wa + wb;
    assert((1000 + e) * avn <= 0x2_0000_0000 * 0x2_0000_0000) by (nonlinear_arith)
        requires
            e < 0x1_0000_0000,
            avn <= 0x2_0000_0000,
    ;
    let m = (1000 + e) * avn;
    let da = part_exec(m, wa, tot, 1000);
    let db = part_exec(m, wb, tot, 1000);
    proof {
        lemma_div_is_ordered(m as int, (0x2_0000_0000 * 0x2_0000_0000) as int, 1000);
    }
    let ia = Impulse {
        entity: c.entity_a,
        linear: scaled_exec(c.normal, -(da as i64)),
        angular: Vec3i::zero(),
    };
    let ib = Impulse {
        entity: c.entity_b,
        linear: scaled_exec(c.normal, db as i64),
        angular: Vec3i::zero(),
    };
    impulses.push(ia);
    impulses.push(ib);
    assert(impulses@ =~= old(impulses)@ + normal_part(
        *c,
        wa as int,
        wb as int,
        e as int,
        avn as int,
    ));
}

fn push_friction(
    c: &Contact,
    tx: i64,
    ty: i64,
    tz: i64,
    wa: u128,
    wb: u128,
    mu: u128,
    e: u128,
    avn: u128,
    impulses: &mut Vec<Impulse>,
)
    requires
        wa + wb > 0,
        wa < 0x1_0000_0000,
        wb < 0x1_0000_0000,
        mu <= 0x2_0000_0000,
        e < 0x1_0000_0000,
        avn <= 0x2_0000_0000,
        -0x4_0000_0000 <= tx <= 0x4_0000_0000,
        -0x4_0000_0000 <= ty <= 0x4_0000_0000,
        -0x4_0000_0000 <= tz <= 0x4_0000_0000,
    ensures
        final(impulses)@ == old(impulses)@ + friction_part(
            *c,
            (tx as int, ty as int, tz as int),
            wa as int,
            wb as int,
            mu as int,
            e as int,
            avn as int,
        ),
{
    let ghost spec_part = friction_part(
        *c,
        (tx as int, ty as int, tz as int),
        wa as int,
        wb as int,
        mu as int,
        e as int,
        avn as int,
    );
    let tot = wa + wb;
    assert(0 <= tx * tx <= 0x10_0000_0000_0000_0000 && 0 <= ty * ty <= 0x10_0000_0000_0000_0000
        && 0 <= tz * tz <= 0x10_0000_0000_0000_0000) by (nonlinear_arith)
        requires
            -0x4_0000_0000 <= tx <= 0x4_0000_0000,
            -0x4_0000_0000 <= ty <= 0x4_0000_0000,
            -0x4_0000_0000 <= tz <= 0x4_0000_0000,
    ;
    let sx = tx as i128 * tx as i128;
    let sy = ty as i128 * ty as i128;
    let sz = tz as i128 * tz as i128;
    assert(0 <= sx <= 0x10_0000_0000_0000_0000 && 0 <= sy <= 0x10_0000_0000_0000_0000 && 0 <= sz
        <= 0x10_0000_0000_0000_0000);
    let l2 = (sx + sy + sz) as u128;
    if l2 == 0 {
        assert(impulses@ =~= old(impulses)@ + spec_part);
        return ;
    }
    let len = isqrt(l2);
    assert(is_floor_sqrt(l2 as int, len as int));
    assert((len + 1) * (len + 1) > l2);
    assert(len > 0) by (nonlinear_arith)
        requires
            (len + 1) * (len + 1) > l2,
            l2 > 0,
            len >= 0,
    ;
    proof {
        lemma_component_le_len(tx as int, l2 as int, len as int);
        lemma_component_le_len(ty as int, l2 as int, len as int);
        lemma_component_le_len(tz as int, l2 as int, len as int);
    }
    let k1000e = 1000 + e;
    assert(mu * k1000e <= 0x2_0000_0000 * 0x2_0000_0000 && mu * k1000e * avn <= 0x2_0000_0000
        * 0x2_0000_0000 * 0x2_0000_0000) by (nonlinear_arith)
        requires
            mu <= 0x2_0000_0000,
            k1000e <= 0x2_0000_0000,
            avn <= 0x2_0000_0000,
    ;
    let fq = mu * k1000e * avn;
    let cap = len * 1000000;
    let q = if cap <= fq {
        cap
    } else {
        fq
    };
    assert(len * 1000000 * tot <= 0x8_0000_0000 * 1000000 * 0x2_0000_0000) by (nonlinear_arith)
        requires
            len <= 0x8_0000_0000,
            tot <= 0x2_0000_0000,
    ;
    let den = len * 1000000 * tot;
    let ia = Impulse {
        entity: c.entity_a,
        linear: Vec3i {
            x: share_exec(tx, q, wa, den, len, tot),
            y: share_exec(ty, q, wa, den, len, tot),
            z: share_exec(tz, q, wa, den, len, tot),
        },
        angular: Vec3i::zero(),
    };
    let ib = Impulse {
        entity: c.entity_b,
        linear: Vec3i {
            x: -share_exec(tx, q, wb, den, len, tot),
            y: -share_exec(ty, q, wb, den, len, tot),
            z: -share_exec(tz, q, wb, den, len, tot),
        },
        angular: Vec3i::zero(),
    };
    impulses.push(ia);
    impulses.push(ib);
    assert(impulses@ =~= old(impulses)@ + spec_part);
}

fn push_corrections(
    c: &Contact,
    excess: i64,
    pct: u32,
    wa: u128,
    wb: u128,
    corrections: &mut Vec<Correction>,
)
    requires
        wa + wb > 0,
        wa < 0x1_0000_0000,
        wb < 0x1_0000_0000,
        pct <= 100,
        excess <= 0x1_0000_0000,
        normal_ok(c.normal),
    ensures
        final(corrections)@ == old(corrections)@ + correction_part(
            *c,
            excess as int,
            pct as int,
            wa as int,
            wb as int,
        ),
{
    let ghost spec_part = correction_part(*c, excess as int, pct as int, wa as int, wb as int);
    if excess <= 0 {
        assert(corrections@ =~= old(corrections)@ + spec_part);
        return ;
    }
    let tot = wa + wb;
    assert(excess * pct <= 0x1_0000_0000 * 100) by (nonlinear_arith)
        requires
            0 < excess <= 0x1_0000_0000,
            pct <= 100,
    ;
    let m = excess as u128 * pct as u128;
    let ghost pa: Seq<Correction> = Seq::empty();
    let ghost pb: Seq<Correction> = Seq::empty();
    if wa > 0 {
        let ca = part_exec(m, wa, tot, 100);
        let ka = Correction { entity: c.entity_a, delta: scaled_exec(c.normal, -(ca as i64)) };
        corrections.push(ka);
        proof {
            pa = seq![ka];
        }
    }
    if wb > 0 {
        let cb = part_exec(m, wb, tot, 100);
        let kb = Correction { entity: c.entity_b, delta: scaled_exec(c.normal, cb as i64) };
        corrections.push(kb);
        proof {
            pb = seq![kb];
        }
    }
    assert(pa + pb == spec_part);
    assert(corrections@ =~= old(corrections)@ + spec_part);
}

/// Appends the records of one contact.
fn resolve_one(
    c: &Contact,
    bodies: &Vec<BodyState>,
    cfg: &SolverConfig,
    impulses: &mut Vec<Impulse>,
    corrections: &mut Vec<Correction>,
)
    requires
        contact_ok(*c),
        bodies_wf(bodies@),
        cfg.wf(),
    ensures
        final(impulses)@ == old(impulses)@ + contact_resolution(*c, bodies@, *cfg).0,
        final(corrections)@ == old(corrections)@ + contact_resolution(*c, bodies@, *cfg).1,
{
    let ghost res = contact_resolution(*c, bodies@, *cfg);
    let ba = if c.entity_a < bodies.len() {
        bodies[c.entity_a]
    } else {
        BodyState { velocity: None, physics: None }
    };
    let bb = if c.entity_b < bodies.len() {
        bodies[c.entity_b]
    } else {
        BodyState { velocity: None, physics: None }
    };
    assert(ba == body_at(bodies@, c.entity_a));
    assert(bb == body_at(bodies@, c.entity_b));
    let (wa, wb) = weights_of(&ba.physics, &bb.physics);
    let va = velocity_or_zero(&ba);
    let vb = velocity_or_zero(&bb);
    let rx = vb.x - va.x;
    let ry = vb.y - va.y;
    let rz = vb.z - va.z;
    let vn = along_exec(rx, ry, rz, c.normal);
    let avn: i64 = if vn >= 0 {
        vn
    } else {
        -vn
    };
    if wa + wb == 0 || (avn < cfg.resting_threshold && c.penetration <= cfg.penetration_slop) {
        assert(impulses@ =~= old(impulses)@ + res.0);
        assert(corrections@ =~= old(corrections)@ + res.1);
        return ;
    }
    let e = pair_restitution(&ba.physics, &bb.physics);
    if vn < -cfg.resting_threshold {
        push_normal(c, wa, wb, e, avn as u128, impulses);
        let (tx, ty, tz) = tangent_exec(rx, ry, rz, c.normal, vn);
        let mu = pair_friction(&ba.physics, &bb.physics);
        push_friction(c, tx, ty, tz, wa, wb, mu, e, avn as u128, impulses);
    }
    assert(impulses@ =~= old(impulses)@ + res.0);
    push_corrections(
        c,
        c.penetration - cfg.penetration_slop,
        cfg.correction_percent,
        wa,
        wb,
        corrections,
    );
}

impl CollisionSystem {
    /// Resolves one tick's contacts against the bodies' start-of-tick state
    /// and consumes them, leaving the contact list empty. Returns the
    /// velocity changes and the position changes, each in the order of the
    /// contacts; contacts between two bodies that impulses do not move, and
    /// resting contacts, produce nothing.
    pub fn resolve_contacts(
        contacts: &mut Vec<Contact>,
        bodies: &Vec<BodyState>,
        cfg: &SolverConfig,
    ) -> (r: (Vec<Impulse>, Vec<Correction>))
        requires
            contacts_ok(old(contacts)@),
            bodies_wf(bodies@),
            cfg.wf(),
        ensures
            r.0@ == resolution_of(old(contacts)@, bodies@, *cfg).0,
            r.1@ == resolution_of(old(contacts)@, bodies@, *cfg).1,
            final(contacts)@.len() == 0,
    {
        let mut impulses: Vec<Impulse> = Vec::new();
        let mut corrections: Vec<Correction> = Vec::new();
        let mut i: usize = 0;
        while i < contacts.len()
            invariant
                i <= contacts@.len(),
                contacts_ok(contacts@),
                bodies_wf(bodies@),
                cfg.wf(),
                impulses@ == resolution_of(contacts@.take(i as int), bodies@, *cfg).0,
                corrections@ == resolution_of(contacts@.take(i as int), bodies@, *cfg).1,
            decreases contacts@.len() - i,
        {
            assert(contacts@.take(i as int + 1).drop_last() == contacts@.take(i as int));
            assert(contact_ok(contacts@[i as int]));
            resolve_one(&contacts[i], bodies, cfg, &mut impulses, &mut corrections);
            i = i + 1;
        }
        assert(contacts@.take(contacts@.len() as int) == contacts@);
        contacts.clear();
        (impulses, corrections)
    }
}

/// `v + d` componentwise.
pub open spec fn plus(v: Vec3i, d: Vec3i) -> (int, int, int) {
    (v.x + d.x, v.y + d.y, v.z + d.z)
}

pub open spec fn as_ints(v: Vec3i) -> (int, int, int) {
    (v.x as int, v.y as int, v.z as int)
}

/// A tick without contacts produces no impulse and no correction, so it
/// leaves every velocity and every position as it was. Since resolving
/// empties the contact list, resolving the same tick a second time is such
/// a tick.
pub proof fn law_empty_tick_changes_nothing(bs: Seq<BodyState>, cfg: SolverConfig)
    ensures
        resolution_of(Seq::empty(), bs, cfg).0.len() == 0,
        resolution_of(Seq::empty(), bs, cfg).1.len() == 0,
{
}

/// A contact that is slow along its normal and not deeper than the slop
/// produces no impulse and no correction.
pub proof fn law_resting_contact_no_impulse(c: Contact, bs: Seq<BodyState>, cfg: SolverConfig)
    requires
        abs_i(
            along(
                relative(vel_of(body_at(bs, c.entity_a)), vel_of(body_at(bs, c.entity_b))),
                c.normal,
            ),
        ) < cfg.resting_threshold,
        c.penetration <= cfg.penetration_slop,
    ensures
        contact_resolution(c, bs, cfg).0.len() == 0,
        contact_resolution(c, bs, cfg).1.len() == 0,
{
}

/// The normal is a unit vector along one coordinate axis.
pub open spec fn is_axis_normal(n: Vec3i) -> bool {
    ||| ((n.x == 1000 || n.x == -1000) && n.y == 0 && n.z == 0)
    ||| (n.x == 0 && (n.y == 1000 || n.y == -1000) && n.z == 0)
    ||| (n.x == 0 && n.y == 0 && (n.z == 1000 || n.z == -1000))
}

proof fn lemma_quot_exact(k: int)
    ensures
        quot(1000 * k, 1000) == k,
        quot(-1000 * k, 1000) == -k,
        quot(0 * k, 1000) == 0,
        quot(k * 1000, 1000) == k,
        quot(k * -1000, 1000) == -k,
        quot(k * 0, 1000) == 0,
{
    let a = abs_i(k);
    lemma_div_by_multiple(a, 1000);
    assert(1000 * k == k * 1000 && -1000 * k == k * -1000 && 0 * k == 0 && k * 0 == 0)
        by (nonlinear_arith);
    if k >= 0 {
        assert(k * 1000 == a * 1000);
        assert(k * -1000 == -(a * 1000)) by (nonlinear_arith)
            requires
                a == k,
        ;
    } else {
        assert(k * 1000 == -(a * 1000)) by (nonlinear_arith)
            requires
                a == -k,
        ;
        assert(k * -1000 == a * 1000) by (nonlinear_arith)
            requires
                a == -k,
        ;
    }
}

proof fn lemma_along_shift(v: Vec3i, n: Vec3i, k: int)
    requires
        velocity_ok(v),
        is_axis_normal(n),
        -0x1_0000_0000 <= k <= 0x1_0000_0000,
    ensures
        along(plus(v, scaled_by(n, k)), n) == along(as_ints(v), n) + k,
        tangent(plus(v, scaled_by(n, k)), n, along(plus(v, scaled_by(n, k)), n)) == tangent(
            as_ints(v),
            n,
            along(as_ints(v), n),
        ),
{
    lemma_quot_exact(k);
    lemma_quot_exact(v.x as int);
    lemma_quot_exact(v.y as int);
    lemma_quot_exact(v.z as int);
    lemma_quot_exact(v.x + k);
    lemma_quot_exact(v.y + k);
    lemma_quot_exact(v.z + k);
    lemma_quot_exact(-v.x + k);
    lemma_quot_exact(-v.y + k);
    lemma_quot_exact(-v.z + k);
    lemma_quot_exact(v.x - k);
    lemma_quot_exact(v.y - k);
    lemma_quot_exact(v.z - k);
    lemma_quot_exact(-(v.x as int));
    lemma_quot_exact(-(v.y as int));
    lemma_quot_exact(-(v.z as int));
    assert(v.x * 0 == 0 && v.y * 0 == 0 && v.z * 0 == 0) by (nonlinear_arith);
    let w = plus(v, scaled_by(n, k));
    if n.x == 1000 {
        assert(w.0 * n.x + w.1 * n.y + w.2 * n.z == (v.x + k) * 1000) by (nonlinear_arith)
            requires
                w.0 == v.x + k,
                n.x == 1000,
                n.y == 0,
                n.z == 0,
        ;
        assert(as_ints(v).0 * n.x + as_ints(v).1 * n.y + as_ints(v).2 * n.z == v.x * 1000)
            by (nonlinear_arith)
            requires
                n.x == 1000,
                n.y == 0,
                n.z == 0,
        ;
    } else if n.x == -1000 {
        assert(w.0 * n.x + w.1 * n.y + w.2 * n.z == (-v.x + k) * 1000) by (nonlinear_arith)
            requires
                w.0 == v.x - k,
                n.x == -1000,
                n.y == 0,
                n.z == 0,
        ;
        assert(as_ints(v).0 * n.x + as_ints(v).1 * n.y + as_ints(v).2 * n.z == -(v.x as int) * 1000)
            by (nonlinear_arith)
            requires
                n.x == -1000,
                n.y == 0,
                n.z == 0,
        ;
    } else if n.y == 1000 {
        assert(w.0 * n.x + w.1 * n.y + w.2 * n.z == (v.y + k) * 1000) by (nonlinear_arith)
            requires
                w.1 == v.y + k,
                n.y == 1000,
                n.x == 0,
                n.z == 0,
        ;
        assert(as_ints(v).0 * n.x + as_ints(v).1 * n.y + as_ints(v).2 * n.z == v.y * 1000)
            by (nonlinear_arith)
            requires
                n.y == 1000,
                n.x == 0,
                n.z == 0,
        ;
    } else if n.y == -1000 {
        assert(w.0 * n.x + w.1 * n.y + w.2 * n.z == (-v.y + k) * 1000) by (nonlinear_arith)
            requires
                w.1 == v.y - k,
                n.y == -1000,
                n.x == 0,
                n.z == 0,
        ;
        assert(as_ints(v).0 * n.x + as_ints(v).1 * n.y + as_ints(v).2 * n.z == -(v.y as int) * 1000)
            by (nonlinear_arith)
            requires
                n.y == -1000,
                n.x == 0,
                n.z == 0,
        ;
    } else if n.z == 1000 {
        assert(w.0 * n.x + w.1 * n.y + w.2 * n.z == (v.z + k) * 1000) by (nonlinear_arith)
            requires
                w.2 == v.z + k,
                n.z == 1000,
                n.x == 0,
                n.y == 0,
        ;
        assert(as_ints(v).0 * n.x + as_ints(v).1 * n.y + as_ints(v).2 * n.z == v.z * 1000)
            by (nonlinear_arith)
            requires
                n.z == 1000,
                n.x == 0,
                n.y == 0,
        ;
    } else {
        assert(w.0 * n.x + w.1 * n.y + w.2 * n.z == (-v.z + k) * 1000) by (nonlinear_arith)
            requires
                w.2 == v.z - k,
                n.z == -1000,
                n.x == 0,
                n.y == 0,
        ;
        assert(as_ints(v).0 * n.x + as_ints(v).1 * n.y + as_ints(v).2 * n.z == -(v.z as int) * 1000)
            by (nonlinear_arith)
            requires
                n.z == -1000,
                n.x == 0,
                n.y == 0,
        ;
    }
}

/// Two dynamic bodies of equal mass and restitution one that approach each
/// other head-on along a coordinate axis swap their velocity components
/// along the normal, keep the others, and the two changes cancel, so
/// momentum is kept.
pub proof fn law_elastic_exchange(c: Contact, bs: Seq<BodyState>, cfg: SolverConfig, m: u32)
    requires
        cfg.wf(),
        is_axis_normal(c.normal),
        c.entity_a < bs.len(),
        c.entity_b < bs.len(),
        m > 0,
        bs[c.entity_a as int].physics == Some(
            PhysicsComponent {
                physics_type: PhysicsType::Dynamic,
                mass: m,
                restitution: 1000,
                friction: bs[c.entity_a as int].physics.unwrap().friction,
            },
        ),
        bs[c.entity_b as int].physics == Some(
            PhysicsComponent {
                physics_type: PhysicsType::Dynamic,
                mass: m,
                restitution: 1000,
                friction: bs[c.entity_b as int].physics.unwrap().friction,
            },
        ),
        bs[c.entity_a as int].velocity is Some,
        bs[c.entity_b as int].velocity is Some,
        velocity_ok(bs[c.entity_a as int].velocity.unwrap()),
        velocity_ok(bs[c.entity_b as int].velocity.unwrap()),
        along(
            relative(
                bs[c.entity_a as int].velocity.unwrap(),
                bs[c.entity_b as int].velocity.unwrap(),
            ),
            c.normal,
        ) < -cfg.resting_threshold,
        ({
            let r = relative(
                bs[c.entity_a as int].velocity.unwrap(),
                bs[c.entity_b as int].velocity.unwrap(),
            );
            tangent(r, c.normal, along(r, c.normal)) == (0int, 0int, 0int)
        }),
    ensures
        ({
            let va = bs[c.entity_a as int].velocity.unwrap();
            let vb = bs[c.entity_b as int].velocity.unwrap();
            let imp = contact_resolution(c, bs, cfg).0;
            let wa = plus(va, imp[0].linear);
            let wb = plus(vb, imp[1].linear);
            &&& imp.len() == 2
            &&& imp[0].entity == c.entity_a
            &&& imp[1].entity == c.entity_b
            &&& along(wa, c.normal) == along(as_ints(vb), c.normal)
            &&& along(wb, c.normal) == along(as_ints(va), c.normal)
            &&& tangent(wa, c.normal, along(wa, c.normal)) == tangent(
                as_ints(va),
                c.normal,
                along(as_ints(va), c.normal),
            )
            &&& tangent(wb, c.normal, along(wb, c.normal)) == tangent(
                as_ints(vb),
                c.normal,
                along(as_ints(vb), c.normal),
            )
            &&& plus(imp[0].linear, imp[1].linear) == (0int, 0int, 0int)
        }),
{
    let va = bs[c.entity_a as int].velocity.unwrap();
    let vb = bs[c.entity_b as int].velocity.unwrap();
    let r = relative(va, vb);
    let vn = along(r, c.normal);
    let avn = -vn;
    let mm = m as int;
    assert(body_at(bs, c.entity_a) == bs[c.entity_a as int]);
    assert(body_at(bs, c.entity_b) == bs[c.entity_b as int]);
    assert(weights(bs[c.entity_a as int].physics, bs[c.entity_b as int].physics) == (mm, mm));
    assert((1000 + 1000) * avn * mm == avn * (2000 * mm) && 1000 * (mm + mm) == 2000 * mm)
        by (nonlinear_arith);
    lemma_div_by_multiple(avn, 2000 * mm);
    assert(friction_part(
        c,
        tangent(r, c.normal, vn),
        mm,
        mm,
        friction_of(bs[c.entity_a as int].physics, bs[c.entity_b as int].physics),
        1000,
        avn,
    ) == Seq::<Impulse>::empty());
    let imp = contact_resolution(c, bs, cfg).0;
    assert(imp == normal_part(c, mm, mm, 1000, avn));
    lemma_along_shift(va, c.normal, 0);
    lemma_along_shift(vb, c.normal, 0);
    assert(plus(va, scaled_by(c.normal, 0)) == as_ints(va));
    assert(plus(vb, scaled_by(c.normal, 0)) == as_ints(vb));
    assert(along(r, c.normal) == along(as_ints(vb), c.normal) - along(as_ints(va), c.normal)) by {
        lemma_along_relative(va, vb, c.normal);
    }
    assert(0 < avn <= 0x8000_0000);
    lemma_along_shift(va, c.normal, -avn);
    lemma_along_shift(vb, c.normal, avn);
    lemma_quot_exact(avn);
    lemma_quot_exact(-avn);
}

/// Along an axis normal, the relative velocity's component is the
/// difference of the two components.
proof fn lemma_along_relative(va: Vec3i, vb: Vec3i, n: Vec3i)
    requires
        is_axis_normal(n),
        velocity_ok(va),
        velocity_ok(vb),
    ensures
        along(relative(va, vb), n) == along(as_ints(vb), n) - along(as_ints(va), n),
{
    let r = relative(va, vb);
    assert(r.0 * n.x + r.1 * n.y + r.2 * n.z == (vb.x * n.x + vb.y * n.y + vb.z * n.z) - (va.x * n.x
        + va.y * n.y + va.z * n.z)) by (nonlinear_arith)
        requires
            r.0 == vb.x - va.x,
            r.1 == vb.y - va.y,
            r.2 == vb.z - va.z,
    ;
    lemma_along_shift(va, n, 0);
    lemma_along_shift(vb, n, 0);
    assert(plus(va, scaled_by(n, 0)) == as_ints(va));
    assert(plus(vb, scaled_by(n, 0)) == as_ints(vb));
    lemma_quot_exact(vb.x - va.x);
    lemma_quot_exact(vb.y - va.y);
    lemma_quot_exact(vb.z - va.z);
    lemma_quot_exact(va.x as int);
    lemma_quot_exact(va.y as int);
    lemma_quot_exact(va.z as int);
    lemma_quot_exact(vb.x as int);
    lemma_quot_exact(vb.y as int);
    lemma_quot_exact(vb.z as int);
    if n.x != 0 {
        assert(r.0 * n.x + r.1 * n.y + r.2 * n.z == (vb.x - va.x) * n.x) by (nonlinear_arith)
            requires
                n.y == 0,
                n.z == 0,
                r.0 == vb.x - va.x,
                r.1 == vb.y - va.y,
                r.2 == vb.z - va.z,
        ;
        assert(vb.x * n.x + vb.y * n.y + vb.z * n.z == vb.x * n.x) by (nonlinear_arith)
            requires
                n.y == 0,
                n.z == 0,
        ;
        assert(va.x * n.x + va.y * n.y + va.z * n.z == va.x * n.x) by (nonlinear_arith)
            requires
                n.y == 0,
                n.z == 0,
        ;
    } else if n.y != 0 {
        assert(r.0 * n.x + r.1 * n.y + r.2 * n.z == (vb.y - va.y) * n.y) by (nonlinear_arith)
            requires
                n.x == 0,
                n.z == 0,
                r.0 == vb.x - va.x,
                r.1 == vb.y - va.y,
                r.2 == vb.z - va.z,
        ;
        assert(vb.x * n.x + vb.y * n.y + vb.z * n.z == vb.y * n.y) by (nonlinear_arith)
            requires
                n.x == 0,
                n.z == 0,
        ;
        assert(va.x * n.x + va.y * n.y + va.z * n.z == va.y * n.y) by (nonlinear_arith)
            requires
                n.x == 0,
                n.z == 0,
        ;
    } else {
        assert(r.0 * n.x + r.1 * n.y + r.2 * n.z == (vb.z - va.z) * n.z) by (nonlinear_arith)
            requires
                n.x == 0,
                n.y == 0,
                r.0 == vb.x - va.x,
                r.1 == vb.y - va.y,
                r.2 == vb.z - va.z,
        ;
        assert(vb.x * n.x + vb.y * n.y + vb.z * n.z == vb.z * n.z) by (nonlinear_arith)
            requires
                n.x == 0,
                n.y == 0,
        ;
        assert(va.x * n.x + va.y * n.y + va.z * n.z == va.z * n.z) by (nonlinear_arith)
            requires
                n.x == 0,
                n.y == 0,
        ;
    }
}
/// Every non-negative integer has a rounded-down square root.
proof fn lemma_floor_sqrt_exists(n: int)
    requires
        n >= 0,
    ensures
        is_floor_sqrt(n, floor_sqrt(n)),
    decreases n,
{
    if n == 0 {
        assert(is_floor_sqrt(0, 0));
    } else {
        lemma_floor_sqrt_exists(n - 1);
        let r = floor_sqrt(n - 1);
        if (r + 1) * (r + 1) <= n {
            assert(n < (r + 2) * (r + 2)) by (nonlinear_arith)
                requires
                    n - 1 < (r + 1) * (r + 1),
                    r >= 0,
            ;
            assert(is_floor_sqrt(n, r + 1));
        } else {
            assert(is_floor_sqrt(n, r));
        }
    }
}

/// `|share(t, q, w, den)| <= |t|` for the friction split.
proof fn lemma_share_bound(t: int, q: int, w: int, tot: int, len: int)
    requires
        0 <= q <= len * 1000000,
        0 <= w <= tot,
        0 < tot,
        0 < len,
    ensures
        -abs_i(t) <= share(t, q, w, len * 1000000 * tot) <= abs_i(t),
{
    let at = abs_i(t);
    assert(0 <= at * q) by (nonlinear_arith)
        requires
            at >= 0,
            q >= 0,
    ;
    lemma_part_bound(at * q, w, tot, len * 1000000);
    lemma_fraction_bound(at, q, len * 1000000);
    assert(len * 1000000 * tot == (len * 1000000) * tot);
    assert(-at * q == -(at * q)) by (nonlinear_arith);
}

/// The normal component of a relative velocity of valid bodies.
proof fn lemma_along_bound(r: (int, int, int), n: Vec3i)
    requires
        -0x8000_0000 <= r.0 <= 0x8000_0000,
        -0x8000_0000 <= r.1 <= 0x8000_0000,
        -0x8000_0000 <= r.2 <= 0x8000_0000,
        normal_ok(n),
    ensures
        -0x2_0000_0000 <= along(r, n) <= 0x2_0000_0000,
{
    crate::gjk::lemma_mul_bound(r.0, n.x as int, 0x8000_0000, 1000);
    crate::gjk::lemma_mul_bound(r.1, n.y as int, 0x8000_0000, 1000);
    crate::gjk::lemma_mul_bound(r.2, n.z as int, 0x8000_0000, 1000);
    let d = r.0 * n.x + r.1 * n.y + r.2 * n.z;
    lemma_div_is_ordered(abs_i(d), (3 * 0x8000_0000 * 1000) as int, 1000);
    lemma_div_pos_is_pos(abs_i(d), 1000);
}

/// When two dynamic bodies of equal mass meet, whatever the normal, each
/// velocity change that one body receives is matched by the opposite
/// change of the other, so their momentum is kept exactly.
pub proof fn law_equal_masses_keep_momentum(c: Contact, bs: Seq<BodyState>, cfg: SolverConfig)
    requires
        cfg.wf(),
        contact_ok(c),
        bodies_wf(bs),
        movable_opt(body_at(bs, c.entity_a).physics),
        movable_opt(body_at(bs, c.entity_b).physics),
        body_at(bs, c.entity_a).physics.unwrap().mass == body_at(bs, c.entity_b).physics.unwrap().mass,
    ensures
        ({
            let imp = contact_resolution(c, bs, cfg).0;
            &&& imp.len() == 0 || imp.len() == 2 || imp.len() == 4
            &&& forall|k: int|
                0 <= k && 2 * k + 1 < imp.len() ==> plus(
                    #[trigger] imp[2 * k].linear,
                    imp[2 * k + 1].linear,
                ) == (0int, 0int, 0int)
        }),
{
    let ba = body_at(bs, c.entity_a);
    let bb = body_at(bs, c.entity_b);
    if c.entity_a < bs.len() {
        assert(bs[c.entity_a as int].wf());
    }
    if c.entity_b < bs.len() {
        assert(bs[c.entity_b as int].wf());
    }
    let w = weights(ba.physics, bb.physics);
    let m = w.0;
    assert(w.1 == m && m > 0);
    let r = relative(vel_of(ba), vel_of(bb));
    lemma_along_bound(r, c.normal);
    let vn = along(r, c.normal);
    let avn = abs_i(vn);
    let e = restitution_of(ba.physics, bb.physics);
    assert(0 <= e < 0x1_0000_0000);
    let imp = contact_resolution(c, bs, cfg).0;
    if skipped(c, bs, cfg) || !(vn < -cfg.resting_threshold) {
        assert(imp.len() == 0);
        return ;
    }
    // normal pair
    let j = (1000 + e) * avn * m / (1000 * (m + m));
    crate::gjk::lemma_mul_bound(1000 + e, avn, (0x1_0000_0000 + 1000) as int, 0x2_0000_0000);
    assert(0 <= (1000 + e) * avn) by (nonlinear_arith)
        requires
            e >= 0,
            avn >= 0,
    ;
    lemma_part_bound((1000 + e) * avn, m, m + m, 1000);
    lemma_div_is_ordered((1000 + e) * avn, ((0x1_0000_0000 + 1000) * 0x2_0000_0000) as int, 1000);
    assert(0 <= j < 0x4000_0000_0000_0000);
    let n = c.normal;
    lemma_quot_bound(n.x as int, j);
    lemma_quot_bound(n.y as int, j);
    lemma_quot_bound(n.z as int, j);
    assert(n.x * (-j) == -(n.x * j) && n.y * (-j) == -(n.y * j) && n.z * (-j) == -(n.z * j))
        by (nonlinear_arith);
    let np = normal_part(c, m, m, e, avn);
    assert(plus(np[0].linear, np[1].linear) == (0int, 0int, 0int));
    // friction pair
    let t = tangent(r, n, vn);
    lemma_quot_bound(n.x as int, vn);
    lemma_quot_bound(n.y as int, vn);
    lemma_quot_bound(n.z as int, vn);
    assert(vn * n.x == n.x * vn && vn * n.y == n.y * vn && vn * n.z == n.z * vn) by (nonlinear_arith);
    let l2 = t.0 * t.0 + t.1 * t.1 + t.2 * t.2;
    let fp = friction_part(c, t, m, m, friction_of(ba.physics, bb.physics), e, avn);
    if l2 > 0 {
        let len = floor_sqrt(l2);
        lemma_floor_sqrt_exists(l2);
        assert(len >= 1) by {
            if len == 0 {
                assert((len + 1) * (len + 1) == 1) by (nonlinear_arith)
                    requires
                        len == 0,
                ;
            }
        }
        let mu = friction_of(ba.physics, bb.physics);
        assert(mu >= 0) by {
            let fa = ba.physics.unwrap().friction as int;
            let fb = bb.physics.unwrap().friction as int;
            assert(fa * fb >= 0) by (nonlinear_arith)
                requires
                    fa >= 0,
                    fb >= 0,
            ;
            lemma_floor_sqrt_exists(fa * fb);
        }
        let q = min_i(len * 1000000, mu * (1000 + e) * avn);
        assert(mu * (1000 + e) * avn >= 0) by (nonlinear_arith)
            requires
                mu >= 0,
                e >= 0,
                avn >= 0,
        ;
        assert(len * 1000000 >= 0) by (nonlinear_arith)
            requires
                len >= 1,
        ;
        lemma_share_bound(t.0, q, m, m + m, len);
        lemma_share_bound(t.1, q, m, m + m, len);
        lemma_share_bound(t.2, q, m, m + m, len);
        assert(plus(fp[0].linear, fp[1].linear) == (0int, 0int, 0int));
    }
    assert(imp == np + fp);
    assert forall|k: int| 0 <= k && 2 * k + 1 < imp.len() implies plus(
        #[trigger] imp[2 * k].linear,
        imp[2 * k + 1].linear,
    ) == (0int, 0int, 0int) by {
        if k == 0 {
            assert(imp[0] == np[0] && imp[1] == np[1]);
        } else {
            assert(k == 1);
            assert(imp[2] == fp[0] && imp[3] == fp[1]);
        }
    }
}

} // verus!
