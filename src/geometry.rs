//! Integer vectors and axis-aligned bounding boxes.

use vstd::prelude::*;

verus! {

/// Largest absolute coordinate of a box handed to the library.
pub const WORLD_LIMIT: i64 = 1073741824;

/// Amount by which a leaf's tight box is enlarged on every side.
pub const FAT_MARGIN: i64 = 100;

/// Largest absolute coordinate of any box that the library builds.
pub const NODE_LIMIT: i64 = 1073741924;

/// A point or a displacement with integer components.
#[derive(Clone, Copy, Debug, PartialEq, Eq, Structural)]
pub struct Vec3i {
    pub x: i64,
    pub y: i64,
    pub z: i64,
}

impl Vec3i {
    pub fn new(x: i64, y: i64, z: i64) -> (r: Vec3i)
        ensures
            r.x == x && r.y == y && r.z == z,
    {
        Vec3i { x, y, z }
    }

    pub fn zero() -> (r: Vec3i)
        ensures
            r.x == 0 && r.y == 0 && r.z == 0,
    {
        Vec3i { x: 0, y: 0, z: 0 }
    }
}

/// An axis-aligned bounding box; `min <= max` on every axis when well formed.
#[derive(Clone, Copy, Debug, PartialEq, Eq, Structural)]
pub struct Aabb {
    pub min: Vec3i,
    pub max: Vec3i,
}

pub open spec fn in_range(v: i64, lim: int) -> bool {
    -lim <= v <= lim
}

impl Aabb {
    /// `min <= max` componentwise.
    pub open spec fn wf(self) -> bool {
        self.min.x <= self.max.x && self.min.y <= self.max.y && self.min.z <= self.max.z
    }

    /// Every coordinate lies in `[-lim, lim]`.
    pub open spec fn within(self, lim: int) -> bool {
        in_range(self.min.x, lim) && in_range(self.min.y, lim) && in_range(self.min.z, lim)
            && in_range(self.max.x, lim) && in_range(self.max.y, lim) && in_range(self.max.z, lim)
    }

    /// A well-formed box of tight extents as the library accepts it.
    pub open spec fn valid(self) -> bool {
        self.wf() && self.within(WORLD_LIMIT as int)
    }

    /// A well-formed box of the size the tree stores.
    pub open spec fn stored(self) -> bool {
        self.wf() && self.within(NODE_LIMIT as int)
    }

    /// The two closed boxes share at least one point.
    pub open spec fn overlaps(self, o: Aabb) -> bool {
        self.min.x <= o.max.x && self.max.x >= o.min.x && self.min.y <= o.max.y && self.max.y
            >= o.min.y && self.min.z <= o.max.z && self.max.z >= o.min.z
    }

    /// `inner` lies inside `self`.
    pub open spec fn contains(self, inner: Aabb) -> bool {
        self.min.x <= inner.min.x && self.min.y <= inner.min.y && self.min.z <= inner.min.z
            && inner.max.x <= self.max.x && inner.max.y <= self.max.y && inner.max.z
            <= self.max.z
    }

    /// The smallest box holding both.
    pub open spec fn union(self, o: Aabb) -> Aabb {
        Aabb {
            min: Vec3i {
                x: if self.min.x <= o.min.x { self.min.x } else { o.min.x },
                y: if self.min.y <= o.min.y { self.min.y } else { o.min.y },
                z: if self.min.z <= o.min.z { self.min.z } else { o.min.z },
            },
            max: Vec3i {
                x: if self.max.x >= o.max.x { self.max.x } else { o.max.x },
                y: if self.max.y >= o.max.y { self.max.y } else { o.max.y },
                z: if self.max.z >= o.max.z { self.max.z } else { o.max.z },
            },
        }
    }

    /// The box grown by `m` on every side.
    pub open spec fn expanded(self, m: i64) -> Aabb {
        Aabb {
            min: Vec3i {
                x: (self.min.x - m) as i64,
                y: (self.min.y - m) as i64,
                z: (self.min.z - m) as i64,
            },
            max: Vec3i {
                x: (self.max.x + m) as i64,
                y: (self.max.y + m) as i64,
                z: (self.max.z + m) as i64,
            },
        }
    }

    /// Surface area: `2 (dx dy + dy dz + dz dx)`.
    pub open spec fn area(self) -> int {
        let dx = self.max.x - self.min.x;
        let dy = self.max.y - self.min.y;
        let dz = self.max.z - self.min.z;
        2 * (dx * dy + dy * dz + dz * dx)
    }

    pub fn new(min: Vec3i, max: Vec3i) -> (r: Aabb)
        ensures
            r.min == min && r.max == max,
    {
        Aabb { min, max }
    }

    /// Whether `inner` lies inside this box.
    pub fn contains_box(&self, inner: &Aabb) -> (r: bool)
        ensures
            r == self.contains(*inner),
    {
        self.min.x <= inner.min.x && self.min.y <= inner.min.y && self.min.z <= inner.min.z
            && inner.max.x <= self.max.x && inner.max.y <= self.max.y && inner.max.z
            <= self.max.z
    }

    /// The smallest box holding this one and `o`.
    pub fn merged(&self, o: &Aabb) -> (r: Aabb)
        ensures
            r == self.union(*o),
    {
        Aabb {
            min: Vec3i {
                x: if self.min.x <= o.min.x { self.min.x } else { o.min.x },
                y: if self.min.y <= o.min.y { self.min.y } else { o.min.y },
                z: if self.min.z <= o.min.z { self.min.z } else { o.min.z },
            },
            max: Vec3i {
                x: if self.max.x >= o.max.x { self.max.x } else { o.max.x },
                y: if self.max.y >= o.max.y { self.max.y } else { o.max.y },
                z: if self.max.z >= o.max.z { self.max.z } else { o.max.z },
            },
        }
    }

    /// The box enlarged by the tree's margin on every side.
    pub fn fattened(&self) -> (r: Aabb)
        requires
            self.valid(),
        ensures
            r == self.expanded(FAT_MARGIN),
            r.stored(),
            r.contains(*self),
    {
        Aabb {
            min: Vec3i {
                x: self.min.x - FAT_MARGIN,
                y: self.min.y - FAT_MARGIN,
                z: self.min.z - FAT_MARGIN,
            },
            max: Vec3i {
                x: self.max.x + FAT_MARGIN,
                y: self.max.y + FAT_MARGIN,
                z: self.max.z + FAT_MARGIN,
            },
        }
    }

    /// Surface area of a stored box.
    pub fn surface_area(&self) -> (r: i128)
        requires
            self.stored(),
        ensures
            r == self.area(),
    {
        let dx = self.max.x as i128 - self.min.x as i128;
        let dy = self.max.y as i128 - self.min.y as i128;
        let dz = self.max.z as i128 - self.min.z as i128;
        assert(0 <= dx * dy <= 0x4_0000_0000_0000_0000) by (nonlinear_arith)
            requires
                0 <= dx <= 0x1_0000_0000,
                0 <= dy <= 0x1_0000_0000,
        ;
        assert(0 <= dy * dz <= 0x4_0000_0000_0000_0000) by (nonlinear_arith)
            requires
                0 <= dy <= 0x1_0000_0000,
                0 <= dz <= 0x1_0000_0000,
        ;
        assert(0 <= dz * dx <= 0x4_0000_0000_0000_0000) by (nonlinear_arith)
            requires
                0 <= dz <= 0x1_0000_0000,
                0 <= dx <= 0x1_0000_0000,
        ;
        2 * (dx * dy + dy * dz + dz * dx)
    }
}

/// Whether two boxes share at least one point (touching counts).
pub fn aabb_intersects(a: &Aabb, b: &Aabb) -> (r: bool)
    ensures
        r == a.overlaps(*b),
{
    (a.min.x <= b.max.x && a.max.x >= b.min.x) && (a.min.y <= b.max.y && a.max.y >= b.min.y) && (
    a.min.z <= b.max.z && a.max.z >= b.min.z)
}

/// Containment is transitive.
pub proof fn lemma_contains_trans(a: Aabb, b: Aabb, c: Aabb)
    requires
        a.contains(b),
        b.contains(c),
    ensures
        a.contains(c),
{
}

} // verus!
