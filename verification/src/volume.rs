//! Points and axis-aligned bounding volumes on the integer grid.
//!
//! A volume is half open: it holds its minimum corner and stops short of its
//! maximum corner. Splitting a volume at its centre therefore yields eight
//! octants that share no point and leave none out.

use vstd::prelude::*;

verus! {

/// The side length along x at or below which a volume is no longer split.
pub const MIN_SIDE: i64 = 1;

/// A point of the integer grid.
#[derive(Clone, Copy, Debug, PartialEq, Eq, Structural)]
pub struct Point3 {
    pub x: i64,
    pub y: i64,
    pub z: i64,
}

impl Point3 {
    pub fn new(x: i64, y: i64, z: i64) -> (p: Point3)
        ensures
            p == (Point3 { x, y, z }),
    {
        Point3 { x, y, z }
    }
}

/// An axis-aligned bounding volume given by two opposite corners.
#[derive(Clone, Copy, Debug, PartialEq, Eq, Structural)]
pub struct Aabb3 {
    pub min: Point3,
    pub max: Point3,
}

/// A volume that can tell whether it encloses another one.
pub trait Surround {
    /// `self` reaches at least as far as `other` on every axis, in both
    /// directions.
    spec fn encloses(&self, other: &Self) -> bool;

    fn surrounds(&self, other: &Self) -> (r: bool)
        ensures
            r == self.encloses(other),
    ;
}

/// A volume that can tell whether it is too small to be split.
pub trait MinVolume {
    /// The side along x is at most [`MIN_SIDE`].
    spec fn minimal(&self) -> bool;

    fn is_min(&self) -> (r: bool)
        ensures
            r == self.minimal(),
    ;
}

/// The smaller of two coordinates.
pub open spec fn lower(a: i64, b: i64) -> i64 {
    if a <= b {
        a
    } else {
        b
    }
}

/// The larger of two coordinates.
pub open spec fn upper(a: i64, b: i64) -> i64 {
    if a <= b {
        b
    } else {
        a
    }
}

/// The coordinate half way from `a` to `b`, rounded towards `a` when `a <= b`.
pub open spec fn mid(a: i64, b: i64) -> int {
    a + (b - a) / 2
}

/// The volume with the given corners, taken as they are.
pub open spec fn span(
    min_x: int,
    min_y: int,
    min_z: int,
    max_x: int,
    max_y: int,
    max_z: int,
) -> Aabb3 {
    Aabb3 {
        min: Point3 { x: min_x as i64, y: min_y as i64, z: min_z as i64 },
        max: Point3 { x: max_x as i64, y: max_y as i64, z: max_z as i64 },
    }
}

fn smaller(a: i64, b: i64) -> (m: i64)
    ensures
        m == lower(a, b),
{
    if a <= b {
        a
    } else {
        b
    }
}

fn larger(a: i64, b: i64) -> (m: i64)
    ensures
        m == upper(a, b),
{
    if a <= b {
        b
    } else {
        a
    }
}

fn halfway(a: i64, b: i64) -> (m: i64)
    requires
        a <= b,
    ensures
        m == mid(a, b),
        a <= m <= b,
{
    let wide: i128 = (b as i128) - (a as i128);
    let m: i128 = (a as i128) + wide / 2;
    m as i64
}

impl Aabb3 {
    /// The volume spanned by two points: on each axis the smaller coordinate
    /// becomes the minimum and the larger one the maximum.
    pub open spec fn spanning(a: Point3, b: Point3) -> Aabb3 {
        Aabb3 {
            min: Point3 { x: lower(a.x, b.x), y: lower(a.y, b.y), z: lower(a.z, b.z) },
            max: Point3 { x: upper(a.x, b.x), y: upper(a.y, b.y), z: upper(a.z, b.z) },
        }
    }

    /// No component of the minimum corner exceeds that of the maximum corner.
    pub open spec fn ordered(&self) -> bool {
        &&& self.min.x <= self.max.x
        &&& self.min.y <= self.max.y
        &&& self.min.z <= self.max.z
    }

    /// The point lies in the volume: at or above the minimum corner and
    /// strictly below the maximum corner on every axis.
    pub open spec fn holds(&self, p: Point3) -> bool {
        &&& self.min.x <= p.x < self.max.x
        &&& self.min.y <= p.y < self.max.y
        &&& self.min.z <= p.z < self.max.z
    }

    /// The side length along x.
    pub open spec fn x_side(&self) -> int {
        self.max.x - self.min.x
    }

    /// Which of the eight octants a point is routed to: 1 is added for the
    /// upper half along x, 2 along y and 4 along z.
    pub open spec fn octant_of(&self, p: Point3) -> int {
        (if p.x >= mid(self.min.x, self.max.x) { 1int } else { 0int })
        + (if p.y >= mid(self.min.y, self.max.y) { 2int } else { 0int })
        + (if p.z >= mid(self.min.z, self.max.z) { 4int } else { 0int })
    }

    /// The `k`-th octant of the volume, split at the centre of every axis.
    pub open spec fn octant(&self, k: int) -> Aabb3 {
        let cx = mid(self.min.x, self.max.x);
        let cy = mid(self.min.y, self.max.y);
        let cz = mid(self.min.z, self.max.z);
        span(
            if k % 2 == 1 { cx } else { self.min.x as int },
            if (k / 2) % 2 == 1 { cy } else { self.min.y as int },
            if (k / 4) % 2 == 1 { cz } else { self.min.z as int },
            if k % 2 == 1 { self.max.x as int } else { cx },
            if (k / 2) % 2 == 1 { self.max.y as int } else { cy },
            if (k / 4) % 2 == 1 { self.max.z as int } else { cz },
        )
    }

    pub fn new(a: Point3, b: Point3) -> (v: Aabb3)
        ensures
            v == Aabb3::spanning(a, b),
            v.ordered(),
    {
        Aabb3 {
            min: Point3 { x: smaller(a.x, b.x), y: smaller(a.y, b.y), z: smaller(a.z, b.z) },
            max: Point3 { x: larger(a.x, b.x), y: larger(a.y, b.y), z: larger(a.z, b.z) },
        }
    }

    pub fn contains(&self, p: &Point3) -> (r: bool)
        ensures
            r == self.holds(*p),
    {
        self.min.x <= p.x && p.x < self.max.x && self.min.y <= p.y && p.y < self.max.y
            && self.min.z <= p.z && p.z < self.max.z
    }

    /// The eight octants of an ordered volume, in routing order.
    pub fn octants(&self) -> (parts: Vec<Aabb3>)
        requires
            self.ordered(),
        ensures
            parts@.len() == 8,
            forall|k: int| 0 <= k < 8 ==> parts@[k] == #[trigger] self.octant(k),
    {
        let cx: i64 = halfway(self.min.x, self.max.x);
        let cy: i64 = halfway(self.min.y, self.max.y);
        let cz: i64 = halfway(self.min.z, self.max.z);
        let lo = self.min;
        let hi = self.max;
        let mut parts: Vec<Aabb3> = Vec::with_capacity(8);
        parts.push(Aabb3 { min: Point3 { x: lo.x, y: lo.y, z: lo.z }, max: Point3 { x: cx, y: cy, z: cz } });
        parts.push(Aabb3 { min: Point3 { x: cx, y: lo.y, z: lo.z }, max: Point3 { x: hi.x, y: cy, z: cz } });
        parts.push(Aabb3 { min: Point3 { x: lo.x, y: cy, z: lo.z }, max: Point3 { x: cx, y: hi.y, z: cz } });
        parts.push(Aabb3 { min: Point3 { x: cx, y: cy, z: lo.z }, max: Point3 { x: hi.x, y: hi.y, z: cz } });
        parts.push(Aabb3 { min: Point3 { x: lo.x, y: lo.y, z: cz }, max: Point3 { x: cx, y: cy, z: hi.z } });
        parts.push(Aabb3 { min: Point3 { x: cx, y: lo.y, z: cz }, max: Point3 { x: hi.x, y: cy, z: hi.z } });
        parts.push(Aabb3 { min: Point3 { x: lo.x, y: cy, z: cz }, max: Point3 { x: cx, y: hi.y, z: hi.z } });
        parts.push(Aabb3 { min: Point3 { x: cx, y: cy, z: cz }, max: Point3 { x: hi.x, y: hi.y, z: hi.z } });
        assert(parts@[0] == self.octant(0));
        assert(parts@[1] == self.octant(1));
        assert(parts@[2] == self.octant(2));
        assert(parts@[3] == self.octant(3));
        assert(parts@[4] == self.octant(4));
        assert(parts@[5] == self.octant(5));
        assert(parts@[6] == self.octant(6));
        assert(parts@[7] == self.octant(7));
        parts
    }

    /// A point of the volume lies in the octant it is routed to and in no
    /// other, and a point outside the volume lies in no octant.
    pub proof fn lemma_octants_tile(&self, p: Point3)
        ensures
            0 <= self.octant_of(p) < 8,
            self.holds(p) ==> self.octant(self.octant_of(p)).holds(p),
            forall|k: int|
                0 <= k < 8 && #[trigger] self.octant(k).holds(p) ==> self.holds(p) && k
                    == self.octant_of(p),
    {
        assert forall|k: int| 0 <= k < 8 && #[trigger] self.octant(k).holds(p) implies self.holds(
            p,
        ) && k == self.octant_of(p) by {
            assert(k == 0 || k == 1 || k == 2 || k == 3 || k == 4 || k == 5 || k == 6 || k == 7);
        }
    }

    /// Every octant of an ordered volume is ordered and lies within it.
    pub proof fn lemma_octant_within(&self, k: int)
        requires
            self.ordered(),
            0 <= k < 8,
        ensures
            self.octant(k).ordered(),
            self.encloses(&self.octant(k)),
    {
    }

    /// An octant of a volume above the minimum size is at most half as long
    /// along x as the volume, rounded up.
    pub proof fn lemma_octant_half(&self, k: int)
        requires
            !self.minimal(),
            0 <= k < 8,
        ensures
            2 * self.octant(k).x_side() <= self.x_side() + 1,
    {
    }

    /// An octant of a volume above the minimum size is shorter along x than
    /// the volume, and still has a side of at least one.
    pub proof fn lemma_octant_shorter(&self, k: int)
        requires
            !self.minimal(),
            0 <= k < 8,
        ensures
            1 <= self.octant(k).x_side() < self.x_side(),
    {
    }
}

impl Surround for Aabb3 {
    open spec fn encloses(&self, other: &Self) -> bool {
        &&& self.min.x <= other.min.x && self.max.x >= other.max.x
        &&& self.min.y <= other.min.y && self.max.y >= other.max.y
        &&& self.min.z <= other.min.z && self.max.z >= other.max.z
    }

    fn surrounds(&self, other: &Self) -> (r: bool) {
        self.min.x <= other.min.x && self.max.x >= other.max.x && self.min.y <= other.min.y
            && self.max.y >= other.max.y && self.min.z <= other.min.z && self.max.z
            >= other.max.z
    }
}

impl MinVolume for Aabb3 {
    open spec fn minimal(&self) -> bool {
        self.x_side() <= MIN_SIDE
    }

    fn is_min(&self) -> (r: bool) {
        (self.max.x as i128) - (self.min.x as i128) <= MIN_SIDE as i128
    }
}

} // verus!
