use vstd::prelude::*;

verus! {

/// The largest magnitude of a coordinate of a box corner, a ray origin or a
/// ray direction.
pub const COORD_MAX: i64 = 0x100_0000;

/// A vector or point with integer components.
#[derive(Clone, Copy, Debug, PartialEq, Eq, Structural)]
pub struct Vec3 {
    pub x: i64,
    pub y: i64,
    pub z: i64,
}

impl Vec3 {
    /// Component `a` (0 for x, 1 for y, 2 for z).
    pub open spec fn comp(self, a: int) -> int {
        if a == 0 {
            self.x as int
        } else if a == 1 {
            self.y as int
        } else {
            self.z as int
        }
    }

    /// A unit vector along one axis, or zero.
    pub open spec fn is_axis_unit(self) -> bool {
        ||| self == Vec3 { x: 0, y: 0, z: 0 }
        ||| (self.y == 0 && self.z == 0 && (self.x == 1 || self.x == -1))
        ||| (self.x == 0 && self.z == 0 && (self.y == 1 || self.y == -1))
        ||| (self.x == 0 && self.y == 0 && (self.z == 1 || self.z == -1))
    }

    pub open spec fn dot(self, o: Vec3) -> int {
        self.x * o.x + self.y * o.y + self.z * o.z
    }

    /// Every component has magnitude at most `m`.
    pub open spec fn bounded_by(self, m: int) -> bool {
        -m <= self.x <= m && -m <= self.y <= m && -m <= self.z <= m
    }

    pub open spec fn in_range(self) -> bool {
        self.bounded_by(COORD_MAX as int)
    }

    pub fn new(x: i64, y: i64, z: i64) -> (r: Vec3)
        ensures
            r == (Vec3 { x, y, z }),
    {
        Vec3 { x, y, z }
    }

    pub fn x(&self) -> (r: i64)
        ensures
            r == self.x,
    {
        self.x
    }

    pub fn y(&self) -> (r: i64)
        ensures
            r == self.y,
    {
        self.y
    }

    pub fn z(&self) -> (r: i64)
        ensures
            r == self.z,
    {
        self.z
    }

    /// Component `a` (0 for x, 1 for y, 2 for z).
    pub fn get(&self, a: usize) -> (r: i64)
        ensures
            r == self.comp(a as int),
    {
        if a == 0 {
            self.x
        } else if a == 1 {
            self.y
        } else {
            self.z
        }
    }
}

/// A ray: the points `origin + t * direction` for rational `t`.
#[derive(Clone, Copy, Debug, PartialEq, Eq, Structural)]
pub struct Ray {
    pub origin: Vec3,
    pub direction: Vec3,
}

impl Ray {
    pub open spec fn wf(self) -> bool {
        self.origin.in_range() && self.direction.in_range()
    }

    /// Component `a` of the point at parameter `t`, times `t.den`.
    pub open spec fn at_scaled(self, a: int, t: crate::arith::Frac) -> int {
        self.origin.comp(a) * t.den + t.num * self.direction.comp(a)
    }

    pub fn new(origin: Vec3, direction: Vec3) -> (r: Ray)
        ensures
            r == (Ray { origin, direction }),
    {
        Ray { origin, direction }
    }
}

} // verus!
