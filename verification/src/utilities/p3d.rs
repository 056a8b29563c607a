//! Points in space.

use crate::utilities::vec3::Vec3;
use vstd::prelude::*;

verus! {

/// The half-width of the cube in which rays start and surfaces lie.
pub const WORLD_MAX: i64 = 0x2000_0000;

/// A point of three fixed-point coordinates.
#[derive(Clone, Copy, Debug, PartialEq, Eq, Structural)]
pub struct P3d {
    pub x: i64,
    pub y: i64,
    pub z: i64,
}

impl P3d {
    /// Every coordinate lies in `-m ..= m`.
    pub open spec fn within(self, m: int) -> bool {
        &&& -m <= self.x <= m
        &&& -m <= self.y <= m
        &&& -m <= self.z <= m
    }

    /// The point lies in the cube of half-width `WORLD_MAX` about the origin.
    pub open spec fn in_world(self) -> bool {
        self.within(WORLD_MAX as int)
    }

    /// The displacement that leads from `other` to this point.
    pub open spec fn minus_spec(self, other: P3d) -> Vec3 {
        Vec3 {
            x: (self.x - other.x) as i64,
            y: (self.y - other.y) as i64,
            z: (self.z - other.z) as i64,
        }
    }

    pub fn new(x: i64, y: i64, z: i64) -> (p: Self)
        ensures
            p == (P3d { x, y, z }),
    {
        P3d { x, y, z }
    }

    /// Tells whether the point lies in the world cube.
    pub fn is_in_world(&self) -> (b: bool)
        ensures
            b == self.in_world(),
    {
        -WORLD_MAX <= self.x && self.x <= WORLD_MAX && -WORLD_MAX <= self.y && self.y <= WORLD_MAX
            && -WORLD_MAX <= self.z && self.z <= WORLD_MAX
    }

    /// The displacement that leads from `other` to this point.
    pub fn minus(&self, other: &P3d) -> (v: Vec3)
        requires
            i64::MIN <= self.x - other.x <= i64::MAX,
            i64::MIN <= self.y - other.y <= i64::MAX,
            i64::MIN <= self.z - other.z <= i64::MAX,
        ensures
            v == self.minus_spec(*other),
    {
        Vec3 { x: self.x - other.x, y: self.y - other.y, z: self.z - other.z }
    }
}

impl Default for P3d {
    /// The origin.
    fn default() -> (p: Self)
        ensures
            p == (P3d { x: 0, y: 0, z: 0 }),
    {
        P3d { x: 0, y: 0, z: 0 }
    }
}

} // verus!
