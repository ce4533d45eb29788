//! Integer 3-vectors used for voxel, chunk-grid and world coordinates.

use vstd::prelude::*;

verus! {

/// An integer 3-vector. World voxel coordinates, local in-chunk coordinates
/// and chunk-grid coordinates are all carried in this type.
#[derive(Copy, Clone, PartialEq, Eq, Structural, Debug)]
pub struct Vec3i {
    pub x: i32,
    pub y: i32,
    pub z: i32,
}

impl Vec3i {
    pub fn new(x: i32, y: i32, z: i32) -> (r: Vec3i)
        ensures
            r == (Vec3i { x, y, z }),
    {
        Vec3i { x, y, z }
    }

    /// Component-wise sum.
    pub fn plus(self, other: Vec3i) -> (r: Vec3i)
        requires
            i32::MIN <= self.x + other.x <= i32::MAX,
            i32::MIN <= self.y + other.y <= i32::MAX,
            i32::MIN <= self.z + other.z <= i32::MAX,
        ensures
            r.x == self.x + other.x,
            r.y == self.y + other.y,
            r.z == self.z + other.z,
    {
        Vec3i { x: self.x + other.x, y: self.y + other.y, z: self.z + other.z }
    }

    /// Squared Euclidean distance between two points, as a mathematical value.
    pub open spec fn spec_dist2(self, other: Vec3i) -> int {
        (self.x - other.x) * (self.x - other.x) + (self.y - other.y) * (self.y - other.y) + (
        self.z - other.z) * (self.z - other.z)
    }

    /// Squared Euclidean distance, for bounded coordinates.
    pub fn dist2(self, other: Vec3i) -> (r: i64)
        requires
            -4000000 <= self.x - other.x <= 4000000,
            -4000000 <= self.y - other.y <= 4000000,
            -4000000 <= self.z - other.z <= 4000000,
        ensures
            r == self.spec_dist2(other),
    {
        let dx: i64 = self.x as i64 - other.x as i64;
        let dy: i64 = self.y as i64 - other.y as i64;
        let dz: i64 = self.z as i64 - other.z as i64;
        proof {
            assert(dx * dx <= 16000000000000 && dx * dx >= 0) by (nonlinear_arith)
                requires
                    -4000000 <= dx <= 4000000,
            ;
            assert(dy * dy <= 16000000000000 && dy * dy >= 0) by (nonlinear_arith)
                requires
                    -4000000 <= dy <= 4000000,
            ;
            assert(dz * dz <= 16000000000000 && dz * dz >= 0) by (nonlinear_arith)
                requires
                    -4000000 <= dz <= 4000000,
            ;
        }
        dx * dx + dy * dy + dz * dz
    }
}

} // verus!
