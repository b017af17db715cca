use vstd::prelude::*;

verus! {

/// Largest magnitude of a coordinate that the library accepts.
pub const COORD_LIMIT: i64 = 16777216;

/// A point of the plane on the integer grid.
#[derive(Debug, Clone, Copy, PartialEq, Eq, Structural)]
pub struct Vector2 {
    pub x: i64,
    pub y: i64,
}

impl Vector2 {
    pub fn new(x: i64, y: i64) -> (r: Vector2)
        ensures
            r.x == x && r.y == y,
    {
        Vector2 { x, y }
    }

    /// The point of space with the same x and y, at z = 0.
    pub open spec fn lift(self) -> Vector3 {
        Vector3 { x: self.x, y: self.y, z: 0 }
    }
}

/// A point (or displacement) on the integer grid.
#[derive(Debug, Clone, Copy, PartialEq, Eq, Structural)]
pub struct Vector3 {
    pub x: i64,
    pub y: i64,
    pub z: i64,
}

impl Vector3 {
    /// Coordinate along axis `a` (0 = x, 1 = y, 2 = z).
    pub open spec fn at(self, a: int) -> int {
        if a == 0 {
            self.x as int
        } else if a == 1 {
            self.y as int
        } else {
            self.z as int
        }
    }

    /// Every coordinate lies within `COORD_LIMIT` of the origin.
    pub open spec fn bounded(self) -> bool {
        &&& -COORD_LIMIT <= self.x <= COORD_LIMIT
        &&& -COORD_LIMIT <= self.y <= COORD_LIMIT
        &&& -COORD_LIMIT <= self.z <= COORD_LIMIT
    }

    /// Squared Euclidean distance between two points.
    pub open spec fn dist_sq(self, o: Vector3) -> int {
        (self.x - o.x) * (self.x - o.x) + (self.y - o.y) * (self.y - o.y) + (self.z - o.z) * (
        self.z - o.z)
    }

    pub fn new(x: i64, y: i64, z: i64) -> (r: Vector3)
        ensures
            r.x == x && r.y == y && r.z == z,
    {
        Vector3 { x, y, z }
    }

    pub fn zero() -> (r: Vector3)
        ensures
            r.x == 0 && r.y == 0 && r.z == 0,
    {
        Vector3 { x: 0, y: 0, z: 0 }
    }

    /// Softened squared distance `|self - o|² + ε` with ε = 1/1000, returned in
    /// thousandths so that it stays exact: the result is `1000·|self - o|² + 1`.
    pub fn distance_2(&self, o: Vector3) -> (r: u128)
        requires
            self.bounded(),
            o.bounded(),
        ensures
            r == 1000 * self.dist_sq(o) + 1,
    {
        let dx: i128 = self.x as i128 - o.x as i128;
        let dy: i128 = self.y as i128 - o.y as i128;
        let dz: i128 = self.z as i128 - o.z as i128;
        assert(dx * dx <= 0x1_0000_0000_0000_0000_0000_0000) by (nonlinear_arith)
            requires -0x200_0000_0000 <= dx <= 0x200_0000_0000;
        assert(dy * dy <= 0x1_0000_0000_0000_0000_0000_0000) by (nonlinear_arith)
            requires -0x200_0000_0000 <= dy <= 0x200_0000_0000;
        assert(dz * dz <= 0x1_0000_0000_0000_0000_0000_0000) by (nonlinear_arith)
            requires -0x200_0000_0000 <= dz <= 0x200_0000_0000;
        assert(dx * dx >= 0 && dy * dy >= 0 && dz * dz >= 0) by (nonlinear_arith);
        let s: i128 = dx * dx + dy * dy + dz * dz;
        (1000 * s + 1) as u128
    }
}

} // verus!
