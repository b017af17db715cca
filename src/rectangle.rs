use vstd::prelude::*;

use crate::cube::{Cube, Region};
use crate::vector::{Vector2, Vector3};

verus! {

/// An axis-aligned square of the plane: `pos / scale` is its minimum corner
/// and `size / scale` its edge. It is the face z = 0 of the cube with the same corner and
/// edge, and splits as that cube's near octants do.
#[derive(Debug, Clone, Copy, PartialEq, Eq, Structural)]
pub struct Rectangle {
    pub pos: Vector2,
    pub size: i64,
    pub scale: i64,
}

impl Rectangle {
    /// The cube whose face z = 0 this square is.
    pub open spec fn cube(self) -> Cube {
        Cube { pos: self.pos.lift(), size: self.size, scale: self.scale }
    }

    pub open spec fn wf(self) -> bool {
        self.cube().wf()
    }

    pub fn to_cube(&self) -> (c: Cube)
        ensures
            c == self.cube(),
    {
        Cube { pos: Vector3 { x: self.pos.x, y: self.pos.y, z: 0 }, size: self.size, scale: self.scale }
    }

    /// Closed containment on both axes.
    pub fn contains(&self, p: &Vector2) -> (r: bool)
        requires
            self.wf(),
            p.lift().bounded(),
        ensures
            r == self.cube().contains_spec(p.lift()),
    {
        self.to_cube().contains(&Vector3 { x: p.x, y: p.y, z: 0 })
    }

    fn quadrant(&self, r: Region) -> (q: Rectangle)
        requires
            self.wf(),
            self.cube().can_halve(),
            !r.far(2),
        ensures
            q.cube() == self.cube().child_spec(r),
            q.wf(),
    {
        let c = self.to_cube().region_boundary(r);
        Rectangle { pos: Vector2 { x: c.pos.x, y: c.pos.y }, size: c.size, scale: c.scale }
    }

    /// The quadrant on the far side of x and the near side of y.
    pub fn north_east(&self) -> (q: Rectangle)
        requires
            self.wf(),
            self.cube().can_halve(),
        ensures
            q.cube() == self.cube().child_spec(Region::TNE),
            q.wf(),
    {
        self.quadrant(Region::TNE)
    }

    /// The quadrant on the far side of both axes.
    pub fn south_east(&self) -> (q: Rectangle)
        requires
            self.wf(),
            self.cube().can_halve(),
        ensures
            q.cube() == self.cube().child_spec(Region::TSE),
            q.wf(),
    {
        self.quadrant(Region::TSE)
    }

    /// The quadrant on the near side of x and the far side of y.
    pub fn south_west(&self) -> (q: Rectangle)
        requires
            self.wf(),
            self.cube().can_halve(),
        ensures
            q.cube() == self.cube().child_spec(Region::TSW),
            q.wf(),
    {
        self.quadrant(Region::TSW)
    }

    /// The quadrant on the near side of both axes.
    pub fn north_west(&self) -> (q: Rectangle)
        requires
            self.wf(),
            self.cube().can_halve(),
        ensures
            q.cube() == self.cube().child_spec(Region::TNW),
            q.wf(),
    {
        self.quadrant(Region::TNW)
    }
}

} // verus!
