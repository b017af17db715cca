use vstd::prelude::*;

use crate::vector::{Vector3, COORD_LIMIT};

verus! {

/// One of the eight octants of a cube. `T`/`B` is the near/far side on the z
/// axis, `N`/`S` on the y axis and `W`/`E` on the x axis.
#[derive(Debug, Clone, Copy, PartialEq, Eq, Structural)]
pub enum Region {
    TNE,
    TSE,
    TSW,
    TNW,
    BNE,
    BSE,
    BSW,
    BNW,
}

impl Region {
    /// Whether this octant lies on the far (higher-coordinate) side of axis `a`.
    pub open spec fn far(self, a: int) -> bool {
        if a == 0 {
            self is TNE || self is TSE || self is BNE || self is BSE
        } else if a == 1 {
            self is TSE || self is TSW || self is BSE || self is BSW
        } else {
            self is BNE || self is BSE || self is BSW || self is BNW
        }
    }

    /// Position of the octant's child slot in a node.
    pub open spec fn index_spec(self) -> usize {
        match self {
            Region::TNE => 0,
            Region::TSE => 1,
            Region::TSW => 2,
            Region::TNW => 3,
            Region::BNE => 4,
            Region::BSE => 5,
            Region::BSW => 6,
            Region::BNW => 7,
        }
    }

    #[verifier::when_used_as_spec(index_spec)]
    pub fn index(self) -> (r: usize)
        ensures
            r == self.index_spec(),
    {
        match self {
            Region::TNE => 0,
            Region::TSE => 1,
            Region::TSW => 2,
            Region::TNW => 3,
            Region::BNE => 4,
            Region::BSE => 5,
            Region::BSW => 6,
            Region::BNW => 7,
        }
    }

    /// The octant on the given side of each axis.
    pub open spec fn from_sides(fx: bool, fy: bool, fz: bool) -> Region {
        if fz {
            if fy {
                if fx { Region::BSE } else { Region::BSW }
            } else {
                if fx { Region::BNE } else { Region::BNW }
            }
        } else {
            if fy {
                if fx { Region::TSE } else { Region::TSW }
            } else {
                if fx { Region::TNE } else { Region::TNW }
            }
        }
    }
}

/// Largest denominator of a cell's corner and edge. A cube holding two
/// different grid points has an edge of at least one, so halving parts them
/// before its cells get this fine: with edges of at most `2 · COORD_LIMIT`
/// this caps the depth of any tree at about fifty levels.
pub const SCALE_LIMIT: i64 = 67108864;

/// An axis-aligned cube whose corner and edge are multiples of `1 / scale`:
/// its minimum corner is `pos / scale` and its edge `size / scale`. It holds
/// the grid points `p` with `pos / scale ≤ p ≤ (pos + size) / scale` on every
/// axis. A cube of the grid itself has scale one.
///
/// A point goes to the far side of an axis iff its coordinate is at least the
/// midplane `(pos + size/2) / scale`. A cube splits into eight children of
/// half its edge, a far child shifted by half the edge on its far axes; when
/// `size` is odd the children are written over twice the scale.
#[derive(Debug, Clone, Copy, PartialEq, Eq, Structural)]
pub struct Cube {
    pub pos: Vector3,
    pub size: i64,
    pub scale: i64,
}

impl Cube {
    /// The cube lies within `COORD_LIMIT`, its edge is at most twice that, and
    /// its scale is between one and `SCALE_LIMIT`.
    pub open spec fn wf(self) -> bool {
        &&& 1 <= self.scale <= SCALE_LIMIT
        &&& 0 <= self.size <= 2 * COORD_LIMIT
        &&& -COORD_LIMIT * self.scale <= self.pos.x && self.pos.x + self.size <= COORD_LIMIT
            * self.scale
        &&& -COORD_LIMIT * self.scale <= self.pos.y && self.pos.y + self.size <= COORD_LIMIT
            * self.scale
        &&& -COORD_LIMIT * self.scale <= self.pos.z && self.pos.z + self.size <= COORD_LIMIT
            * self.scale
    }

    /// The children can be written without passing `SCALE_LIMIT`.
    pub open spec fn can_halve(self) -> bool {
        self.size % 2 == 0 || 2 * self.scale <= SCALE_LIMIT
    }

    pub open spec fn contains_spec(self, p: Vector3) -> bool {
        &&& self.pos.x <= p.x * self.scale <= self.pos.x + self.size
        &&& self.pos.y <= p.y * self.scale <= self.pos.y + self.size
        &&& self.pos.z <= p.z * self.scale <= self.pos.z + self.size
    }

    /// Whether `p` lies on the far side of the midplane of axis `a`.
    pub open spec fn far_side(self, p: Vector3, a: int) -> bool {
        2 * (p.at(a) * self.scale) >= 2 * self.pos.at(a) + self.size
    }

    pub open spec fn region_spec(self, p: Vector3) -> Region {
        Region::from_sides(self.far_side(p, 0), self.far_side(p, 1), self.far_side(p, 2))
    }

    /// Corner numerator of the child along an axis whose corner numerator is
    /// `lo`.
    pub open spec fn child_lo(self, lo: int, far: bool) -> int {
        if self.size % 2 == 0 {
            lo + if far { self.size / 2 } else { 0 }
        } else {
            2 * lo + if far { self.size as int } else { 0 }
        }
    }

    /// The child of octant `r`: half the edge, shifted by half the edge on
    /// the octant's far axes.
    pub open spec fn child_spec(self, r: Region) -> Cube {
        Cube {
            pos: Vector3 {
                x: self.child_lo(self.pos.x as int, r.far(0)) as i64,
                y: self.child_lo(self.pos.y as int, r.far(1)) as i64,
                z: self.child_lo(self.pos.z as int, r.far(2)) as i64,
            },
            size: (if self.size % 2 == 0 { self.size / 2 } else { self.size as int }) as i64,
            scale: (if self.size % 2 == 0 { self.scale as int } else { 2 * self.scale }) as i64,
        }
    }

    /// Closed containment on every axis.
    pub fn contains(&self, p: &Vector3) -> (r: bool)
        requires
            self.wf(),
            p.bounded(),
        ensures
            r == self.contains_spec(*p),
    {
        proof {
            lemma_scaled_bounds(*self, *p);
        }
        let s = &self.pos;
        let k = self.scale;
        p.x * k >= s.x && p.x * k <= s.x + self.size && p.y * k >= s.y && p.y * k <= s.y
            + self.size && p.z * k >= s.z && p.z * k <= s.z + self.size
    }

    /// The octant that `p` falls in.
    pub fn region(&self, p: &Vector3) -> (r: Region)
        requires
            self.wf(),
            p.bounded(),
        ensures
            r == self.region_spec(*p),
    {
        proof {
            lemma_scaled_bounds(*self, *p);
        }
        let s = &self.pos;
        let k = self.scale;
        let fx = 2 * (p.x * k) >= 2 * s.x + self.size;
        let fy = 2 * (p.y * k) >= 2 * s.y + self.size;
        let fz = 2 * (p.z * k) >= 2 * s.z + self.size;
        if fx {
            if fy {
                if fz {
                    Region::BSE
                } else {
                    Region::TSE
                }
            } else {
                if fz {
                    Region::BNE
                } else {
                    Region::TNE
                }
            }
        } else {
            if fy {
                if fz {
                    Region::BSW
                } else {
                    Region::TSW
                }
            } else {
                if fz {
                    Region::BNW
                } else {
                    Region::TNW
                }
            }
        }
    }

    /// The child cube of the given octant: edge `size/2`, shifted by `size/2`
    /// on the octant's far axes, as fractions over the child's scale.
    pub fn region_boundary(&self, region: Region) -> (r: Cube)
        requires
            self.wf(),
            self.can_halve(),
        ensures
            r == self.child_spec(region),
            2 * r.size * self.scale == self.size * r.scale,
            2 * r.pos.x * self.scale == (2 * self.pos.x + if region.far(0) {
                self.size as int
            } else {
                0
            }) * r.scale,
            2 * r.pos.y * self.scale == (2 * self.pos.y + if region.far(1) {
                self.size as int
            } else {
                0
            }) * r.scale,
            2 * r.pos.z * self.scale == (2 * self.pos.z + if region.far(2) {
                self.size as int
            } else {
                0
            }) * r.scale,
            r.wf(),
    {
        let fx = match region {
            Region::TNE | Region::TSE | Region::BNE | Region::BSE => true,
            _ => false,
        };
        let fy = match region {
            Region::TSE | Region::TSW | Region::BSE | Region::BSW => true,
            _ => false,
        };
        let fz = match region {
            Region::BNE | Region::BSE | Region::BSW | Region::BNW => true,
            _ => false,
        };
        let r = if self.size % 2 == 0 {
            let h = self.size / 2;
            Cube {
                pos: Vector3 {
                    x: self.pos.x + if fx { h } else { 0 },
                    y: self.pos.y + if fy { h } else { 0 },
                    z: self.pos.z + if fz { h } else { 0 },
                },
                size: h,
                scale: self.scale,
            }
        } else {
            let n = self.size;
            Cube {
                pos: Vector3 {
                    x: 2 * self.pos.x + if fx { n } else { 0 },
                    y: 2 * self.pos.y + if fy { n } else { 0 },
                    z: 2 * self.pos.z + if fz { n } else { 0 },
                },
                size: n,
                scale: 2 * self.scale,
            }
        };
        proof {
            lemma_child_wf(*self, region);
            let k = self.scale as int;
            let n = self.size as int;
            lemma_half_axis(self.pos.x as int, n, k, region.far(0));
            lemma_half_axis(self.pos.y as int, n, k, region.far(1));
            lemma_half_axis(self.pos.z as int, n, k, region.far(2));
        }
        r
    }
}

/// Along one axis, the child's corner and edge are the parent's halved, as
/// fractions.
proof fn lemma_half_axis(lo: int, n: int, k: int, far: bool)
    ensures
        n % 2 == 0 ==> 2 * (n / 2) * k == n * k,
        n % 2 == 0 ==> 2 * (lo + if far { n / 2 } else { 0 }) * k == (2 * lo + if far {
            n
        } else {
            0
        }) * k,
        n % 2 != 0 ==> 2 * n * k == n * (2 * k),
        n % 2 != 0 ==> 2 * (2 * lo + if far { n } else { 0 }) * k == (2 * lo + if far {
            n
        } else {
            0
        }) * (2 * k),
{
    let v = 2 * lo + if far { n } else { 0 };
    assert(2 * v * k == v * (2 * k)) by (nonlinear_arith);
    assert(2 * n * k == n * (2 * k)) by (nonlinear_arith);
    if n % 2 == 0 {
        let u = lo + if far { n / 2 } else { 0 };
        assert(2 * u == v);
        assert(2 * u * k == v * k) by (nonlinear_arith)
            requires
                2 * u == v,
        ;
        assert(2 * (n / 2) == n);
        assert(2 * (n / 2) * k == n * k) by (nonlinear_arith)
            requires
                2 * (n / 2) == n,
        ;
    }
}

/// Scaled coordinates of a bounded point stay far from overflow.
pub proof fn lemma_scaled_bounds(c: Cube, p: Vector3)
    requires
        c.wf(),
        p.bounded(),
    ensures
        -COORD_LIMIT * SCALE_LIMIT <= p.x * c.scale <= COORD_LIMIT * SCALE_LIMIT,
        -COORD_LIMIT * SCALE_LIMIT <= p.y * c.scale <= COORD_LIMIT * SCALE_LIMIT,
        -COORD_LIMIT * SCALE_LIMIT <= p.z * c.scale <= COORD_LIMIT * SCALE_LIMIT,
{
    assert(-COORD_LIMIT * SCALE_LIMIT <= p.x * c.scale <= COORD_LIMIT * SCALE_LIMIT) by (
    nonlinear_arith)
        requires
            -COORD_LIMIT <= p.x <= COORD_LIMIT,
            1 <= c.scale <= SCALE_LIMIT,
    ;
    assert(-COORD_LIMIT * SCALE_LIMIT <= p.y * c.scale <= COORD_LIMIT * SCALE_LIMIT) by (
    nonlinear_arith)
        requires
            -COORD_LIMIT <= p.y <= COORD_LIMIT,
            1 <= c.scale <= SCALE_LIMIT,
    ;
    assert(-COORD_LIMIT * SCALE_LIMIT <= p.z * c.scale <= COORD_LIMIT * SCALE_LIMIT) by (
    nonlinear_arith)
        requires
            -COORD_LIMIT <= p.z <= COORD_LIMIT,
            1 <= c.scale <= SCALE_LIMIT,
    ;
}

/// A point of a well-formed cube lies within the coordinate limit.
pub proof fn lemma_contained_bounded(c: Cube, p: Vector3)
    requires
        c.wf(),
        c.contains_spec(p),
    ensures
        p.bounded(),
{
    assert(-COORD_LIMIT <= p.x <= COORD_LIMIT) by (nonlinear_arith)
        requires
            -COORD_LIMIT * c.scale <= p.x * c.scale <= COORD_LIMIT * c.scale,
            c.scale >= 1,
    ;
    assert(-COORD_LIMIT <= p.y <= COORD_LIMIT) by (nonlinear_arith)
        requires
            -COORD_LIMIT * c.scale <= p.y * c.scale <= COORD_LIMIT * c.scale,
            c.scale >= 1,
    ;
    assert(-COORD_LIMIT <= p.z <= COORD_LIMIT) by (nonlinear_arith)
        requires
            -COORD_LIMIT * c.scale <= p.z * c.scale <= COORD_LIMIT * c.scale,
            c.scale >= 1,
    ;
}

/// Along one axis: the child interval of the side a point falls on holds it.
proof fn lemma_axis_child(lo: int, size: int, k: int, x: int, far: bool)
    requires
        k >= 1,
        size >= 0,
        lo <= x * k <= lo + size,
        far == (2 * (x * k) >= 2 * lo + size),
    ensures
        size % 2 == 0 ==> ({
            let clo = lo + if far { size / 2 } else { 0 };
            clo <= x * k <= clo + size / 2
        }),
        size % 2 != 0 ==> ({
            let clo = 2 * lo + if far { size } else { 0 };
            clo <= x * (2 * k) <= clo + size
        }),
{
    assert(x * (2 * k) == 2 * (x * k)) by (nonlinear_arith);
}

/// Along one axis: a point of a child interval lies in the parent interval.
proof fn lemma_axis_inside(lo: int, size: int, k: int, x: int, far: bool)
    requires
        k >= 1,
        size >= 0,
        size % 2 == 0 ==> ({
            let clo = lo + if far { size / 2 } else { 0 };
            clo <= x * k <= clo + size / 2
        }),
        size % 2 != 0 ==> ({
            let clo = 2 * lo + if far { size } else { 0 };
            clo <= x * (2 * k) <= clo + size
        }),
    ensures
        lo <= x * k <= lo + size,
{
    assert(x * (2 * k) == 2 * (x * k)) by (nonlinear_arith);
}

/// A point of a cube lies in the child of the octant it falls in.
pub proof fn lemma_child_contains(c: Cube, p: Vector3)
    requires
        c.wf(),
        c.contains_spec(p),
    ensures
        c.child_spec(c.region_spec(p)).contains_spec(p),
{
    let r = c.region_spec(p);
    assert(r.far(0) == c.far_side(p, 0));
    assert(r.far(1) == c.far_side(p, 1));
    assert(r.far(2) == c.far_side(p, 2));
    lemma_axis_child(c.pos.x as int, c.size as int, c.scale as int, p.x as int, r.far(0));
    lemma_axis_child(c.pos.y as int, c.size as int, c.scale as int, p.y as int, r.far(1));
    lemma_axis_child(c.pos.z as int, c.size as int, c.scale as int, p.z as int, r.far(2));
}

/// A point of a child of a cube lies in the cube.
pub proof fn lemma_child_inside(c: Cube, r: Region, p: Vector3)
    requires
        c.wf(),
        c.can_halve(),
        c.child_spec(r).contains_spec(p),
    ensures
        c.contains_spec(p),
{
    lemma_axis_inside(c.pos.x as int, c.size as int, c.scale as int, p.x as int, r.far(0));
    lemma_axis_inside(c.pos.y as int, c.size as int, c.scale as int, p.y as int, r.far(1));
    lemma_axis_inside(c.pos.z as int, c.size as int, c.scale as int, p.z as int, r.far(2));
}

/// Two different points of a cube: its edge is at least its scale, so its
/// children can be written, and they are a strictly finer split.
pub proof fn lemma_two_points_split(c: Cube, p: Vector3, q: Vector3)
    requires
        c.wf(),
        c.contains_spec(p),
        c.contains_spec(q),
        p != q,
    ensures
        c.size >= c.scale,
        c.can_halve(),
        c.child_spec(c.region_spec(p)).wf(),
{
    if p.x != q.x {
        assert(c.size >= c.scale) by (nonlinear_arith)
            requires
                c.pos.x <= p.x * c.scale <= c.pos.x + c.size,
                c.pos.x <= q.x * c.scale <= c.pos.x + c.size,
                p.x != q.x,
                c.scale >= 1,
        ;
    } else if p.y != q.y {
        assert(c.size >= c.scale) by (nonlinear_arith)
            requires
                c.pos.y <= p.y * c.scale <= c.pos.y + c.size,
                c.pos.y <= q.y * c.scale <= c.pos.y + c.size,
                p.y != q.y,
                c.scale >= 1,
        ;
    } else {
        assert(c.size >= c.scale) by (nonlinear_arith)
            requires
                c.pos.z <= p.z * c.scale <= c.pos.z + c.size,
                c.pos.z <= q.z * c.scale <= c.pos.z + c.size,
                p.z != q.z,
                c.scale >= 1,
        ;
    }
    lemma_child_wf(c, c.region_spec(p));
}

/// The children of a well-formed cube that can be halved are well formed.
pub proof fn lemma_child_wf(c: Cube, r: Region)
    requires
        c.wf(),
        c.can_halve(),
    ensures
        c.child_spec(r).wf(),
{
    assert(c.child_spec(r).wf()) by (nonlinear_arith)
        requires
            c.wf(),
            c.can_halve(),
            COORD_LIMIT > 0,
    ;
}

} // verus!
