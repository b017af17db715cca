use vstd::prelude::*;

use crate::body::Body;
use crate::cube::{
    lemma_child_contains, lemma_child_inside, lemma_child_wf, lemma_contained_bounded,
    lemma_two_points_split, Cube, Region, SCALE_LIMIT,
};
use crate::vector::{Vector3, COORD_LIMIT};

verus! {

broadcast use vstd::std_specs::vec::group_vec_axioms, vstd::seq::group_seq_axioms;

/// Sums of `mass · coordinate` over a set of bodies, one per axis.
#[derive(Debug, Clone, Copy, PartialEq, Eq, Structural)]
pub struct Moment {
    pub x: i128,
    pub y: i128,
    pub z: i128,
}

/// Why a body could not be inserted.
#[derive(Debug, Clone, Copy, PartialEq, Eq, Structural)]
pub enum InsertError {
    /// The body lies outside the tree's cube.
    OutOfBounds,
    /// A body already in the tree has the same position; splitting cells could
    /// never separate the two.
    Coincident,
}

/// A Barnes–Hut octree with a bucket size of one.
pub enum OcTree {
    Leaf(Leaf),
    Root(Root),
}

/// A cell holding exactly one body.
pub struct Leaf {
    pub boundary: Cube,
    pub body: Body,
}

/// An internal cell: the total mass and moment of everything below it, and one
/// optional child per octant, indexed by `Region::index`.
pub struct Root {
    pub boundary: Cube,
    pub mass: u64,
    pub moment: Moment,
    pub children: Vec<Option<Box<OcTree>>>,
}

/// The octant whose child slot is `i`.
pub open spec fn region_at(i: int) -> Region {
    if i == 0 {
        Region::TNE
    } else if i == 1 {
        Region::TSE
    } else if i == 2 {
        Region::TSW
    } else if i == 3 {
        Region::TNW
    } else if i == 4 {
        Region::BNE
    } else if i == 5 {
        Region::BSE
    } else if i == 6 {
        Region::BSW
    } else {
        Region::BNW
    }
}

/// `w` summed over the bodies of an optional subtree.
pub open spec fn opt_weight(c: Option<Box<OcTree>>, w: spec_fn(Body) -> int) -> int
    decreases c,
{
    match c {
        Some(t) => t.weight(w),
        None => 0,
    }
}

/// `p` holds of every body of an optional subtree.
pub open spec fn opt_all(c: Option<Box<OcTree>>, p: spec_fn(Body) -> bool) -> bool
    decreases c,
{
    match c {
        Some(t) => t.all_bodies(p),
        None => true,
    }
}

/// Weight that sums masses.
pub open spec fn mass_w() -> spec_fn(Body) -> int {
    |b: Body| b.mass as int
}

/// Weight that sums `mass · coordinate` along axis `a`.
pub open spec fn moment_w(a: int) -> spec_fn(Body) -> int {
    |b: Body| b.mass * b.pos.at(a)
}

/// Weight that counts bodies.
pub open spec fn count_w() -> spec_fn(Body) -> int {
    |b: Body| 1int
}

/// The bodies that fall in octant `reg` of `parent`.
pub open spec fn routed_to(parent: Cube, reg: Region) -> spec_fn(Body) -> bool {
    |b: Body| parent.region_spec(b.pos) == reg
}

/// The bodies that are not at point `p`.
pub open spec fn not_at(p: Vector3) -> spec_fn(Body) -> bool {
    |b: Body| b.pos != p
}

/// The bodies that lie in cube `c`.
pub open spec fn inside(c: Cube) -> spec_fn(Body) -> bool {
    |b: Body| c.contains_spec(b.pos)
}

/// Number of leaves of an optional subtree.
pub open spec fn opt_leaf_count(c: Option<Box<OcTree>>) -> int
    decreases c,
{
    match c {
        Some(t) => t.leaf_count(),
        None => 0,
    }
}

/// `n` is `o` after inserting `b` along its path. An internal cell stays an
/// internal cell over the same cube, gains `b`'s mass and moment, and keeps
/// every child slot but the one of the octant `b` falls in; that slot gets a
/// new leaf holding `b` if it was empty, and otherwise holds its old subtree
/// with `b` inserted. A leaf becomes an internal cell over the same cube that
/// holds its body and `b`.
pub open spec fn inserted(o: OcTree, n: OcTree, b: Body) -> bool
    decreases o,
{
    match o {
        OcTree::Leaf(l) => {
            &&& n is Root
            &&& n.boundary_spec() == l.boundary
            &&& forall|w: spec_fn(Body) -> int| #[trigger] n.weight(w) == w(l.body) + w(b)
        },
        OcTree::Root(r) => {
            let i = r.boundary.region_spec(b.pos).index_spec() as int;
            let nr = n->Root_0;
            &&& n is Root
            &&& nr.boundary == r.boundary
            &&& nr.mass == r.mass + b.mass
            &&& nr.moment.x == r.moment.x + b.mass * b.pos.x
            &&& nr.moment.y == r.moment.y + b.mass * b.pos.y
            &&& nr.moment.z == r.moment.z + b.mass * b.pos.z
            &&& nr.children@.len() == r.children@.len()
            &&& forall|j: int|
                0 <= j < r.children@.len() && j != i ==> #[trigger] nr.children@[j]
                    == r.children@[j]
            &&& 0 <= i < r.children@.len()
            &&& match r.children@[i] {
                None => nr.children@[i] == Some(
                    Box::new(
                        OcTree::Leaf(
                            Leaf { boundary: r.boundary.child_spec(region_at(i)), body: b },
                        ),
                    ),
                ),
                Some(c) => nr.children@[i] is Some && inserted(*c, *nr.children@[i]->0, b),
            }
        },
    }
}

/// An optional child in octant `reg` of `parent` is well formed, covers the
/// child cube of that octant and holds only bodies that fall in that octant.
pub open spec fn opt_child_wf(c: Option<Box<OcTree>>, parent: Cube, reg: Region) -> bool
    decreases c,
{
    match c {
        Some(t) => {
            &&& t.wf()
            &&& t.boundary_spec() == parent.child_spec(reg)
            &&& t.all_bodies(routed_to(parent, reg))
        },
        None => true,
    }
}

impl OcTree {
    /// Structural invariant: cubes nest as the octants say, every body sits in
    /// its leaf's cube and in the octant it falls in at every level, masses are
    /// positive, and every internal cell stores the exact total mass and moment
    /// of its bodies.
    pub open spec fn wf(self) -> bool
        decreases self,
    {
        match self {
            OcTree::Leaf(l) => {
                &&& l.boundary.wf()
                &&& l.boundary.contains_spec(l.body.pos)
                &&& l.body.pos.bounded()
                &&& l.body.mass > 0
            },
            OcTree::Root(r) => {
                &&& r.boundary.wf()
                &&& r.boundary.can_halve()
                &&& r.children@.len() == 8
                &&& forall|i: int|
                    0 <= i < 8 ==> opt_child_wf(#[trigger] r.children@[i], r.boundary, region_at(i))
                &&& r.mass == self.weight(mass_w())
                &&& r.moment.x == self.weight(moment_w(0))
                &&& r.moment.y == self.weight(moment_w(1))
                &&& r.moment.z == self.weight(moment_w(2))
            },
        }
    }

    /// An empty internal cell over `boundary`: no children, zero mass and
    /// moment.
    pub fn new(boundary: Cube) -> (t: OcTree)
        requires
            boundary.wf(),
            boundary.can_halve(),
        ensures
            t.wf(),
            t is Root,
            t.boundary_spec() == boundary,
            t->Root_0.mass == 0,
            t->Root_0.moment == (Moment { x: 0, y: 0, z: 0 }),
            t->Root_0.children@.len() == 8,
            forall|i: int| 0 <= i < 8 ==> (#[trigger] t->Root_0.children@[i]) is None,
            forall|w: spec_fn(Body) -> int| #[trigger] t.weight(w) == 0,
            forall|p: spec_fn(Body) -> bool| #[trigger] t.all_bodies(p),
    {
        let children = empty_children();
        let t = OcTree::Root(
            Root { boundary, mass: 0, moment: Moment { x: 0, y: 0, z: 0 }, children },
        );
        assert forall|p: spec_fn(Body) -> bool| #[trigger] t.all_bodies(p) by {
            assert forall|i: int| 0 <= i < children@.len() implies opt_all(
                #[trigger] children@[i],
                p,
            ) by {}
        }
        t
    }

    /// A tree over `bd` that holds the two bodies `q` and `b`, subdividing
    /// until they fall in different octants.
    fn pair(bd: Cube, q: Body, b: Body) -> (t: OcTree)
        requires
            bd.wf(),
            bd.contains_spec(q.pos),
            bd.contains_spec(b.pos),
            q.pos != b.pos,
            q.mass > 0,
            b.mass > 0,
            q.mass + b.mass <= u64::MAX,
        ensures
            t.wf(),
            t is Root,
            t.boundary_spec() == bd,
            forall|w: spec_fn(Body) -> int| #[trigger] t.weight(w) == w(q) + w(b),
            forall|p: spec_fn(Body) -> bool| #[trigger] t.all_bodies(p) == (p(q) && p(b)),
        decreases SCALE_LIMIT - bd.scale, bd.size,
    {
        proof {
            lemma_contained_bounded(bd, q.pos);
            lemma_contained_bounded(bd, b.pos);
            lemma_two_points_split(bd, q.pos, b.pos);
        }
        let rq = bd.region(&q.pos);
        let rb = bd.region(&b.pos);
        let iq = rq.index();
        let ib = rb.index();
        proof {
            lemma_region_index(rq);
            lemma_region_index(rb);
            lemma_child_contains(bd, q.pos);
            lemma_child_contains(bd, b.pos);
            lemma_child_wf(bd, rq);
            lemma_child_wf(bd, rb);
        }
        let mut children = empty_children();
        if iq != ib {
            let lq = OcTree::Leaf(Leaf { boundary: bd.region_boundary(rq), body: q });
            let lb = OcTree::Leaf(Leaf { boundary: bd.region_boundary(rb), body: b });
            children[iq] = Some(Box::new(lq));
            children[ib] = Some(Box::new(lb));
        } else {
            let sub = OcTree::pair(bd.region_boundary(rq), q, b);
            children[iq] = Some(Box::new(sub));
        }
        let ghost cs = children@;
        let mass = q.mass + b.mass;
        let moment = Moment {
            x: mass_times(q.mass, q.pos.x) + mass_times(b.mass, b.pos.x),
            y: mass_times(q.mass, q.pos.y) + mass_times(b.mass, b.pos.y),
            z: mass_times(q.mass, q.pos.z) + mass_times(b.mass, b.pos.z),
        };
        let t = OcTree::Root(Root { boundary: bd, mass, moment, children });
        proof {
            assert forall|w: spec_fn(Body) -> int| #[trigger] t.weight(w) == w(q) + w(b) by {
                if iq != ib {
                    assert(opt_weight(cs[iq as int], w) == w(q));
                    assert(opt_weight(cs[ib as int], w) == w(b));
                } else {
                    let sub = *cs[iq as int]->0;
                    assert(sub.weight(w) == w(q) + w(b));
                    assert(opt_weight(cs[iq as int], w) == w(q) + w(b));
                }
            }
            assert forall|p: spec_fn(Body) -> bool| #[trigger] t.all_bodies(p) == (p(q) && p(b)) by {
                if iq != ib {
                    assert(opt_all(cs[iq as int], p) == p(q));
                    assert(opt_all(cs[ib as int], p) == p(b));
                } else {
                    let sub = *cs[iq as int]->0;
                    assert(sub.all_bodies(p) == (p(q) && p(b)));
                    assert(opt_all(cs[iq as int], p) == (p(q) && p(b)));
                }
                if p(q) && p(b) {
                    assert forall|i: int| 0 <= i < cs.len() implies opt_all(#[trigger] cs[i], p) by {}
                } else if !p(q) {
                    assert(!opt_all(cs[iq as int], p));
                } else {
                    assert(!opt_all(cs[ib as int], p));
                }
            }
            assert(t.weight(mass_w()) == q.mass + b.mass);
            assert(t.weight(moment_w(0)) == q.mass * q.pos.x + b.mass * b.pos.x);
            assert(t.weight(moment_w(1)) == q.mass * q.pos.y + b.mass * b.pos.y);
            assert(t.weight(moment_w(2)) == q.mass * q.pos.z + b.mass * b.pos.z);
            assert forall|i: int| 0 <= i < 8 implies opt_child_wf(
                #[trigger] cs[i],
                bd,
                region_at(i),
            ) by {
                if i == iq {
                    lemma_region_index(rq);
                } else if i == ib {
                    lemma_region_index(rb);
                }
            }
        }
        t
    }

    /// Inserts a body that lies in the tree's cube and at no occupied point.
    fn insert_fresh(&mut self, b: Body)
        requires
            old(self).wf(),
            old(self).boundary_spec().contains_spec(b.pos),
            old(self).all_bodies(not_at(b.pos)),
            b.pos.bounded(),
            b.mass > 0,
            old(self).weight(mass_w()) + b.mass <= u64::MAX,
        ensures
            final(self).wf(),
            final(self).boundary_spec() == old(self).boundary_spec(),
            forall|w: spec_fn(Body) -> int| #[trigger]
                final(self).weight(w) == old(self).weight(w) + w(b),
            forall|p: spec_fn(Body) -> bool| #[trigger]
                final(self).all_bodies(p) == (old(self).all_bodies(p) && p(b)),
            inserted(*old(self), *final(self), b),
        decreases *old(self),
    {
        match self {
            OcTree::Leaf(l) => {
                let q = l.body;
                let bd = l.boundary;
                *self = OcTree::pair(bd, q, b);
            },
            OcTree::Root(r) => {
                let ghost old_r = *r;
                let reg = r.boundary.region(&b.pos);
                let i = reg.index();
                proof {
                    lemma_region_index(reg);
                    lemma_contained_bounded(r.boundary, b.pos);
                    lemma_child_contains(r.boundary, b.pos);
                    lemma_child_wf(r.boundary, reg);
                    lemma_moment_bound(*old(self), 0);
                    lemma_moment_bound(*old(self), 1);
                    lemma_moment_bound(*old(self), 2);
                    assert(opt_child_wf(old_r.children@[i as int], old_r.boundary, reg));
                    assert(opt_all(old_r.children@[i as int], not_at(b.pos)));
                    assert forall|j: int| 0 <= j < 8 implies opt_weight(
                        #[trigger] old_r.children@[j],
                        mass_w(),
                    ) >= 0 by {
                        assert(opt_child_wf(old_r.children@[j], old_r.boundary, region_at(j)));
                        lemma_opt_mass_nonneg(old_r.children@[j], old_r.boundary, region_at(j));
                    }
                }
                let slot = r.children[i].take();
                let ghost old_slot = slot;
                let new_slot = match slot {
                    None => {
                        let leaf = OcTree::Leaf(
                            Leaf { boundary: r.boundary.region_boundary(reg), body: b },
                        );
                        Some(Box::new(leaf))
                    },
                    Some(mut t) => {
                        t.insert_fresh(b);
                        Some(t)
                    },
                };
                proof {
                    assert forall|w: spec_fn(Body) -> int| #[trigger]
                        opt_weight(new_slot, w) == opt_weight(old_slot, w) + w(b) by {
                        if let Some(t) = new_slot {
                            assert(opt_weight(new_slot, w) == t.weight(w));
                        }
                    }
                    assert forall|p: spec_fn(Body) -> bool| #[trigger]
                        opt_all(new_slot, p) == (opt_all(old_slot, p) && p(b)) by {
                        if let Some(t) = new_slot {
                            assert(opt_all(new_slot, p) == t.all_bodies(p));
                        }
                    }
                    assert(opt_child_wf(new_slot, old_r.boundary, reg));
                }
                r.children[i] = new_slot;
                r.mass = r.mass + b.mass;
                r.moment.x = r.moment.x + mass_times(b.mass, b.pos.x);
                r.moment.y = r.moment.y + mass_times(b.mass, b.pos.y);
                r.moment.z = r.moment.z + mass_times(b.mass, b.pos.z);
                proof {
                    assert(r.children@ =~= old_r.children@.update(i as int, r.children@[i as int]));
                    lemma_slot_update(OcTree::Root(old_r), OcTree::Root(*r), i as int, b);
                    assert(inserted(OcTree::Root(old_r), OcTree::Root(*r), b));
                }
            },
        }
    }

    /// Whether some body of the tree sits at `p`.
    pub fn occupied(&self, p: &Vector3) -> (r: bool)
        requires
            self.wf(),
            p.bounded(),
        ensures
            r == !self.all_bodies(not_at(*p)),
        decreases self,
    {
        match self {
            OcTree::Leaf(l) => l.body.pos == *p,
            OcTree::Root(r) => {
                if !r.boundary.contains(p) {
                    proof {
                        lemma_containment(*self);
                        assert forall|b: Body| #[trigger] inside(r.boundary)(b) implies not_at(
                            *p,
                        )(b) by {}
                        lemma_all_weaken(*self, inside(r.boundary), not_at(*p));
                    }
                    return false;
                }
                let reg = r.boundary.region(p);
                let i = reg.index();
                proof {
                    lemma_region_index(reg);
                    let cs = r.children@;
                    assert forall|j: int| 0 <= j < 8 && j != i implies opt_all(
                        #[trigger] cs[j],
                        not_at(*p),
                    ) by {
                        assert(opt_child_wf(cs[j], r.boundary, region_at(j)));
                        if let Some(c) = cs[j] {
                            assert forall|b: Body| #[trigger] routed_to(r.boundary, region_at(j))(
                                b,
                            ) implies not_at(*p)(b) by {}
                            lemma_all_weaken(*c, routed_to(r.boundary, region_at(j)), not_at(*p));
                        }
                    }
                    assert(opt_child_wf(cs[i as int], r.boundary, reg));
                }
                match &r.children[i] {
                    None => {
                        proof {
                            assert forall|j: int| 0 <= j < r.children@.len() implies opt_all(
                                #[trigger] r.children@[j],
                                not_at(*p),
                            ) by {}
                        }
                        false
                    },
                    Some(t) => {
                        let found = t.occupied(p);
                        proof {
                            if !found {
                                assert forall|j: int| 0 <= j < r.children@.len() implies opt_all(
                                    #[trigger] r.children@[j],
                                    not_at(*p),
                                ) by {}
                            } else {
                                assert(!opt_all(r.children@[i as int], not_at(*p)));
                            }
                        }
                        found
                    },
                }
            },
        }
    }

    /// Inserts `b`. It fails with `OutOfBounds` when `b` lies outside the
    /// tree's cube and with `Coincident` when a body of the tree already sits
    /// at `b`'s position; the tree is then unchanged.
    /// Otherwise `b` is inserted along its path (see `inserted`): the tree
    /// holds one more body and one more leaf.
    pub fn insert(&mut self, b: Body) -> (r: Result<(), InsertError>)
        requires
            old(self).wf(),
            b.pos.bounded(),
            b.mass > 0,
            old(self).weight(mass_w()) + b.mass <= u64::MAX,
        ensures
            final(self).wf(),
            final(self).boundary_spec() == old(self).boundary_spec(),
            r == Err::<(), InsertError>(InsertError::OutOfBounds) <==> !old(
                self,
            ).boundary_spec().contains_spec(b.pos),
            r == Err::<(), InsertError>(InsertError::Coincident) <==> (old(
                self,
            ).boundary_spec().contains_spec(b.pos) && !old(self).all_bodies(not_at(b.pos))),
            r is Err ==> *final(self) == *old(self),
            r is Ok ==> inserted(*old(self), *final(self), b),
            r is Ok ==> forall|w: spec_fn(Body) -> int| #[trigger]
                final(self).weight(w) == old(self).weight(w) + w(b),
            r is Ok ==> forall|p: spec_fn(Body) -> bool| #[trigger]
                final(self).all_bodies(p) == (old(self).all_bodies(p) && p(b)),
            r is Ok ==> final(self).leaf_count() == old(self).leaf_count() + 1,
    {
        proof {
            lemma_one_body_per_leaf(*self);
        }
        let bd = self.boundary();
        if !bd.contains(&b.pos) {
            return Err(InsertError::OutOfBounds);
        }
        if self.occupied(&b.pos) {
            return Err(InsertError::Coincident);
        }
        self.insert_fresh(b);
        proof {
            lemma_one_body_per_leaf(*self);
            assert(self.weight(count_w()) == old(self).weight(count_w()) + count_w()(b));
        }
        Ok(())
    }

    /// The cube this tree covers.
    pub fn boundary(&self) -> (c: Cube)
        requires
            self.wf(),
        ensures
            c == self.boundary_spec(),
            c.wf(),
    {
        match self {
            OcTree::Leaf(l) => l.boundary,
            OcTree::Root(r) => r.boundary,
        }
    }

    pub open spec fn boundary_spec(self) -> Cube {
        match self {
            OcTree::Leaf(l) => l.boundary,
            OcTree::Root(r) => r.boundary,
        }
    }

    /// `w` summed over every body in the tree.
    pub open spec fn weight(self, w: spec_fn(Body) -> int) -> int
        decreases self,
    {
        match self {
            OcTree::Leaf(l) => w(l.body),
            OcTree::Root(r) => if r.children@.len() == 8 {
                opt_weight(r.children@[0], w) + opt_weight(r.children@[1], w) + opt_weight(
                    r.children@[2],
                    w,
                ) + opt_weight(r.children@[3], w) + opt_weight(r.children@[4], w) + opt_weight(
                    r.children@[5],
                    w,
                ) + opt_weight(r.children@[6], w) + opt_weight(r.children@[7], w)
            } else {
                0
            },
        }
    }

    /// Number of leaf cells.
    pub open spec fn leaf_count(self) -> int
        decreases self,
    {
        match self {
            OcTree::Leaf(_) => 1,
            OcTree::Root(r) => if r.children@.len() == 8 {
                opt_leaf_count(r.children@[0]) + opt_leaf_count(r.children@[1]) + opt_leaf_count(
                    r.children@[2],
                ) + opt_leaf_count(r.children@[3]) + opt_leaf_count(r.children@[4])
                    + opt_leaf_count(r.children@[5]) + opt_leaf_count(r.children@[6])
                    + opt_leaf_count(r.children@[7])
            } else {
                0
            },
        }
    }

    /// `p` holds of every body in the tree.
    pub open spec fn all_bodies(self, p: spec_fn(Body) -> bool) -> bool
        decreases self,
    {
        match self {
            OcTree::Leaf(l) => p(l.body),
            OcTree::Root(r) => forall|i: int|
                0 <= i < r.children@.len() ==> opt_all(#[trigger] r.children@[i], p),
        }
    }
}

/// `m · x` for a coordinate within the limit, exactly.
pub(crate) fn mass_times(m: u64, x: i64) -> (r: i128)
    requires
        -COORD_LIMIT <= x <= COORD_LIMIT,
    ensures
        r == m * x,
        -COORD_LIMIT * m <= r <= COORD_LIMIT * m,
{
    let mi = m as i128;
    let xi = x as i128;
    assert(-COORD_LIMIT * mi <= mi * xi <= COORD_LIMIT * mi && COORD_LIMIT * mi
        <= 0x1_0000_0000_0000_0000_0000_0000_0000) by (nonlinear_arith)
        requires
            -COORD_LIMIT <= xi <= COORD_LIMIT,
            0 <= mi <= 0x1_0000_0000_0000_0000,
            COORD_LIMIT == 0x100_0000,
    ;
    assert(-0x1_0000_0000_0000_0000_0000_0000_0000 <= mi * xi <= 0x1_0000_0000_0000_0000_0000_0000_0000)
        by (nonlinear_arith)
        requires
            -0x100_0000_0000 <= xi <= 0x100_0000_0000,
            0 <= mi <= 0x1_0000_0000_0000_0000,
    ;
    mi * xi
}

/// Eight empty child slots.
fn empty_children() -> (cs: Vec<Option<Box<OcTree>>>)
    ensures
        cs@.len() == 8,
        forall|i: int| 0 <= i < 8 ==> #[trigger] cs@[i] is None,
{
    let mut cs: Vec<Option<Box<OcTree>>> = Vec::new();
    let mut k: usize = 0;
    while k < 8
        invariant
            k <= 8,
            cs@.len() == k,
            forall|i: int| 0 <= i < k ==> #[trigger] cs@[i] is None,
        decreases 8 - k,
    {
        cs.push(None);
        k = k + 1;
    }
    cs
}

/// The slot of an octant holds that octant.
proof fn lemma_region_index(r: Region)
    ensures
        region_at(r.index() as int) == r,
        0 <= r.index() < 8,
{
}

/// Replacing child slot `i` of a well-formed internal cell by a slot that holds
/// one more body `b` (which falls in that octant) and updating the aggregates
/// by `b` gives a well-formed cell with `b` added.
proof fn lemma_slot_update(ot: OcTree, nt: OcTree, i: int, b: Body)
    requires
        ot is Root,
        nt is Root,
        ot.wf(),
        0 <= i < 8,
        nt->Root_0.boundary == ot->Root_0.boundary,
        nt->Root_0.children@ == ot->Root_0.children@.update(i, nt->Root_0.children@[i]),
        ot->Root_0.boundary.region_spec(b.pos) == region_at(i),
        opt_child_wf(nt->Root_0.children@[i], nt->Root_0.boundary, region_at(i)),
        forall|w: spec_fn(Body) -> int| #[trigger]
            opt_weight(nt->Root_0.children@[i], w) == opt_weight(ot->Root_0.children@[i], w) + w(b),
        forall|p: spec_fn(Body) -> bool| #[trigger]
            opt_all(nt->Root_0.children@[i], p) == (opt_all(ot->Root_0.children@[i], p) && p(b)),
        nt->Root_0.mass == ot->Root_0.mass + b.mass,
        nt->Root_0.moment.x == ot->Root_0.moment.x + b.mass * b.pos.x,
        nt->Root_0.moment.y == ot->Root_0.moment.y + b.mass * b.pos.y,
        nt->Root_0.moment.z == ot->Root_0.moment.z + b.mass * b.pos.z,
        ot->Root_0.children@[i] is None ==> nt->Root_0.children@[i] == Some(
            Box::new(
                OcTree::Leaf(
                    Leaf { boundary: ot->Root_0.boundary.child_spec(region_at(i)), body: b },
                ),
            ),
        ),
        ot->Root_0.children@[i] is Some ==> nt->Root_0.children@[i] is Some && inserted(
            *ot->Root_0.children@[i]->0,
            *nt->Root_0.children@[i]->0,
            b,
        ),
    ensures
        inserted(ot, nt, b),
        nt.wf(),
        forall|w: spec_fn(Body) -> int| #[trigger] nt.weight(w) == ot.weight(w) + w(b),
        forall|p: spec_fn(Body) -> bool| #[trigger]
            nt.all_bodies(p) == (ot.all_bodies(p) && p(b)),
{
    let o = ot->Root_0;
    let n = nt->Root_0;
    let oc = o.children@;
    let nc = n.children@;
    assert(oc.len() == 8 && nc.len() == 8);
    assert forall|j: int| 0 <= j < 8 && j != i implies nc[j] == oc[j] by {}
    assert forall|w: spec_fn(Body) -> int| #[trigger] nt.weight(w) == ot.weight(w) + w(b) by {
        assert(opt_weight(nc[i], w) == opt_weight(oc[i], w) + w(b));
    }
    assert forall|p: spec_fn(Body) -> bool| #[trigger]
        nt.all_bodies(p) == (ot.all_bodies(p) && p(b)) by {
        assert(opt_all(nc[i], p) == (opt_all(oc[i], p) && p(b)));
        if ot.all_bodies(p) && p(b) {
            assert forall|j: int| 0 <= j < nc.len() implies opt_all(#[trigger] nc[j], p) by {
                assert(opt_all(oc[j], p));
            }
        }
        if nt.all_bodies(p) {
            assert(opt_all(nc[i], p));
            assert forall|j: int| 0 <= j < oc.len() implies opt_all(#[trigger] oc[j], p) by {
                assert(opt_all(nc[j], p));
            }
        }
    }
    assert(nt.weight(mass_w()) == ot.weight(mass_w()) + mass_w()(b));
    assert(nt.weight(moment_w(0)) == ot.weight(moment_w(0)) + moment_w(0)(b));
    assert(nt.weight(moment_w(1)) == ot.weight(moment_w(1)) + moment_w(1)(b));
    assert(nt.weight(moment_w(2)) == ot.weight(moment_w(2)) + moment_w(2)(b));
    assert forall|j: int| 0 <= j < 8 implies opt_child_wf(
        #[trigger] nc[j],
        n.boundary,
        region_at(j),
    ) by {
        if j != i {
            assert(opt_child_wf(oc[j], o.boundary, region_at(j)));
        }
    }
}

/// A child slot of a well-formed tree carries a non-negative mass.
pub(crate) proof fn lemma_opt_mass_nonneg(c: Option<Box<OcTree>>, parent: Cube, reg: Region)
    requires
        opt_child_wf(c, parent, reg),
    ensures
        opt_weight(c, mass_w()) >= 0,
{
    if let Some(t) = c {
        match *t {
            OcTree::Leaf(l) => {},
            OcTree::Root(r) => {},
        }
    }
}

/// The moment of a child slot is bounded by its mass times the coordinate
/// limit.
proof fn lemma_opt_moment_bound(c: Option<Box<OcTree>>, parent: Cube, reg: Region, a: int)
    requires
        opt_child_wf(c, parent, reg),
        0 <= a < 3,
    ensures
        -COORD_LIMIT * opt_weight(c, mass_w()) <= opt_weight(c, moment_w(a)) <= COORD_LIMIT
            * opt_weight(c, mass_w()),
    decreases c,
{
    if let Some(t) = c {
        lemma_moment_bound(*t, a);
    }
}

/// The moment of a well-formed tree along any axis is bounded by its mass times
/// the coordinate limit, so it fits the stored integer width.
pub proof fn lemma_moment_bound(t: OcTree, a: int)
    requires
        t.wf(),
        0 <= a < 3,
    ensures
        t.weight(mass_w()) >= 0,
        -COORD_LIMIT * t.weight(mass_w()) <= t.weight(moment_w(a)) <= COORD_LIMIT * t.weight(
            mass_w(),
        ),
    decreases t,
{
    match t {
        OcTree::Leaf(l) => {
            let m = l.body.mass as int;
            let x = l.body.pos.at(a);
            assert(-COORD_LIMIT <= x <= COORD_LIMIT);
            assert(-COORD_LIMIT * m <= m * x <= COORD_LIMIT * m) by (nonlinear_arith)
                requires
                    -COORD_LIMIT <= x <= COORD_LIMIT,
                    m > 0,
            ;
        },
        OcTree::Root(r) => {
            let cs = r.children@;
            assert(opt_child_wf(cs[0], r.boundary, region_at(0)));
            assert(opt_child_wf(cs[1], r.boundary, region_at(1)));
            assert(opt_child_wf(cs[2], r.boundary, region_at(2)));
            assert(opt_child_wf(cs[3], r.boundary, region_at(3)));
            assert(opt_child_wf(cs[4], r.boundary, region_at(4)));
            assert(opt_child_wf(cs[5], r.boundary, region_at(5)));
            assert(opt_child_wf(cs[6], r.boundary, region_at(6)));
            assert(opt_child_wf(cs[7], r.boundary, region_at(7)));
            lemma_opt_moment_bound(cs[0], r.boundary, region_at(0), a);
            lemma_opt_moment_bound(cs[1], r.boundary, region_at(1), a);
            lemma_opt_moment_bound(cs[2], r.boundary, region_at(2), a);
            lemma_opt_moment_bound(cs[3], r.boundary, region_at(3), a);
            lemma_opt_moment_bound(cs[4], r.boundary, region_at(4), a);
            lemma_opt_moment_bound(cs[5], r.boundary, region_at(5), a);
            lemma_opt_moment_bound(cs[6], r.boundary, region_at(6), a);
            lemma_opt_moment_bound(cs[7], r.boundary, region_at(7), a);
        },
    }
}

proof fn lemma_opt_leaf_count(c: Option<Box<OcTree>>)
    ensures
        opt_leaf_count(c) == opt_weight(c, count_w()),
    decreases c,
{
    if let Some(t) = c {
        lemma_one_body_per_leaf(*t);
    }
}

/// Every leaf holds exactly one body: the number of leaves is the number of
/// bodies.
pub proof fn lemma_one_body_per_leaf(t: OcTree)
    ensures
        t.leaf_count() == t.weight(count_w()),
    decreases t,
{
    if let OcTree::Root(r) = t {
        if r.children@.len() == 8 {
            lemma_opt_leaf_count(r.children@[0]);
            lemma_opt_leaf_count(r.children@[1]);
            lemma_opt_leaf_count(r.children@[2]);
            lemma_opt_leaf_count(r.children@[3]);
            lemma_opt_leaf_count(r.children@[4]);
            lemma_opt_leaf_count(r.children@[5]);
            lemma_opt_leaf_count(r.children@[6]);
            lemma_opt_leaf_count(r.children@[7]);
        }
    }
}

/// Every internal cell of a well-formed tree stores the total mass of the
/// bodies below it and, per axis, the sum of `mass · coordinate`; its centre
/// of mass is that sum divided by the mass.
pub proof fn lemma_aggregates(t: OcTree)
    requires
        t.wf(),
        t is Root,
    ensures
        t->Root_0.mass == t.weight(mass_w()),
        t->Root_0.moment.x == t.weight(moment_w(0)),
        t->Root_0.moment.y == t.weight(moment_w(1)),
        t->Root_0.moment.z == t.weight(moment_w(2)),
{
}

/// Where `r` holds of every body, `p` and `q` agree on them, so `p` holds of
/// every body iff `q` does.
proof fn lemma_all_agree(
    t: OcTree,
    r: spec_fn(Body) -> bool,
    p: spec_fn(Body) -> bool,
    q: spec_fn(Body) -> bool,
)
    requires
        t.all_bodies(r),
        forall|b: Body| #[trigger] r(b) ==> (p(b) == q(b)),
    ensures
        t.all_bodies(p) == t.all_bodies(q),
    decreases t,
{
    if let OcTree::Root(rt) = t {
        let cs = rt.children@;
        assert forall|i: int| 0 <= i < cs.len() implies opt_all(#[trigger] cs[i], p) == opt_all(
            cs[i],
            q,
        ) by {
            assert(opt_all(cs[i], r));
            if let Some(c) = cs[i] {
                lemma_all_agree(*c, r, p, q);
            }
        }
        if t.all_bodies(p) {
            assert forall|i: int| 0 <= i < cs.len() implies opt_all(#[trigger] cs[i], q) by {
                assert(opt_all(cs[i], p));
            }
        }
        if t.all_bodies(q) {
            assert forall|i: int| 0 <= i < cs.len() implies opt_all(#[trigger] cs[i], p) by {
                assert(opt_all(cs[i], q));
            }
        }
    }
}

/// What holds of every body under `p` holds under `q` when `p` implies `q`.
pub proof fn lemma_all_weaken(t: OcTree, p: spec_fn(Body) -> bool, q: spec_fn(Body) -> bool)
    requires
        t.all_bodies(p),
        forall|b: Body| #[trigger] p(b) ==> q(b),
    ensures
        t.all_bodies(q),
    decreases t,
{
    if let OcTree::Root(r) = t {
        assert forall|i: int| 0 <= i < r.children@.len() implies opt_all(
            #[trigger] r.children@[i],
            q,
        ) by {
            assert(opt_all(r.children@[i], p));
            if let Some(c) = r.children@[i] {
                lemma_all_weaken(*c, p, q);
            }
        }
    }
}

/// Every body of a well-formed tree lies in the tree's cube (and, applied to
/// each subtree, in the cube of every cell above it).
pub proof fn lemma_containment(t: OcTree)
    requires
        t.wf(),
    ensures
        t.all_bodies(inside(t.boundary_spec())),
    decreases t,
{
    if let OcTree::Root(r) = t {
        assert forall|i: int| 0 <= i < r.children@.len() implies opt_all(
            #[trigger] r.children@[i],
            inside(r.boundary),
        ) by {
            assert(opt_child_wf(r.children@[i], r.boundary, region_at(i)));
            if let Some(c) = r.children@[i] {
                lemma_containment(*c);
                assert forall|b: Body| #[trigger] inside(c.boundary_spec())(b) implies inside(
                    r.boundary,
                )(b) by {
                    crate::cube::lemma_child_inside(r.boundary, region_at(i), b.pos);
                }
                lemma_all_weaken(*c, inside(c.boundary_spec()), inside(r.boundary));
            }
        }
    }
}

} // verus!
