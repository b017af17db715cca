use vstd::prelude::*;

use crate::body::Body;
use crate::octree::{
    count_w, inside, inserted, lemma_aggregates, lemma_all_weaken, lemma_containment,
    lemma_one_body_per_leaf, mass_w, moment_w, not_at, InsertError, OcTree,
};
use crate::rectangle::Rectangle;

verus! {

/// Bodies in the plane z = 0.
pub open spec fn in_plane() -> spec_fn(Body) -> bool {
    |b: Body| b.pos.z == 0
}

/// A Barnes–Hut quadtree: an octree over the cube whose face z = 0 is the
/// square, holding bodies of that face only. Every such body falls in one of
/// the four near octants (`TNE`, `TSE`, `TSW`, `TNW`), which are the quadrants
/// north-east, south-east, south-west and north-west.
pub struct QuadTree {
    pub tree: OcTree,
}

impl QuadTree {
    pub open spec fn wf(self) -> bool {
        &&& self.tree.wf()
        &&& self.tree.boundary_spec().pos.z == 0
        &&& self.tree.all_bodies(in_plane())
    }

    /// An empty quadtree over `boundary`: an internal cell with no children.
    pub fn new(boundary: Rectangle) -> (q: QuadTree)
        requires
            boundary.wf(),
            boundary.cube().can_halve(),
        ensures
            q.wf(),
            q.tree is Root,
            q.tree.boundary_spec() == boundary.cube(),
            q.tree->Root_0.children@.len() == 8,
            forall|i: int| 0 <= i < 8 ==> (#[trigger] q.tree->Root_0.children@[i]) is None,
            forall|w: spec_fn(Body) -> int| #[trigger] q.tree.weight(w) == 0,
            forall|p: spec_fn(Body) -> bool| #[trigger] q.tree.all_bodies(p),
    {
        let t = OcTree::new(boundary.to_cube());
        assert(t.all_bodies(in_plane()));
        QuadTree { tree: t }
    }

    /// Inserts `b`. It fails with `OutOfBounds` when `b` is off the plane or
    /// outside the square and with `Coincident` when a body already sits at
    /// `b`'s position; the tree is then unchanged. Otherwise `b` is inserted
    /// along its path, as for `OcTree::insert`.
    pub fn insert(&mut self, b: Body) -> (r: Result<(), InsertError>)
        requires
            old(self).wf(),
            b.pos.bounded(),
            b.mass > 0,
            old(self).tree.weight(mass_w()) + b.mass <= u64::MAX,
        ensures
            final(self).wf(),
            final(self).tree.boundary_spec() == old(self).tree.boundary_spec(),
            r == Err::<(), InsertError>(InsertError::OutOfBounds) <==> (b.pos.z != 0 || !old(
                self,
            ).tree.boundary_spec().contains_spec(b.pos)),
            r == Err::<(), InsertError>(InsertError::Coincident) <==> (b.pos.z == 0 && old(
                self,
            ).tree.boundary_spec().contains_spec(b.pos) && !old(self).tree.all_bodies(
                not_at(b.pos),
            )),
            r is Err ==> *final(self) == *old(self),
            r is Ok ==> inserted(old(self).tree, final(self).tree, b),
            r is Ok ==> forall|w: spec_fn(Body) -> int| #[trigger]
                final(self).tree.weight(w) == old(self).tree.weight(w) + w(b),
            r is Ok ==> forall|p: spec_fn(Body) -> bool| #[trigger]
                final(self).tree.all_bodies(p) == (old(self).tree.all_bodies(p) && p(b)),
            r is Ok ==> final(self).tree.leaf_count() == old(self).tree.leaf_count() + 1,
    {
        if b.pos.z != 0 {
            return Err(InsertError::OutOfBounds);
        }
        let r = self.tree.insert(b);
        proof {
            if r is Ok {
                assert(self.tree.all_bodies(in_plane()) == (old(self).tree.all_bodies(in_plane())
                    && in_plane()(b)));
            }
        }
        r
    }
}

/// In a quadtree whose square has a positive edge, every body falls in one of
/// the four near octants of the root, that is, in a quadrant.
pub proof fn lemma_bodies_in_quadrants(q: QuadTree)
    requires
        q.wf(),
        q.tree.boundary_spec().size >= 1,
    ensures
        q.tree.all_bodies(
            |b: Body| !q.tree.boundary_spec().region_spec(b.pos).far(2),
        ),
{
    let c = q.tree.boundary_spec();
    let p = |b: Body| !c.region_spec(b.pos).far(2);
    assert forall|b: Body| #[trigger] in_plane()(b) implies p(b) by {
        assert(!c.far_side(b.pos, 2));
    }
    lemma_all_weaken(q.tree, in_plane(), p);
}

/// A well-formed quadtree (one from `new` after any successful inserts) keeps
/// every body inside its square, stores at its root the exact total mass and
/// moment of its bodies, and has one leaf per body.
pub proof fn lemma_quadtree_invariants(q: QuadTree)
    requires
        q.wf(),
    ensures
        q.tree.all_bodies(inside(q.tree.boundary_spec())),
        q.tree is Root ==> q.tree->Root_0.mass == q.tree.weight(mass_w()),
        q.tree is Root ==> q.tree->Root_0.moment.x == q.tree.weight(moment_w(0)),
        q.tree is Root ==> q.tree->Root_0.moment.y == q.tree.weight(moment_w(1)),
        q.tree.leaf_count() == q.tree.weight(count_w()),
{
    lemma_containment(q.tree);
    if q.tree is Root {
        lemma_aggregates(q.tree);
    }
    lemma_one_body_per_leaf(q.tree);
}

} // verus!
