use vstd::prelude::*;

use crate::body::Body;
use crate::cube::Cube;
use crate::octree::{mass_w, not_at, InsertError, OcTree};
use crate::vector::{Vector3, COORD_LIMIT};

verus! {

broadcast use vstd::std_specs::vec::group_vec_axioms, vstd::seq::group_seq_axioms;

pub open spec fn abs(x: int) -> int {
    if x < 0 {
        -x
    } else {
        x
    }
}

pub open spec fn max(a: int, b: int) -> int {
    if a < b {
        b
    } else {
        a
    }
}

/// Largest coordinate magnitude of one body.
pub open spec fn body_extent(b: Body) -> int {
    max(abs(b.pos.x as int), max(abs(b.pos.y as int), abs(b.pos.z as int)))
}

/// Largest coordinate magnitude over all bodies and axes (0 for none).
pub open spec fn extent(s: Seq<Body>) -> int
    decreases s.len(),
{
    if s.len() == 0 {
        0
    } else {
        max(extent(s.drop_last()), body_extent(s.last()))
    }
}

/// The cube centred at the origin with half-edge `r`.
pub open spec fn centred_cube(r: int) -> Cube {
    Cube {
        pos: Vector3 { x: -r as i64, y: -r as i64, z: -r as i64 },
        size: (2 * r) as i64,
        scale: 1,
    }
}

/// `w` summed over a sequence of bodies.
pub open spec fn seq_weight(s: Seq<Body>, w: spec_fn(Body) -> int) -> int
    decreases s.len(),
{
    if s.len() == 0 {
        0
    } else {
        seq_weight(s.drop_last(), w) + w(s.last())
    }
}

/// Whether some body of `s` sits at `p`.
pub open spec fn has_pos(s: Seq<Body>, p: Vector3) -> bool {
    exists|j: int| 0 <= j < s.len() && (#[trigger] s[j]).pos == p
}

/// The bodies that a tree built from `s` in order holds: each body is kept
/// unless a body kept before it sits at the same position.
pub open spec fn kept(s: Seq<Body>) -> Seq<Body>
    decreases s.len(),
{
    if s.len() == 0 {
        Seq::empty()
    } else {
        let k = kept(s.drop_last());
        if has_pos(k, s.last().pos) {
            k
        } else {
            k.push(s.last())
        }
    }
}

/// Every body is within `COORD_LIMIT / 2` on each axis and has positive mass.
pub open spec fn valid_bodies(s: Seq<Body>) -> bool {
    forall|i: int|
        0 <= i < s.len() ==> {
            &&& -COORD_LIMIT / 2 <= (#[trigger] s[i]).pos.x <= COORD_LIMIT / 2
            &&& -COORD_LIMIT / 2 <= s[i].pos.y <= COORD_LIMIT / 2
            &&& -COORD_LIMIT / 2 <= s[i].pos.z <= COORD_LIMIT / 2
            &&& s[i].mass > 0
        }
}

fn abs_i64(x: i64) -> (r: i64)
    requires
        x > i64::MIN,
    ensures
        r == abs(x as int),
{
    if x < 0 {
        -x
    } else {
        x
    }
}

proof fn lemma_extent_bounds(s: Seq<Body>, i: int)
    requires
        0 <= i < s.len(),
    ensures
        body_extent(s[i]) <= extent(s),
    decreases s.len(),
{
    if i < s.len() - 1 {
        lemma_extent_bounds(s.drop_last(), i);
    }
}

/// The cube centred at the origin whose half-edge is the largest coordinate
/// magnitude of any body on any axis. It holds every body.
pub fn bounding_cube(bodies: &Vec<Body>) -> (c: Cube)
    requires
        valid_bodies(bodies@),
    ensures
        c == centred_cube(extent(bodies@)),
        c.wf(),
        c.can_halve(),
        forall|i: int| 0 <= i < bodies@.len() ==> c.contains_spec(#[trigger] bodies@[i].pos),
{
    let mut r: i64 = 0;
    let mut i: usize = 0;
    while i < bodies.len()
        invariant
            valid_bodies(bodies@),
            i <= bodies@.len(),
            r == extent(bodies@.take(i as int)),
            0 <= r <= COORD_LIMIT / 2,
        decreases bodies@.len() - i,
    {
        let b = &bodies[i];
        let ax = abs_i64(b.pos.x);
        let ay = abs_i64(b.pos.y);
        let az = abs_i64(b.pos.z);
        let m = if ax < ay {
            if ay < az {
                az
            } else {
                ay
            }
        } else {
            if ax < az {
                az
            } else {
                ax
            }
        };
        proof {
            assert(bodies@.take(i + 1).drop_last() =~= bodies@.take(i as int));
        }
        if r < m {
            r = m;
        }
        i = i + 1;
    }
    proof {
        assert(bodies@.take(i as int) =~= bodies@);
        assert forall|j: int| 0 <= j < bodies@.len() implies centred_cube(r as int).contains_spec(
            #[trigger] bodies@[j].pos,
        ) by {
            lemma_extent_bounds(bodies@, j);
        }
    }
    Cube { pos: Vector3 { x: -r, y: -r, z: -r }, size: 2 * r, scale: 1 }
}

/// `p` holds of every body of `s`.
pub open spec fn seq_all(s: Seq<Body>, p: spec_fn(Body) -> bool) -> bool {
    forall|j: int| 0 <= j < s.len() ==> p(#[trigger] s[j])
}

proof fn lemma_seq_weight_prefix(s: Seq<Body>, i: int)
    requires
        0 <= i <= s.len(),
        valid_bodies(s),
    ensures
        seq_weight(s.take(i), mass_w()) <= seq_weight(s, mass_w()),
    decreases s.len(),
{
    if i < s.len() {
        assert(s.drop_last().take(i) =~= s.take(i));
        assert(valid_bodies(s.drop_last()));
        lemma_seq_weight_prefix(s.drop_last(), i);
    } else {
        assert(s.take(i) =~= s);
    }
}

proof fn lemma_kept_weight(s: Seq<Body>)
    requires
        valid_bodies(s),
    ensures
        0 <= seq_weight(kept(s), mass_w()) <= seq_weight(s, mass_w()),
    decreases s.len(),
{
    if s.len() > 0 {
        assert(valid_bodies(s.drop_last()));
        lemma_kept_weight(s.drop_last());
        let k = kept(s.drop_last());
        if !has_pos(k, s.last().pos) {
            assert(k.push(s.last()).drop_last() =~= k);
        }
    }
}

/// A fresh tree over the bounding cube with the bodies inserted in order. A
/// body at a position already taken by an earlier one is skipped; no body is
/// ever out of bounds.
pub fn build_tree(bodies: &Vec<Body>) -> (t: OcTree)
    requires
        valid_bodies(bodies@),
        seq_weight(bodies@, mass_w()) <= u64::MAX,
    ensures
        t.wf(),
        t is Root,
        t.boundary_spec() == centred_cube(extent(bodies@)),
        forall|w: spec_fn(Body) -> int| #[trigger] t.weight(w) == seq_weight(kept(bodies@), w),
        forall|p: spec_fn(Body) -> bool| #[trigger] t.all_bodies(p) == seq_all(kept(bodies@), p),
{
    let c = bounding_cube(bodies);
    let mut t = OcTree::new(c);
    let mut i: usize = 0;
    while i < bodies.len()
        invariant
            valid_bodies(bodies@),
            seq_weight(bodies@, mass_w()) <= u64::MAX,
            forall|j: int| 0 <= j < bodies@.len() ==> c.contains_spec(#[trigger] bodies@[j].pos),
            i <= bodies@.len(),
            t.wf(),
            t is Root,
            t.boundary_spec() == c,
            c == centred_cube(extent(bodies@)),
            forall|w: spec_fn(Body) -> int| #[trigger]
                t.weight(w) == seq_weight(kept(bodies@.take(i as int)), w),
            forall|p: spec_fn(Body) -> bool| #[trigger]
                t.all_bodies(p) == seq_all(kept(bodies@.take(i as int)), p),
        decreases bodies@.len() - i,
    {
        let b = bodies[i];
        let ghost pre = bodies@.take(i as int);
        let ghost k = kept(pre);
        proof {
            let nxt = bodies@.take(i + 1);
            assert(nxt.drop_last() =~= pre);
            assert(nxt.last() == b);
            assert(valid_bodies(nxt));
            lemma_kept_weight(pre);
            assert(valid_bodies(pre));
            lemma_seq_weight_prefix(bodies@, i + 1);
            assert(seq_weight(nxt, mass_w()) == seq_weight(pre, mass_w()) + b.mass);
            assert(t.weight(mass_w()) == seq_weight(k, mass_w()));
            assert(t.all_bodies(not_at(b.pos)) == seq_all(k, not_at(b.pos)));
            if has_pos(k, b.pos) {
                let j = choose|j: int| 0 <= j < k.len() && (#[trigger] k[j]).pos == b.pos;
                assert(!not_at(b.pos)(k[j]));
            } else {
                assert forall|j: int| 0 <= j < k.len() implies not_at(b.pos)(#[trigger] k[j]) by {}
            }
            assert(c.contains_spec(bodies@[i as int].pos));
        }
        let ghost t0 = t;
        let res = t.insert(b);
        proof {
            assert(t0.boundary_spec().contains_spec(b.pos));
            if !has_pos(k, b.pos) {
                assert(t0.all_bodies(not_at(b.pos)));
            }
            let nxt = bodies@.take(i + 1);
            assert(res != Err::<(), InsertError>(InsertError::OutOfBounds));
            if has_pos(k, b.pos) {
                assert(kept(nxt) == k);
            } else {
                assert(kept(nxt) == k.push(b));
                assert(res != Err::<(), InsertError>(InsertError::Coincident));
                if let Err(e) = res {
                    assert(e is OutOfBounds || e is Coincident);
                }
                assert(res is Ok);
                assert forall|w: spec_fn(Body) -> int| #[trigger]
                    t.weight(w) == seq_weight(kept(nxt), w) by {
                    assert(k.push(b).drop_last() =~= k);
                }
                assert forall|p: spec_fn(Body) -> bool| #[trigger]
                    t.all_bodies(p) == seq_all(kept(nxt), p) by {
                    if seq_all(k, p) && p(b) {
                        assert forall|j: int| 0 <= j < k.push(b).len() implies p(
                            #[trigger] k.push(b)[j],
                        ) by {
                            if j < k.len() {
                                assert(k.push(b)[j] == k[j]);
                            }
                        }
                    }
                    if seq_all(k.push(b), p) {
                        assert(p(k.push(b)[k.len() as int]));
                        assert forall|j: int| 0 <= j < k.len() implies p(#[trigger] k[j]) by {
                            assert(p(k.push(b)[j]));
                        }
                    }
                }
            }
        }
        i = i + 1;
    }
    proof {
        assert(bodies@.take(i as int) =~= bodies@);
    }
    t
}

} // verus!
