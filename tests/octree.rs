use n_body::body::Body;
use n_body::cube::{Cube, Region};
use n_body::octree::{InsertError, OcTree};
use n_body::vector::Vector3;

fn body(id: u32, x: i64, y: i64, z: i64, mass: u64) -> Body {
    Body { id, pos: Vector3::new(x, y, z), mass }
}

fn leaves(t: &OcTree) -> usize {
    match t {
        OcTree::Leaf(_) => 1,
        OcTree::Root(r) => r.children.iter().map(|c| c.as_ref().map_or(0, |t| leaves(t))).sum(),
    }
}

fn aggregates(t: &OcTree) -> (u64, i128, i128, i128) {
    match t {
        OcTree::Root(r) => (r.mass, r.moment.x, r.moment.y, r.moment.z),
        OcTree::Leaf(l) => {
            let m = l.body.mass as i128;
            (l.body.mass, m * l.body.pos.x as i128, m * l.body.pos.y as i128, m * l.body.pos.z as i128)
        }
    }
}

fn com(t: &OcTree) -> (f64, f64, f64) {
    let (m, x, y, z) = aggregates(t);
    (x as f64 / m as f64, y as f64 / m as f64, z as f64 / m as f64)
}

#[test]
fn test_octree_insert() {
    let mut ot = OcTree::new(Cube { pos: Vector3::new(-5, -5, 0), size: 10, scale: 1 });
    let b1 = body(1, 4, -4, 0, 1);
    let b2 = body(2, 3, -4, 0, 10);
    assert!(ot.insert(b1).is_ok());
    assert!(ot.insert(b2).is_ok());
    match &ot {
        OcTree::Root(_) => {}
        OcTree::Leaf(_) => panic!("Should be root"),
    }
    assert_eq!(com(&ot), (3.090909090909091, -4.0, 0.0));
}

#[test]
fn two_body_aggregates_are_exact() {
    let mut ot = OcTree::new(Cube { pos: Vector3::new(-5, -5, -5), size: 10, scale: 1 });
    assert_eq!(ot.insert(body(1, 4, -4, 0, 1)), Ok(()));
    assert_eq!(ot.insert(body(2, 3, -4, 0, 10)), Ok(()));
    assert_eq!(aggregates(&ot), (11, 34, -44, 0));
    let (x, y, _) = com(&ot);
    assert_eq!(x, 3.090909090909091);
    assert_eq!(y, -4.0);
}

#[test]
fn bodies_one_step_apart_are_separated() {
    // The cells holding both have edges 10, 5 and 5/2; the last one parts
    // them into leaves of edge 5/4.
    let mut ot = OcTree::new(Cube { pos: Vector3::new(-5, -5, -5), size: 10, scale: 1 });
    assert_eq!(ot.insert(body(1, 4, -4, 0, 1)), Ok(()));
    assert_eq!(ot.insert(body(2, 3, -4, 0, 10)), Ok(()));
    assert_eq!(leaves(&ot), 2);
    fn deepest_leaf_scale(t: &OcTree) -> i64 {
        match t {
            OcTree::Leaf(l) => l.boundary.scale,
            OcTree::Root(r) => r.children.iter().flatten().map(|c| deepest_leaf_scale(c)).max().unwrap_or(0),
        }
    }
    assert_eq!(deepest_leaf_scale(&ot), 4);
}

#[test]
fn first_body_becomes_a_leaf_in_its_octant() {
    let cube = Cube { pos: Vector3::new(-5, -5, -5), size: 10, scale: 1 };
    let mut ot = OcTree::new(cube);
    // y = 0 is on the midplane, so the body goes to the south (far) side.
    let b = body(1, 3, 0, -2, 2);
    assert_eq!(ot.insert(b), Ok(()));
    let r = match &ot {
        OcTree::Root(r) => r,
        OcTree::Leaf(_) => panic!("Should be root"),
    };
    for (i, c) in r.children.iter().enumerate() {
        if i == Region::TSE.index() {
            match c.as_ref().map(|t| t.as_ref()) {
                Some(OcTree::Leaf(l)) => {
                    assert_eq!(l.body, b);
                    assert_eq!(l.boundary, cube.region_boundary(Region::TSE));
                }
                _ => panic!("expected a leaf in the south-east slot"),
            }
        } else {
            assert!(c.is_none());
        }
    }
}

#[test]
fn new_tree_is_an_empty_internal_cell() {
    let ot = OcTree::new(Cube { pos: Vector3::new(-5, -5, -5), size: 10, scale: 1 });
    match ot {
        OcTree::Root(r) => {
            assert_eq!((r.mass, r.moment.x, r.moment.y, r.moment.z), (0, 0, 0, 0));
            assert_eq!(r.children.len(), 8);
            assert!(r.children.iter().all(|c| c.is_none()));
        }
        OcTree::Leaf(_) => panic!("Should be root"),
    }
}

#[test]
fn insert_outside_is_rejected() {
    let mut ot = OcTree::new(Cube { pos: Vector3::new(-5, -5, -5), size: 10, scale: 1 });
    assert_eq!(ot.insert(body(1, -6, 4, 0, 1)), Err(InsertError::OutOfBounds));
    assert_eq!(aggregates(&ot), (0, 0, 0, 0));
    assert_eq!(leaves(&ot), 0);
}

#[test]
fn insert_at_taken_position_is_rejected() {
    let mut ot = OcTree::new(Cube { pos: Vector3::new(-5, -5, -5), size: 10, scale: 1 });
    assert_eq!(ot.insert(body(1, 1, 1, 1, 3)), Ok(()));
    assert_eq!(ot.insert(body(2, 1, 1, 1, 5)), Err(InsertError::Coincident));
    assert_eq!(aggregates(&ot), (3, 3, 3, 3));
    assert_eq!(leaves(&ot), 1);
}

#[test]
fn subdivision_keeps_one_body_per_leaf() {
    // (4, -4) and (4.5, -4.5) in the square (-5, -5), edge 10, on a grid of
    // half units.
    let mut ot = OcTree::new(Cube { pos: Vector3::new(-10, -10, 0), size: 20, scale: 1 });
    assert_eq!(ot.insert(body(1, 8, -8, 0, 1)), Ok(()));
    assert_eq!(ot.insert(body(2, 9, -9, 0, 1)), Ok(()));
    let r = match &ot {
        OcTree::Root(r) => r,
        OcTree::Leaf(_) => panic!("Should be root"),
    };
    for (i, c) in r.children.iter().enumerate() {
        if i != Region::TNE.index() {
            assert!(c.is_none());
        }
    }
    let ne = r.children[Region::TNE.index()].as_ref().unwrap();
    match ne.as_ref() {
        OcTree::Root(n) => {
            assert_eq!(n.boundary, Cube { pos: Vector3::new(0, -10, 0), size: 10, scale: 1 });
            assert_eq!(n.mass, 2);
        }
        OcTree::Leaf(_) => panic!("north-east cell should have been split"),
    }
    assert_eq!(leaves(ne), 2);
    assert_eq!(leaves(&ot), 2);
}

#[test]
fn leaf_count_matches_bodies_and_bodies_stay_inside() {
    let cube = Cube { pos: Vector3::new(-50, -50, -50), size: 100, scale: 1 };
    let mut ot = OcTree::new(cube);
    let mut n = 0;
    let mut total: u64 = 0;
    let mut mx: i128 = 0;
    for i in 0..40i64 {
        let b = body(i as u32, (i * 37) % 101 - 50, (i * 53) % 101 - 50, (i * 17) % 101 - 50, (i as u64 % 7) + 1);
        if ot.insert(b).is_ok() {
            n += 1;
            total += b.mass;
            mx += b.mass as i128 * b.pos.x as i128;
        }
        assert_eq!(leaves(&ot), n);
    }
    let (m, x, _, _) = aggregates(&ot);
    assert_eq!(m, total);
    assert_eq!(x, mx);
    fn check(t: &OcTree, outer: &Cube) {
        match t {
            OcTree::Leaf(l) => {
                assert!(l.boundary.contains(&l.body.pos));
                assert!(outer.contains(&l.body.pos));
            }
            OcTree::Root(r) => {
                for c in r.children.iter().flatten() {
                    check(c, &r.boundary);
                    check(c, outer);
                }
            }
        }
    }
    check(&ot, &cube);
}
