use n_body::body::Body;
use n_body::cube::Region;
use n_body::octree::{InsertError, OcTree};
use n_body::quadtree::QuadTree;
use n_body::rectangle::Rectangle;
use n_body::vector::{Vector2, Vector3};

fn body(id: u32, x: i64, y: i64, mass: u64) -> Body {
    Body { id, pos: Vector3::new(x, y, 0), mass }
}

#[test]
fn test_quadtree_insert() {
    let mut qt = QuadTree::new(Rectangle { pos: Vector2::new(-5, -5), size: 10, scale: 1 });
    let b1 = body(1, 4, -4, 1);
    let b2 = body(2, 3, -4, 10);
    assert!(qt.insert(b1).is_ok());
    assert!(qt.insert(b2).is_ok());
    let com = match qt.tree {
        OcTree::Root(root) => (
            root.moment.x as f64 / root.mass as f64,
            root.moment.y as f64 / root.mass as f64,
        ),
        OcTree::Leaf(_) => panic!("Should be root"),
    };
    assert_eq!(com, (3.090909090909091, -4.0));
}

#[test]
fn quadtree_rejects_bodies_off_the_square() {
    let mut qt = QuadTree::new(Rectangle { pos: Vector2::new(-5, -5), size: 10, scale: 1 });
    assert_eq!(qt.insert(body(1, -6, 4, 1)), Err(InsertError::OutOfBounds));
    assert_eq!(
        qt.insert(Body { id: 2, pos: Vector3::new(1, 1, 1), mass: 1 }),
        Err(InsertError::OutOfBounds)
    );
    assert_eq!(qt.insert(body(3, 1, 1, 1)), Ok(()));
    assert_eq!(qt.insert(body(4, 1, 1, 2)), Err(InsertError::Coincident));
}

#[test]
fn quadtree_uses_only_the_four_quadrants() {
    let mut qt = QuadTree::new(Rectangle { pos: Vector2::new(-5, -5), size: 10, scale: 1 });
    for (i, (x, y)) in [(4, -4), (4, 4), (-4, 4), (-4, -4)].iter().enumerate() {
        assert_eq!(qt.insert(body(i as u32, *x, *y, 1)), Ok(()));
    }
    match &qt.tree {
        OcTree::Root(r) => {
            for i in 0..4 {
                assert!(r.children[i].is_some());
            }
            for i in 4..8 {
                assert!(r.children[i].is_none());
            }
        }
        OcTree::Leaf(_) => panic!("Should be root"),
    }
}

#[test]
fn new_quadtree_is_empty_and_failed_insert_leaves_it_so() {
    let mut qt = QuadTree::new(Rectangle { pos: Vector2::new(-5, -5), size: 10, scale: 1 });
    assert_eq!(qt.insert(body(1, -6, 4, 1)), Err(InsertError::OutOfBounds));
    match &qt.tree {
        OcTree::Root(r) => {
            assert_eq!(r.mass, 0);
            assert!(r.children.iter().all(|c| c.is_none()));
        }
        OcTree::Leaf(_) => panic!("Should be root"),
    }
}

#[test]
fn midplane_body_goes_south_east() {
    let mut qt = QuadTree::new(Rectangle { pos: Vector2::new(-5, -5), size: 10, scale: 1 });
    assert_eq!(qt.insert(body(1, 2, 0, 1)), Ok(()));
    match &qt.tree {
        OcTree::Root(r) => {
            for (i, c) in r.children.iter().enumerate() {
                assert_eq!(c.is_some(), i == Region::TSE.index());
            }
        }
        OcTree::Leaf(_) => panic!("Should be root"),
    }
}
