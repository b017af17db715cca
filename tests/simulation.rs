use n_body::body::Body;
use n_body::cube::Cube;
use n_body::octree::OcTree;
use n_body::simulation::{bounding_cube, build_tree};
use n_body::vector::Vector3;

fn body(id: u32, x: i64, y: i64, z: i64, mass: u64) -> Body {
    Body { id, pos: Vector3::new(x, y, z), mass }
}

#[test]
fn bounding_cube_is_centred_on_the_largest_coordinate() {
    let bodies = vec![body(1, 3, -7, 2, 1), body(2, -1, 4, 6, 1)];
    assert_eq!(bounding_cube(&bodies), Cube { pos: Vector3::new(-7, -7, -7), size: 14, scale: 1 });
    let bodies = vec![body(1, 1, 2, -9, 1)];
    assert_eq!(bounding_cube(&bodies), Cube { pos: Vector3::new(-9, -9, -9), size: 18, scale: 1 });
    let bodies = vec![body(1, 3, 0, 0, 1)];
    assert_eq!(bounding_cube(&bodies), Cube { pos: Vector3::new(-3, -3, -3), size: 6, scale: 1 });
}

#[test]
fn bounding_cube_of_no_bodies_is_a_point() {
    assert_eq!(bounding_cube(&vec![]), Cube { pos: Vector3::new(0, 0, 0), size: 0, scale: 1 });
}

#[test]
fn rebuild_skips_a_body_at_a_taken_position() {
    let bodies = vec![body(1, 2, 2, 2, 4), body(2, -3, 1, 0, 1), body(3, 2, 2, 2, 9)];
    let t = build_tree(&bodies);
    match t {
        OcTree::Root(r) => {
            assert_eq!(r.boundary, Cube { pos: Vector3::new(-3, -3, -3), size: 6, scale: 1 });
            assert_eq!(r.mass, 5);
            assert_eq!((r.moment.x, r.moment.y, r.moment.z), (5, 9, 8));
        }
        OcTree::Leaf(_) => panic!("Should be root"),
    }
}

#[test]
fn rebuild_holds_every_body() {
    let bodies: Vec<Body> = (0..50i64)
        .map(|i| body(i as u32, 2 * ((i * 37) % 201 - 100), 2 * ((i * 91) % 201 - 100), 2 * ((i * 13) % 201 - 100), 2))
        .collect();
    let t = build_tree(&bodies);
    match t {
        OcTree::Root(r) => {
            assert_eq!(r.mass, 100);
            let mx: i128 = bodies.iter().map(|b| 2 * b.pos.x as i128).sum();
            assert_eq!(r.moment.x, mx);
        }
        OcTree::Leaf(_) => panic!("Should be root"),
    }
}

#[test]
fn rebuild_keeps_bodies_one_step_apart() {
    let bodies = vec![body(1, 0, 0, 0, 3), body(2, 1, 0, 0, 5)];
    match build_tree(&bodies) {
        OcTree::Root(r) => {
            assert_eq!(r.boundary, Cube { pos: Vector3::new(-1, -1, -1), size: 2, scale: 1 });
            assert_eq!((r.mass, r.moment.x), (8, 5));
        }
        OcTree::Leaf(_) => panic!("Should be root"),
    }
}
