use n_body::cube::{Cube, Region};
use n_body::vector::Vector3;

fn c10() -> Cube {
    Cube { pos: Vector3::new(-5, -5, -5), size: 10, scale: 1 }
}

#[test]
fn cube_test_inside() {
    let c = c10();
    let p1 = Vector3::new(1, 4, -3);
    let p2 = Vector3::new(-6, 4, 3);

    assert!(c.contains(&p1));
    assert!(!c.contains(&p2));
}

#[test]
fn test_region() {
    let c = c10();
    let p1 = Vector3::new(1, -4, -4);
    let p2 = Vector3::new(1, 4, -4);
    let p3 = Vector3::new(-1, 4, -4);
    let p4 = Vector3::new(-1, -4, -4);

    let p5 = Vector3::new(1, -4, 4);
    let p6 = Vector3::new(1, 4, 4);
    let p7 = Vector3::new(-1, 4, 4);
    let p8 = Vector3::new(-1, -4, 4);

    assert_eq!(c.region(&p1), Region::TNE);
    assert_eq!(c.region(&p2), Region::TSE);
    assert_eq!(c.region(&p3), Region::TSW);
    assert_eq!(c.region(&p4), Region::TNW);

    assert_eq!(c.region(&p5), Region::BNE);
    assert_eq!(c.region(&p6), Region::BSE);
    assert_eq!(c.region(&p7), Region::BSW);
    assert_eq!(c.region(&p8), Region::BNW);
}

#[test]
fn cube_test_square_split() {
    let c = c10();
    let tne = Cube { pos: Vector3::new(0, -5, -5), size: 5, scale: 1 };
    let tse = Cube { pos: Vector3::new(0, 0, -5), size: 5, scale: 1 };
    let tsw = Cube { pos: Vector3::new(-5, 0, -5), size: 5, scale: 1 };
    let tnw = Cube { pos: Vector3::new(-5, -5, -5), size: 5, scale: 1 };
    let bne = Cube { pos: Vector3::new(0, -5, 0), size: 5, scale: 1 };
    let bse = Cube { pos: Vector3::new(0, 0, 0), size: 5, scale: 1 };
    let bsw = Cube { pos: Vector3::new(-5, 0, 0), size: 5, scale: 1 };
    let bnw = Cube { pos: Vector3::new(-5, -5, 0), size: 5, scale: 1 };
    assert_eq!(tne, c.region_boundary(Region::TNE));
    assert_eq!(tse, c.region_boundary(Region::TSE));
    assert_eq!(tsw, c.region_boundary(Region::TSW));
    assert_eq!(tnw, c.region_boundary(Region::TNW));
    assert_eq!(bne, c.region_boundary(Region::BNE));
    assert_eq!(bse, c.region_boundary(Region::BSE));
    assert_eq!(bsw, c.region_boundary(Region::BSW));
    assert_eq!(bnw, c.region_boundary(Region::BNW));
}

#[test]
fn containment_is_closed_on_both_ends() {
    let c = c10();
    assert!(c.contains(&Vector3::new(-5, -5, -5)));
    assert!(c.contains(&Vector3::new(5, 5, 5)));
    assert!(!c.contains(&Vector3::new(5, 5, 6)));
    assert!(!c.contains(&Vector3::new(-5, -6, 0)));
}

#[test]
fn midplane_points_go_to_the_far_side() {
    let c = c10();
    assert_eq!(c.region(&Vector3::new(0, 0, 0)), Region::BSE);
    assert_eq!(c.region(&Vector3::new(-1, -1, -1)), Region::TNW);
    assert_eq!(c.region(&Vector3::new(0, -1, -1)), Region::TNE);
}

#[test]
fn odd_edge_midplane_is_exact() {
    let c = Cube { pos: Vector3::new(0, 0, 0), size: 5, scale: 1 };
    // The midplane is at 2.5: 2 is near, 3 is far.
    assert_eq!(c.region(&Vector3::new(2, 2, 2)), Region::TNW);
    assert_eq!(c.region(&Vector3::new(3, 3, 3)), Region::BSE);
}

#[test]
fn odd_edge_children_use_a_finer_scale() {
    // Edge 5 splits into children of edge 5/2.
    let c = Cube { pos: Vector3::new(0, 0, 0), size: 5, scale: 1 };
    assert_eq!(c.region_boundary(Region::TNW), Cube { pos: Vector3::new(0, 0, 0), size: 5, scale: 2 });
    assert_eq!(c.region_boundary(Region::BSE), Cube { pos: Vector3::new(5, 5, 5), size: 5, scale: 2 });
    let g = c.region_boundary(Region::BSE).region_boundary(Region::TNW);
    assert_eq!(g, Cube { pos: Vector3::new(10, 10, 10), size: 5, scale: 4 });
    assert!(g.contains(&Vector3::new(3, 3, 3)));
    assert!(!g.contains(&Vector3::new(4, 3, 3)));
}

#[test]
fn children_are_exact_halves() {
    let c = Cube { pos: Vector3::new(-8, -8, -8), size: 16, scale: 1 };
    assert_eq!(c.region_boundary(Region::BSE), Cube { pos: Vector3::new(0, 0, 0), size: 8, scale: 1 });
    assert_eq!(c.region_boundary(Region::TNW), Cube { pos: Vector3::new(-8, -8, -8), size: 8, scale: 1 });
}

#[test]
fn unit_cube_separates_distinct_points() {
    let c = Cube { pos: Vector3::new(0, 0, 0), size: 1, scale: 1 };
    assert_eq!(c.region(&Vector3::new(0, 0, 0)), Region::TNW);
    assert_eq!(c.region(&Vector3::new(1, 0, 0)), Region::TNE);
    assert_eq!(c.region(&Vector3::new(0, 0, 1)), Region::BNW);
}

#[test]
fn softened_squared_distance_in_thousandths() {
    let a = Vector3::new(0, 0, 0);
    let b = Vector3::new(1, 2, 2);
    assert_eq!(a.distance_2(b), 9001);
    assert_eq!(a.distance_2(a), 1);
    assert_eq!(Vector3::zero(), Vector3::new(0, 0, 0));
}
