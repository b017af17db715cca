use n_body::rectangle::Rectangle;
use n_body::vector::Vector2;

#[test]
fn rectangle_test_inside() {
    let r = Rectangle { pos: Vector2::new(-5, -5), size: 10, scale: 1 };
    let p1 = Vector2::new(1, 4);
    let p2 = Vector2::new(-6, 4);

    assert!(r.contains(&p1));
    assert!(!r.contains(&p2));
}

#[test]
fn rectangle_test_square_split() {
    let r = Rectangle { pos: Vector2::new(-5, -5), size: 10, scale: 1 };
    let ne = Rectangle { pos: Vector2::new(0, -5), size: 5, scale: 1 };
    let se = Rectangle { pos: Vector2::new(0, 0), size: 5, scale: 1 };
    let sw = Rectangle { pos: Vector2::new(-5, 0), size: 5, scale: 1 };
    let nw = Rectangle { pos: Vector2::new(-5, -5), size: 5, scale: 1 };
    assert_eq!(ne, r.north_east());
    assert_eq!(se, r.south_east());
    assert_eq!(sw, r.south_west());
    assert_eq!(nw, r.north_west());
}
