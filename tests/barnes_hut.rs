use n_body::barnes_hut::{Cell, Source, Theta};
use n_body::body::Body;
use n_body::cube::Cube;
use n_body::octree::{Moment, OcTree};
use n_body::simulation::build_tree;
use n_body::vector::Vector3;

fn body(id: u32, x: i64, y: i64, z: i64, mass: u64) -> Body {
    Body { id, pos: Vector3::new(x, y, z), mass }
}

fn theta(num: u16, den: u16) -> Theta {
    Theta { num, den }
}

/// The pull of a source on `b`, before the gravitational constant.
fn pull(b: &Body, s: &Source) -> (f64, f64, f64) {
    let (m, px, py, pz) = match s {
        Source::Body(c) => (c.mass as f64, c.pos.x as f64, c.pos.y as f64, c.pos.z as f64),
        Source::Cell(c) => {
            let m = c.mass as f64;
            (m, c.moment.x as f64 / m, c.moment.y as f64 / m, c.moment.z as f64 / m)
        }
    };
    let (dx, dy, dz) = (px - b.pos.x as f64, py - b.pos.y as f64, pz - b.pos.z as f64);
    let d = (dx * dx + dy * dy + dz * dz + 0.001).sqrt();
    let k = b.mass as f64 * m / d.powi(3);
    (dx * k, dy * k, dz * k)
}

#[test]
fn exact_and_approximate_force_agree_for_two_bodies() {
    let b1 = body(1, 0, 0, 0, 1);
    let b2 = body(2, 10, 0, 0, 1);
    let t = build_tree(&vec![b1, b2]);
    for th in [theta(0, 1), theta(1, 2), theta(1, 1)] {
        let s = t.sources_for(&b1, &th);
        assert_eq!(s, vec![Source::Body(b2)]);
        let (fx, fy, fz) = pull(&b1, &s[0]);
        assert_eq!(fx, 10.0 / 100.001f64.powf(1.5));
        assert!((fx - 0.00999985).abs() < 1e-8);
        assert_eq!((fy, fz), (0.0, 0.0));
    }
}

#[test]
fn own_leaf_contributes_nothing() {
    let mut t = OcTree::new(Cube { pos: Vector3::new(-5, -5, -5), size: 10, scale: 1 });
    let b1 = body(1, 4, -4, 0, 1);
    let b2 = body(2, 3, -4, 0, 10);
    t.insert(b1).unwrap();
    t.insert(b2).unwrap();
    let s = t.sources_for(&b1, &theta(1, 1));
    assert_eq!(s, vec![Source::Body(b2)]);
    let s = t.sources_for(&b2, &theta(1, 1));
    assert_eq!(s, vec![Source::Body(b1)]);
}

#[test]
fn no_source_is_the_body_itself_for_any_theta() {
    let bodies: Vec<Body> = (0..30i64)
        .map(|i| body(i as u32, 2 * ((i * 37) % 61 - 30), 2 * ((i * 11) % 61 - 30), 2 * ((i * 23) % 61 - 30), 1 + i as u64 % 5))
        .collect();
    let t = build_tree(&bodies);
    for th in [theta(0, 1), theta(1, 2), theta(4, 5), theta(1, 1), theta(10, 1)] {
        for b in &bodies {
            for s in t.sources_for(b, &th) {
                if let Source::Body(c) = s {
                    assert_ne!(c.id, b.id);
                }
            }
        }
    }
}

#[test]
fn zero_theta_gives_every_other_body_once() {
    let bodies: Vec<Body> = (0..20i64)
        .map(|i| body(i as u32, 2 * ((i * 37) % 41 - 20), 2 * ((i * 11) % 41 - 20), 2 * ((i * 7) % 41 - 20), 1 + i as u64))
        .collect();
    let t = build_tree(&bodies);
    for b in &bodies {
        let s = t.sources_for(b, &theta(0, 1));
        assert_eq!(s.len(), bodies.len() - 1);
        let mut ids: Vec<u32> = s
            .iter()
            .map(|x| match x {
                Source::Body(c) => c.id,
                Source::Cell(_) => panic!("no cell is taken whole at zero angle"),
            })
            .collect();
        ids.sort();
        let expected: Vec<u32> = bodies.iter().map(|c| c.id).filter(|id| *id != b.id).collect();
        assert_eq!(ids, expected);
    }
}

#[test]
fn far_cluster_is_taken_whole() {
    let target = body(1, -100, -100, -100, 1);
    let a = body(2, 90, 90, 90, 2);
    let c = body(3, 91, 90, 90, 3);
    let t = build_tree(&vec![target, a, c]);
    // The cluster shares a cell of edge 100 whose centre of mass is about 330
    // away, so 100 / 330 < 1/2 and the cell acts as one body.
    let s = t.sources_for(&target, &theta(1, 2));
    assert_eq!(s.len(), 1);
    match s[0] {
        Source::Cell(Cell { mass, moment }) => {
            assert_eq!(mass, 5);
            assert_eq!(moment, Moment { x: 453, y: 450, z: 450 });
        }
        Source::Body(_) => panic!("expected the cluster as one cell"),
    }
    // With a tiny angle both bodies act one by one, in child-slot order: the
    // body on the far side of x comes first.
    let s = t.sources_for(&target, &theta(1, 1000));
    assert_eq!(s, vec![Source::Body(c), Source::Body(a)]);
}

#[test]
fn empty_tree_has_no_sources() {
    let t = OcTree::new(Cube { pos: Vector3::new(-5, -5, -5), size: 10, scale: 1 });
    assert!(t.sources_for(&body(1, 0, 0, 0, 1), &theta(1, 1)).is_empty());
}

#[test]
fn sources_account_for_every_body_once() {
    let bodies: Vec<Body> = (0..40i64)
        .map(|i| body(i as u32, 2 * ((i * 29) % 81 - 40), 2 * ((i * 47) % 81 - 40), 2 * ((i * 5) % 81 - 40), 1 + i as u64 % 9))
        .collect();
    let t = build_tree(&bodies);
    let total: u64 = bodies.iter().map(|b| b.mass).sum();
    let total_x: i128 = bodies.iter().map(|b| b.mass as i128 * b.pos.x as i128).sum();
    for th in [theta(1, 2), theta(1, 1), theta(3, 1)] {
        for b in &bodies {
            let mut mass: u64 = 0;
            let mut mx: i128 = 0;
            for s in t.sources_for(b, &th) {
                match s {
                    Source::Body(c) => {
                        mass += c.mass;
                        mx += c.mass as i128 * c.pos.x as i128;
                    }
                    Source::Cell(c) => {
                        mass += c.mass;
                        mx += c.moment.x;
                    }
                }
            }
            let own_x = b.mass as i128 * b.pos.x as i128;
            assert!(
                (mass, mx) == (total - b.mass, total_x - own_x) || (mass, mx) == (total, total_x)
            );
        }
    }
}
