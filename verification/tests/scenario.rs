use squish::collision::shape_shape_collision;
use squish::config::Config;
use squish::fixed::Fixed;
use squish::shape::Shape;
use squish::vector::Vec2;

fn body(points: &[(i64, i64)], body: (i64, i64), frame: (i64, i64), lock_frame: bool) -> Shape {
    Shape::new(
        points.iter().map(|p| (Vec2::from_ints(p.0, p.1), Fixed::from_int(10))).collect(),
        (Fixed::from_int(body.0), Fixed::from_int(body.1)),
        (Fixed::from_int(frame.0), Fixed::from_int(frame.1)),
        lock_frame,
        Fixed::one(),
        Config::standard(),
    )
}

#[test]
fn a_square_comes_to_rest_on_a_platform() {
    let surface = 200_000;
    let mut square = body(&[(80, 30), (120, 30), (120, 70), (80, 70)], (500, 30), (1500, 0), false);
    let mut platform =
        body(&[(0, 200), (400, 200), (400, 260), (0, 260)], (800, 30), (1000, 10), true);
    let dt = Fixed::from_raw(7);
    let mut landed = false;
    let mut lowest_late = i64::MAX;
    let mut highest_late = i64::MIN;
    for step in 0..4000 {
        square.update(dt, None);
        platform.update(dt, None);
        shape_shape_collision(&mut square, &mut platform);
        let bottom = square.bounding_box().1.y.raw();
        // the square never sinks through the platform
        assert!(bottom <= surface + 5000);
        if bottom >= surface {
            landed = true;
        }
        if landed {
            // and never bounces far off it again
            assert!(bottom >= surface - 10_000);
        }
        if step >= 2000 {
            lowest_late = lowest_late.min(bottom);
            highest_late = highest_late.max(bottom);
        }
    }
    assert!(landed);
    // it has settled within one unit of the surface, and stays there
    assert!((lowest_late - surface).abs() <= 1000);
    assert!((highest_late - surface).abs() <= 1000);
    assert!(highest_late - lowest_late <= 100);
    assert_eq!(square.bounding_box().1.y.raw(), 200_397);
    // the platform has kept its place
    let (lo, hi) = platform.bounding_box();
    assert!((lo.y.raw() - surface).abs() <= 1000);
    assert!((hi.y.raw() - 260_000).abs() <= 1000);
}

#[test]
fn the_simulation_is_deterministic() {
    let run = || {
        let mut square =
            body(&[(80, 30), (120, 30), (120, 70), (80, 70)], (500, 30), (1500, 0), false);
        let mut platform =
            body(&[(0, 40), (400, 40), (400, 100), (0, 100)], (800, 30), (1000, 10), true);
        for _ in 0..500 {
            square.update(Fixed::from_raw(7), None);
            platform.update(Fixed::from_raw(7), None);
            shape_shape_collision(&mut square, &mut platform);
        }
        square
            .points()
            .iter()
            .chain(platform.points().iter())
            .map(|p| (p.position.x.raw(), p.position.y.raw(), p.velocity.x.raw(), p.velocity.y.raw()))
            .collect::<Vec<_>>()
    };
    assert_eq!(run(), run());
}

#[test]
fn the_main_items_are_found_at_the_crate_root() {
    let shape = squish::Shape::new(
        vec![
            (squish::Vec2::from_ints(0, 0), squish::Fixed::from_int(1)),
            (squish::Vec2::from_ints(4, 0), squish::Fixed::from_int(1)),
            (squish::Vec2::from_ints(0, 4), squish::Fixed::from_int(1)),
        ],
        (squish::Fixed::from_int(500), squish::Fixed::from_int(30)),
        (squish::Fixed::from_int(1500), squish::Fixed::zero()),
        false,
        squish::Fixed::one(),
        squish::Config::standard(),
    );
    let inside = squish::Vec2::from_ints(1, 1);
    let hit: Option<squish::Collision> = squish::point_shape_collision(inside, &shape);
    assert!(hit.is_some());
    let mesh = squish::SoftMesh::generate(&shape.outline()).unwrap();
    assert_eq!(mesh.indices, vec![0, 1, 2]);
    let point = squish::PointMass::new(inside, squish::Fixed::one(), false);
    let spring = squish::Spring::new(squish::Fixed::one(), squish::Fixed::zero(), squish::Fixed::zero(), 0, 1);
    assert!(spring.calculate_force(&point, &point).is_zero());
    assert_eq!(squish::cross(inside, squish::Vec2::from_ints(0, 1)).raw(), 1000);
}
