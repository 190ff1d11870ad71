use squish::collision::{
    point_shape_collision, resolve_point_line, shape_shape_collision, Collision, EPSILON_RAW,
};
use squish::components::PointMass;
use squish::config::Config;
use squish::fixed::Fixed;
use squish::shape::Shape;
use squish::vector::Vec2;

fn v(x: i64, y: i64) -> Vec2 {
    Vec2::new(Fixed::from_raw(x), Fixed::from_raw(y))
}

fn raw(a: Vec2) -> (i64, i64) {
    (a.x.raw(), a.y.raw())
}

fn polygon(points: &[(i64, i64)], mass: i64, lock_frame: bool) -> Shape {
    Shape::new(
        points.iter().map(|p| (Vec2::from_ints(p.0, p.1), Fixed::from_int(mass))).collect(),
        (Fixed::from_int(800), Fixed::from_int(30)),
        (Fixed::from_int(1000), Fixed::from_int(10)),
        lock_frame,
        Fixed::one(),
        Config::standard(),
    )
}

fn square(mass: i64) -> Shape {
    polygon(&[(0, 0), (10, 0), (10, 10), (0, 10)], mass, true)
}

fn contact(c: Option<Collision>) -> Option<(i64, (i64, i64), i64, (i64, i64), (usize, usize))> {
    c.map(|c| (c.d.raw(), raw(c.normal), c.t.raw(), raw(c.point), c.line))
}

fn energy(points: &[PointMass]) -> i128 {
    points
        .iter()
        .map(|p| {
            let (x, y) = (p.velocity.x.raw() as i128, p.velocity.y.raw() as i128);
            p.mass.raw() as i128 * (x * x + y * y)
        })
        .sum()
}

#[test]
fn the_ray_reaches_one_raw_unit_beyond_the_box() {
    assert_eq!(EPSILON_RAW, 1);
}

#[test]
fn a_point_inside_collides_with_the_nearest_edge() {
    let shape = square(1);
    assert_eq!(
        contact(point_shape_collision(v(5000, 1000), &shape)),
        Some((1000, (0, -1000), 500, (5000, 0), (1, 0)))
    );
    assert_eq!(
        contact(point_shape_collision(v(9000, 5000), &shape)),
        Some((1000, (1000, 0), 500, (10_000, 5000), (2, 1)))
    );
    assert_eq!(
        contact(point_shape_collision(v(1000, 2000), &shape)),
        Some((1000, (-1000, 0), 200, (0, 2000), (0, 3)))
    );
    assert_eq!(
        contact(point_shape_collision(v(5000, 9999), &shape)),
        Some((1, (0, 1000), 500, (5000, 10_000), (3, 2)))
    );
}

#[test]
fn among_equally_near_edges_the_first_wins() {
    let shape = square(1);
    assert_eq!(
        contact(point_shape_collision(v(5000, 5000), &shape)),
        Some((5000, (-1000, 0), 500, (0, 5000), (0, 3)))
    );
    assert_eq!(
        contact(point_shape_collision(v(2500, 2500), &shape)),
        Some((2500, (-1000, 0), 250, (0, 2500), (0, 3)))
    );
}

#[test]
fn a_point_outside_the_bounding_box_does_not_collide() {
    let shape = square(1);
    assert_eq!(contact(point_shape_collision(v(11_000, 5000), &shape)), None);
    assert_eq!(contact(point_shape_collision(v(-1000, 5000), &shape)), None);
    assert_eq!(contact(point_shape_collision(v(5000, 11_000), &shape)), None);
    assert_eq!(contact(point_shape_collision(v(5000, -1), &shape)), None);
    assert_eq!(contact(point_shape_collision(v(10_001, 10_001), &shape)), None);
}

#[test]
fn the_centroid_of_a_convex_polygon_is_inside() {
    let pentagon = polygon(&[(0, 0), (4, 0), (6, 3), (2, 6), (-2, 3)], 1, true);
    assert_eq!(raw(pentagon.position()), (2000, 2400));
    assert_eq!(
        contact(point_shape_collision(pentagon.position(), &pentagon)),
        Some((2400, (0, -1000), 500, (2000, 0), (1, 0)))
    );
    let shape = square(1);
    assert!(point_shape_collision(shape.position(), &shape).is_some());
    let triangle = polygon(&[(0, 0), (9, 0), (0, 12)], 1, true);
    assert_eq!(raw(triangle.position()), (3000, 4000));
    assert!(point_shape_collision(triangle.position(), &triangle).is_some());
}

#[test]
fn a_ray_through_a_vertex_counts_both_of_its_edges() {
    let diamond = polygon(&[(1, 0), (0, 1), (-1, 0), (0, -1)], 1, true);
    assert_eq!(raw(diamond.position()), (0, 0));
    assert_eq!(contact(point_shape_collision(v(0, 0), &diamond)), None);
    assert_eq!(
        contact(point_shape_collision(v(100, 100), &diamond)),
        Some((565, (707, 707), 500, (500, 500), (1, 0)))
    );
}

#[test]
fn points_on_the_boundary_follow_the_parity_of_the_ray() {
    let shape = square(1);
    assert_eq!(
        contact(point_shape_collision(v(10_000, 5000), &shape)),
        Some((0, (1000, 0), 500, (10_000, 5000), (2, 1)))
    );
    assert_eq!(
        contact(point_shape_collision(v(0, 0), &shape)),
        Some((0, (-1000, 0), 0, (0, 0), (0, 3)))
    );
    assert_eq!(contact(point_shape_collision(v(5000, 0), &shape)), None);
    assert_eq!(contact(point_shape_collision(v(5000, 10_000), &shape)), None);
}

#[test]
fn a_concave_outline_excludes_its_notch() {
    let ell = polygon(&[(0, 0), (6, 0), (6, 2), (2, 2), (2, 6), (0, 6)], 1, true);
    assert_eq!(
        contact(point_shape_collision(v(1000, 1000), &ell)),
        Some((1000, (-1000, 0), 166, (0, 1000), (0, 5)))
    );
    assert_eq!(
        contact(point_shape_collision(v(4000, 1000), &ell)),
        Some((1000, (0, -1000), 333, (4000, 0), (1, 0)))
    );
    assert_eq!(
        contact(point_shape_collision(v(1500, 3000), &ell)),
        Some((500, (1000, 0), 750, (2000, 3000), (4, 3)))
    );
    assert_eq!(contact(point_shape_collision(v(4000, 4000), &ell)), None);
    assert_eq!(contact(point_shape_collision(v(3000, 3000), &ell)), None);
}

#[test]
fn resolution_pushes_apart_and_exchanges_an_impulse() {
    let mut shape = square(2);
    let mut point = PointMass::new(v(4000, 1000), Fixed::from_int(1), false);
    point.velocity = v(3000, 5000);
    let collision = point_shape_collision(point.position, &shape).unwrap();
    assert_eq!(
        contact(Some(collision)),
        Some((1000, (0, -1000), 600, (4000, 0), (1, 0)))
    );
    let mut before = vec![point];
    before.extend(shape.points().iter().copied());
    resolve_point_line(&mut point, &mut shape, collision);
    assert_eq!(raw(point.position), (4000, 200));
    assert_eq!(raw(point.velocity), (750, -1468));
    let ends: Vec<((i64, i64), (i64, i64))> =
        shape.points().iter().map(|p| (raw(p.position), raw(p.velocity))).collect();
    assert_eq!(
        ends,
        vec![
            ((0, 240), (0, 1190)),
            ((10_000, 160), (0, 793)),
            ((10_000, 10_000), (0, 0)),
            ((0, 10_000), (0, 0)),
        ]
    );
    let mut after = vec![point];
    after.extend(shape.points().iter().copied());
    assert_eq!(energy(&before), 34_000_000_000);
    assert_eq!(energy(&after), 6_807_422_000);
}

#[test]
fn resolution_with_a_moving_edge_loses_energy() {
    let mut shape = square(2);
    let mut first = shape.point(0);
    first.velocity = v(500, 0);
    shape.set_point(0, first);
    let mut second = shape.point(1);
    second.velocity = v(0, 1000);
    shape.set_point(1, second);
    let mut point = PointMass::new(v(4000, 1000), Fixed::from_int(1), false);
    point.velocity = v(3000, -2000);
    let collision = point_shape_collision(point.position, &shape).unwrap();
    let mut before = vec![point];
    before.extend(shape.points().iter().copied());
    resolve_point_line(&mut point, &mut shape, collision);
    assert_eq!(raw(point.position), (4000, 200));
    assert_eq!(raw(point.velocity), (750, 904));
    assert_eq!(raw(shape.point(0).velocity), (500, -571));
    assert_eq!(raw(shape.point(1).velocity), (0, 119));
    assert_eq!(raw(shape.point(0).position), (0, 240));
    assert_eq!(raw(shape.point(1).position), (10_000, 160));
    let mut after = vec![point];
    after.extend(shape.points().iter().copied());
    assert_eq!(energy(&before), 15_500_000_000);
    assert_eq!(energy(&after), 2_560_120_000);
    assert!(energy(&after) <= energy(&before));
}

#[test]
fn energy_is_not_gained_over_a_grid_of_contacts() {
    let mut x = 2000;
    while x <= 8000 {
        for speed in [(3000, 5000), (-4000, 2500), (0, 9000), (7000, 100), (-100, -6000)] {
            let mut shape = square(2);
            let mut point = PointMass::new(v(x, 1500), Fixed::from_int(1), false);
            point.velocity = v(speed.0, speed.1);
            let collision = point_shape_collision(point.position, &shape).unwrap();
            assert_eq!(collision.line, (1, 0));
            let mut before = vec![point];
            before.extend(shape.points().iter().copied());
            resolve_point_line(&mut point, &mut shape, collision);
            let mut after = vec![point];
            after.extend(shape.points().iter().copied());
            assert!(energy(&after) <= energy(&before));
        }
        x += 500;
    }
}

#[test]
fn a_contact_without_direction_changes_nothing() {
    let mut shape = square(2);
    let mut point = PointMass::new(v(4000, 1000), Fixed::from_int(1), false);
    point.velocity = v(3000, 5000);
    let collision = Collision {
        d: Fixed::one(),
        normal: Vec2::zero(),
        t: Fixed::from_raw(500),
        point: Vec2::zero(),
        line: (0, 0),
    };
    resolve_point_line(&mut point, &mut shape, collision);
    assert_eq!(raw(point.position), (4000, 1000));
    assert_eq!(raw(point.velocity), (3000, 5000));
    assert_eq!(raw(shape.point(0).position), (0, 0));
    assert_eq!(raw(shape.point(0).velocity), (0, 0));
}

#[test]
fn every_point_of_a_shape_is_collided_in_turn() {
    let mut falling = polygon(&[(4, -3), (6, -3), (6, 1), (4, 1)], 1, false);
    falling.set_velocity(v(0, 4000));
    let mut ground = square(2);
    shape_shape_collision(&mut falling, &mut ground);
    let above: Vec<((i64, i64), (i64, i64))> =
        falling.points().iter().map(|p| (raw(p.position), raw(p.velocity))).collect();
    assert_eq!(
        above,
        vec![
            ((4000, -3000), (0, 4000)),
            ((6000, -3000), (0, 4000)),
            ((6000, 200), (0, -1174)),
            ((4004, 356), (11, -570)),
        ]
    );
    let below: Vec<((i64, i64), (i64, i64))> =
        ground.points().iter().map(|p| (raw(p.position), raw(p.velocity))).collect();
    assert_eq!(
        below,
        vec![
            ((-1, 351), (-3, 1086)),
            ((10_000, 368), (0, 991)),
            ((10_000, 10_000), (0, 0)),
            ((0, 10_000), (0, 0)),
        ]
    );
}

#[test]
fn shapes_that_do_not_touch_are_left_alone() {
    let mut left = polygon(&[(0, 0), (4, 0), (4, 4), (0, 4)], 1, false);
    let mut right = polygon(&[(10, 0), (14, 0), (14, 4), (10, 4)], 1, true);
    left.set_velocity(v(100, 0));
    shape_shape_collision(&mut left, &mut right);
    let points: Vec<((i64, i64), (i64, i64))> =
        left.points().iter().map(|p| (raw(p.position), raw(p.velocity))).collect();
    assert_eq!(
        points,
        vec![
            ((0, 0), (100, 0)),
            ((4000, 0), (100, 0)),
            ((4000, 4000), (100, 0)),
            ((0, 4000), (100, 0)),
        ]
    );
    assert!(right.points().iter().all(|p| p.velocity.is_zero()));
}

fn unit_square(elasticity: i64, friction: i64, first: i64, second: i64) -> Shape {
    Shape::new(
        vec![
            (Vec2::from_ints(0, 0), Fixed::from_int(first)),
            (Vec2::from_ints(10, 0), Fixed::from_int(second)),
            (Vec2::from_ints(10, 10), Fixed::from_int(second)),
            (Vec2::from_ints(0, 10), Fixed::from_int(first)),
        ],
        (Fixed::zero(), Fixed::zero()),
        (Fixed::zero(), Fixed::zero()),
        true,
        Fixed::one(),
        Config::new(
            Vec2::from_ints(0, 1000),
            Fixed::from_raw(3),
            Fixed::from_raw(elasticity),
            Fixed::from_raw(friction),
        ),
    )
}

#[test]
fn an_exact_elastic_exchange_keeps_the_energy() {
    let mut shape = unit_square(1000, 0, 1, 1);
    let mut point = PointMass::new(v(5000, 1000), Fixed::from_int(1), false);
    point.velocity = v(3000, 6000);
    let collision = point_shape_collision(point.position, &shape).unwrap();
    assert_eq!(contact(Some(collision)), Some((1000, (0, -1000), 500, (5000, 0), (1, 0))));
    let mut before = vec![point];
    before.extend(shape.points().iter().copied());
    resolve_point_line(&mut point, &mut shape, collision);
    assert_eq!(raw(point.position), (5000, 333));
    assert_eq!(raw(point.velocity), (3000, -2000));
    assert_eq!(raw(shape.point(0).velocity), (0, 4000));
    assert_eq!(raw(shape.point(1).velocity), (0, 4000));
    assert_eq!(raw(shape.point(0).position), (0, 332));
    assert_eq!(raw(shape.point(1).position), (10_000, 332));
    let mut after = vec![point];
    after.extend(shape.points().iter().copied());
    assert_eq!(energy(&before), 45_000_000_000);
    assert_eq!(energy(&after), 45_000_000_000);
}

#[test]
fn elasticity_and_friction_take_energy_from_an_exact_exchange() {
    let mut shape = unit_square(500, 750, 1, 1);
    let mut point = PointMass::new(v(5000, 1000), Fixed::from_int(1), false);
    point.velocity = v(3000, 6000);
    let collision = point_shape_collision(point.position, &shape).unwrap();
    resolve_point_line(&mut point, &mut shape, collision);
    assert_eq!(raw(point.velocity), (750, -1000));
    assert_eq!(raw(shape.point(0).velocity), (0, 2000));
    assert_eq!(raw(shape.point(1).velocity), (0, 2000));
    let mut after = vec![point];
    after.extend(shape.points().iter().copied());
    assert_eq!(energy(&after), 9_562_500_000);
}

#[test]
fn rounding_takes_energy_from_an_exchange_and_never_adds_any() {
    let mut shape = unit_square(999, 0, 1, 3);
    let mut first = shape.point(0);
    first.velocity = v(0, -100);
    shape.set_point(0, first);
    let mut second = shape.point(1);
    second.velocity = v(0, 1200);
    shape.set_point(1, second);
    let mut point = PointMass::new(v(6000, 500), Fixed::from_int(1), false);
    point.velocity = v(0, -500);
    let collision = point_shape_collision(point.position, &shape).unwrap();
    assert_eq!(contact(Some(collision)), Some((500, (0, -1000), 400, (6000, 0), (1, 0))));
    let mut before = vec![point];
    before.extend(shape.points().iter().copied());
    resolve_point_line(&mut point, &mut shape, collision);
    // before rounding the speeds along the normal are 1342.406, -836.662
    // and 830.418: each is rounded toward zero
    assert_eq!(raw(point.velocity), (0, 1342));
    assert_eq!(raw(shape.point(0).velocity), (0, -836));
    assert_eq!(raw(shape.point(1).velocity), (0, 830));
    assert_eq!(raw(point.position), (6000, 100));
    assert_eq!(raw(shape.point(0).position), (0, 80));
    assert_eq!(raw(shape.point(1).position), (10_000, 120));
    let mut after = vec![point];
    after.extend(shape.points().iter().copied());
    assert_eq!(energy(&before), 4_580_000_000);
    assert_eq!(energy(&after), 4_566_560_000);
}

#[test]
fn no_resolution_gains_energy() {
    let mut seed: u64 = 12345;
    let mut next = |span: i64| {
        seed = seed.wrapping_mul(6364136223846793005).wrapping_add(1442695040888963407);
        ((seed >> 33) as i64) % span
    };
    let mut resolved = 0;
    for _ in 0..20_000 {
        let elasticity = [0, 100, 500, 900, 990, 999][next(6) as usize];
        let friction = [0, 250, 750, 1000][next(4) as usize];
        let masses = [1, 2, 3, 10, 50];
        let mut shape = unit_square(
            elasticity,
            friction,
            masses[next(5) as usize],
            masses[next(5) as usize],
        );
        let speed = [5, 50, 5000, 500_000][next(4) as usize];
        for i in 0..2 {
            let mut end = shape.point(i);
            end.velocity = v(next(2 * speed + 1) - speed, next(2 * speed + 1) - speed);
            shape.set_point(i, end);
        }
        let mut point = PointMass::new(
            v(1 + next(9999), 1 + next(9999)),
            Fixed::from_int(masses[next(5) as usize]),
            false,
        );
        point.velocity = v(next(2 * speed + 1) - speed, next(2 * speed + 1) - speed);
        if let Some(collision) = point_shape_collision(point.position, &shape) {
            let mut before = vec![point];
            before.extend(shape.points().iter().copied());
            resolve_point_line(&mut point, &mut shape, collision);
            let mut after = vec![point];
            after.extend(shape.points().iter().copied());
            assert!(energy(&after) <= energy(&before));
            resolved += 1;
        }
    }
    assert!(resolved > 10_000);
}

#[test]
fn colliding_shapes_gain_no_energy() {
    let mut falling = polygon(&[(4, -3), (6, -3), (6, 1), (4, 1)], 1, false);
    falling.set_velocity(v(700, 4000));
    let mut ground = square(2);
    let before: i128 =
        falling.points().iter().chain(ground.points().iter()).map(|p| p.energy()).sum();
    shape_shape_collision(&mut falling, &mut ground);
    let after: i128 =
        falling.points().iter().chain(ground.points().iter()).map(|p| p.energy()).sum();
    assert_eq!(before, 4 * 1000 * (700 * 700 + 4000 * 4000));
    assert!(after <= before);
    assert!(after > 0);
}

#[test]
fn the_centroid_of_a_clockwise_convex_polygon_is_inside_too() {
    let pentagon = polygon(&[(-2, 3), (2, 6), (6, 3), (4, 0), (0, 0)], 1, true);
    assert_eq!(raw(pentagon.position()), (2000, 2400));
    assert!(point_shape_collision(pentagon.position(), &pentagon).is_some());
    let turned = polygon(&[(0, 0), (0, 10), (10, 10), (10, 0)], 1, true);
    assert_eq!(raw(turned.position()), (5000, 5000));
    assert!(point_shape_collision(turned.position(), &turned).is_some());
    let triangle = polygon(&[(0, 0), (0, 12), (9, 0)], 1, true);
    assert_eq!(raw(triangle.position()), (3000, 4000));
    assert!(point_shape_collision(triangle.position(), &triangle).is_some());
    // the same points collide whichever way the boundary runs
    let forward = square(1);
    let mut x = -500;
    while x <= 10_500 {
        let mut y = -500;
        while y <= 10_500 {
            assert_eq!(
                point_shape_collision(v(x, y), &forward).is_some(),
                point_shape_collision(v(x, y), &turned).is_some()
            );
            y += 500;
        }
        x += 500;
    }
}

#[test]
fn the_normal_of_a_contact_is_a_unit_vector_up_to_rounding() {
    let shapes = [
        polygon(&[(0, 0), (4, 0), (6, 3), (2, 6), (-2, 3)], 1, true),
        polygon(&[(0, 0), (9, 0), (0, 12)], 1, true),
        polygon(&[(3, 1), (17, 4), (11, 19), (-5, 9)], 1, true),
    ];
    for shape in shapes.iter() {
        let hit = point_shape_collision(shape.position(), shape).unwrap();
        let (nx, ny) = (hit.normal.x.raw() as i128, hit.normal.y.raw() as i128);
        assert!(nx * nx + ny * ny <= 1_000_000);
        assert!(nx * nx + ny * ny > 997 * 997);
    }
}

#[test]
fn the_normal_points_out_of_a_shape_whichever_way_its_boundary_runs() {
    let forward = square(1);
    let turned = polygon(&[(0, 0), (0, 10), (10, 10), (10, 0)], 1, true);
    let cases = [
        ((5000, 1000), (0, -1000)),
        ((9000, 5000), (1000, 0)),
        ((5000, 9000), (0, 1000)),
        ((1000, 5000), (-1000, 0)),
    ];
    for (p, normal) in cases {
        for shape in [&forward, &turned] {
            let c = point_shape_collision(v(p.0, p.1), shape).unwrap();
            assert_eq!(raw(c.normal), normal);
            assert_eq!(c.d.raw(), 1000);
        }
    }
    // a point inside a clockwise shape is pushed out through the nearest edge
    let mut walls = polygon(&[(0, 0), (0, 10), (10, 10), (10, 0)], 1, true);
    let mut point = PointMass::new(v(5000, 1000), Fixed::one(), false);
    let c = point_shape_collision(point.position, &walls).unwrap();
    resolve_point_line(&mut point, &mut walls, c);
    assert!(point.position.y.raw() < 1000);
    assert!(walls.points()[c.line.0].position.y.raw() > 0);
}

fn raw_polygon(points: &[(i64, i64)]) -> Shape {
    Shape::new(
        points.iter().map(|p| (v(p.0, p.1), Fixed::one())).collect(),
        (Fixed::zero(), Fixed::zero()),
        (Fixed::zero(), Fixed::zero()),
        true,
        Fixed::one(),
        Config::standard(),
    )
}

#[test]
fn the_normal_of_the_shortest_edge_is_a_unit_vector_too() {
    // a square with one corner cut off by a thousandth
    let shape = raw_polygon(&[(1, 0), (4000, 0), (4000, 4000), (0, 4000), (0, 1)]);
    assert_eq!(
        contact(point_shape_collision(v(1, 1), &shape)),
        Some((0, (-706, -706), 500, (1, 0), (0, 4)))
    );
    let mut x = 1;
    while x <= 3999 {
        let mut y = 1;
        while y <= 3999 {
            if let Some(c) = point_shape_collision(v(x, y), &shape) {
                let (nx, ny) = (c.normal.x.raw() as i128, c.normal.y.raw() as i128);
                assert!(nx * nx + ny * ny <= 1_000_000);
                assert!(nx * nx + ny * ny > 997 * 997);
            }
            y += 257;
        }
        x += 257;
    }
}

#[test]
fn friction_takes_its_fraction_of_the_speed_along_the_edge() {
    let cases = [
        (1000, 250, (4000, 0), (3000, 0), (0, 0)),
        (1000, 250, (4000, 2000), (3000, -666), (0, 1333)),
        (500, 750, (-3000, -1000), (-750, 166), (0, -333)),
        (0, 1000, (777, 333), (0, 0), (0, 0)),
        (1000, 0, (123, -456), (123, 152), (0, -304)),
    ];
    for (elasticity, friction, before, after, ends) in cases {
        let mut shape = unit_square(elasticity, friction, 1, 1);
        let mut point = PointMass::new(v(5000, 1000), Fixed::one(), false);
        point.velocity = v(before.0, before.1);
        let collision = point_shape_collision(point.position, &shape).unwrap();
        assert_eq!(raw(collision.normal), (0, -1000));
        resolve_point_line(&mut point, &mut shape, collision);
        assert_eq!(raw(point.velocity), after);
        assert_eq!(raw(shape.point(0).velocity), ends);
        assert_eq!(raw(shape.point(1).velocity), ends);
    }
}

#[test]
fn friction_acts_along_a_slanted_edge() {
    let mut shape = Shape::new(
        vec![
            (Vec2::from_ints(0, 0), Fixed::one()),
            (Vec2::from_ints(4, 3), Fixed::one()),
            (Vec2::from_ints(-2, 11), Fixed::one()),
            (Vec2::from_ints(-6, 8), Fixed::one()),
        ],
        (Fixed::zero(), Fixed::zero()),
        (Fixed::zero(), Fixed::zero()),
        true,
        Fixed::one(),
        Config::new(Vec2::zero(), Fixed::from_raw(3), Fixed::one(), Fixed::from_raw(500)),
    );
    // the point slides along the edge: nothing is exchanged along the
    // normal, and friction takes half of the speed
    let mut point = PointMass::new(v(2000, 2000), Fixed::one(), false);
    point.velocity = v(800, 600);
    let collision = point_shape_collision(point.position, &shape).unwrap();
    assert_eq!(contact(Some(collision)), Some((400, (600, -800), 440, (2240, 1680), (1, 0))));
    resolve_point_line(&mut point, &mut shape, collision);
    assert_eq!(raw(point.velocity), (400, 300));
    assert_eq!(raw(point.position), (2160, 1787));
    assert!(shape.points().iter().all(|p| p.velocity.is_zero()));
}

#[test]
fn a_contact_that_is_not_proper_changes_nothing() {
    let mut shape = unit_square(500, 750, 1, 1);
    let mut point = PointMass::new(v(5000, 1000), Fixed::one(), false);
    point.velocity = v(300, 900);
    let collision = point_shape_collision(point.position, &shape).unwrap();
    let still: Vec<PointMass> = shape.points().iter().copied().collect();
    // a normal longer than one
    let long = Collision { normal: v(0, -2000), ..collision };
    resolve_point_line(&mut point, &mut shape, long);
    // a place beyond the end of the edge
    let beyond = Collision { t: Fixed::from_raw(1001), ..collision };
    resolve_point_line(&mut point, &mut shape, beyond);
    // a normal without length
    let flat = Collision { normal: v(0, 0), ..collision };
    resolve_point_line(&mut point, &mut shape, flat);
    assert_eq!((raw(point.position), raw(point.velocity)), ((5000, 1000), (300, 900)));
    // a point without mass
    let mut light = PointMass::new(v(5000, 1000), Fixed::zero(), false);
    light.velocity = v(300, 900);
    resolve_point_line(&mut light, &mut shape, collision);
    assert_eq!((raw(light.position), raw(light.velocity)), ((5000, 1000), (300, 900)));
    assert_eq!(shape.points(), &still);
    // the contact as it was found is proper
    resolve_point_line(&mut point, &mut shape, collision);
    assert_eq!((raw(point.position), raw(point.velocity)), ((5000, 333), (75, -150)));
}
