use squish::components::PointMass;
use squish::config::Config;
use squish::dynamics::{
    advance_points, apply_drag, apply_frame_springs, apply_springs, best_fit_rotation,
    direction_of, outline_of, place_anchors,
};
use squish::fixed::Fixed;
use squish::geometry::{bounding_box_of, centroid_of};
use squish::shape::{add_springs, Shape};
use squish::vector::Vec2;

fn v(x: i64, y: i64) -> Vec2 {
    Vec2::new(Fixed::from_raw(x), Fixed::from_raw(y))
}

fn raw(a: Vec2) -> (i64, i64) {
    (a.x.raw(), a.y.raw())
}

fn inputs(points: &[(i64, i64)], mass: i64) -> Vec<(Vec2, Fixed)> {
    points.iter().map(|p| (Vec2::from_ints(p.0, p.1), Fixed::from_int(mass))).collect()
}

fn soft(points: &[(i64, i64)], lock_frame: bool, scale: i64, config: Config) -> Shape {
    Shape::new(
        inputs(points, 1),
        (Fixed::from_int(500), Fixed::from_int(30)),
        (Fixed::from_int(1500), Fixed::zero()),
        lock_frame,
        Fixed::from_int(scale),
        config,
    )
}

fn still() -> Config {
    Config::new(Vec2::zero(), Fixed::from_raw(3), Fixed::from_raw(500), Fixed::from_raw(750))
}

fn positions(shape: &Shape) -> Vec<(i64, i64)> {
    shape.points().iter().map(|p| raw(p.position)).collect()
}

fn velocities(shape: &Shape) -> Vec<(i64, i64)> {
    shape.points().iter().map(|p| raw(p.velocity)).collect()
}

fn forces(shape: &Shape) -> Vec<(i64, i64)> {
    shape.points().iter().map(|p| raw(p.net_force)).collect()
}

#[test]
fn the_standard_configuration() {
    let config = Config::standard();
    assert_eq!(raw(config.gravity), (0, 1_000_000));
    assert_eq!(config.drag_coefficient.raw(), 3);
    assert_eq!(config.elasticity.raw(), 500);
    assert_eq!(config.friction.raw(), 750);
}

#[test]
fn the_bounding_box_of_a_new_shape_is_that_of_its_inputs() {
    let shape = soft(&[(0, 0), (4, 0), (6, 3), (2, 6), (-2, 3)], true, 1, Config::standard());
    let (lo, hi) = shape.bounding_box();
    assert_eq!((raw(lo), raw(hi)), ((-2000, 0), (6000, 6000)));
    let negative = soft(&[(-9, -9), (-5, -9), (-5, -6)], false, 1, Config::standard());
    let (lo, hi) = negative.bounding_box();
    assert_eq!((raw(lo), raw(hi)), ((-9000, -9000), (-5000, -6000)));
}

#[test]
fn the_bounding_box_of_a_new_shape_ignores_the_scale() {
    let shape = soft(&[(0, 0), (4, 0), (4, 4), (0, 4)], false, 2, Config::standard());
    let (lo, hi) = shape.bounding_box();
    assert_eq!((raw(lo), raw(hi)), ((0, 0), (4000, 4000)));
    assert_eq!(positions(&shape), vec![(-2000, -2000), (6000, -2000), (6000, 6000), (-2000, 6000)]);
}

#[test]
fn a_new_shape_is_scaled_about_its_centroid() {
    let shape = soft(&[(0, 0), (4, 0), (4, 4), (0, 4)], false, 2, Config::standard());
    assert_eq!(shape.len(), 4);
    assert_eq!(raw(shape.position()), (2000, 2000));
    assert_eq!(raw(shape.rotation()), (1000, 0));
    assert!(!shape.lock_frame());
    assert_eq!(velocities(&shape), vec![(0, 0); 4]);
    assert_eq!(forces(&shape), vec![(0, 0); 4]);
    let anchors: Vec<(i64, i64)> = shape.anchors().iter().map(|p| raw(p.position)).collect();
    assert_eq!(anchors, positions(&shape));
    assert!(shape.anchors().iter().all(|p| p.mass.raw() == 0 && !p.locked));
    assert!(shape.points().iter().all(|p| p.mass.raw() == 1000 && p.diameter.raw() == 1126));
    assert_eq!(shape.outline().iter().map(|p| raw(*p)).collect::<Vec<_>>(), positions(&shape));
}

#[test]
fn the_centroid_is_rounded_toward_zero() {
    let shape = soft(&[(0, 0), (1, 0), (0, 1)], false, 1, Config::standard());
    assert_eq!(raw(shape.position()), (333, 333));
    assert_eq!(positions(&shape), vec![(0, 0), (1000, 0), (0, 1000)]);
    let mirrored = soft(&[(0, 0), (0, -1), (-1, 0)], false, 1, Config::standard());
    assert_eq!(raw(mirrored.position()), (-333, -333));
}

#[test]
fn structural_springs_join_first_and_second_neighbours() {
    let shape = soft(&[(0, 0), (4, 0), (4, 4), (0, 4)], false, 2, Config::standard());
    let springs: Vec<(usize, usize, i64)> =
        shape.springs().iter().map(|s| (s.a, s.b, s.length.raw())).collect();
    assert_eq!(
        springs,
        vec![
            (3, 0, 8000),
            (1, 0, 8000),
            (2, 1, 8000),
            (3, 2, 8000),
            (3, 1, 11_313),
            (2, 0, 11_313),
            (2, 0, 11_313),
            (3, 1, 11_313),
        ]
    );
    assert!(shape.springs().iter().all(|s| s.strength.raw() == 500_000 && s.damping.raw() == 30_000));
    let frame: Vec<(usize, usize, i64, i64, i64)> = shape
        .frame_springs()
        .iter()
        .map(|s| (s.a, s.b, s.length.raw(), s.strength.raw(), s.damping.raw()))
        .collect();
    assert_eq!(
        frame,
        vec![
            (0, 0, 0, 1_500_000, 0),
            (1, 1, 0, 1_500_000, 0),
            (2, 2, 0, 1_500_000, 0),
            (3, 3, 0, 1_500_000, 0),
        ]
    );
}

#[test]
fn a_ring_of_springs_closes_on_itself() {
    let points: Vec<PointMass> = [(0, 0), (4, 0), (6, 3), (2, 6), (-2, 3)]
        .iter()
        .map(|p| PointMass::new(Vec2::from_ints(p.0, p.1), Fixed::from_int(1), false))
        .collect();
    let mut springs = Vec::new();
    add_springs(&mut springs, 1, (Fixed::from_int(800), Fixed::from_int(30)), &points);
    add_springs(&mut springs, 2, (Fixed::from_int(800), Fixed::from_int(30)), &points);
    let ends: Vec<(usize, usize, i64)> = springs.iter().map(|s| (s.a, s.b, s.length.raw())).collect();
    assert_eq!(
        ends,
        vec![
            (4, 0, 3605),
            (1, 0, 4000),
            (2, 1, 3605),
            (3, 2, 5000),
            (4, 3, 5000),
            (4, 1, 6708),
            (3, 0, 6324),
            (2, 0, 6708),
            (3, 1, 6324),
            (4, 2, 8000),
        ]
    );
}

#[test]
fn gravity_reaches_the_velocity_in_the_same_step() {
    let mut shape = soft(&[(0, 0), (4, 0), (4, 4), (0, 4)], false, 2, Config::standard());
    shape.update(Fixed::from_raw(7), None);
    assert_eq!(velocities(&shape), vec![(0, 49); 4]);
    assert_eq!(positions(&shape), vec![(-2000, -2000), (6000, -2000), (6000, 6000), (-2000, 6000)]);
    assert_eq!(forces(&shape), vec![(0, 0); 4]);
    let (lo, hi) = shape.bounding_box();
    assert_eq!((raw(lo), raw(hi)), ((-2000, -2000), (6000, 6000)));
    shape.update(Fixed::from_raw(7), None);
    assert_eq!(velocities(&shape), vec![(0, 98); 4]);
}

#[test]
fn a_drag_target_takes_hold_of_the_last_point() {
    let mut shape = soft(&[(0, 0), (4, 0), (4, 4), (0, 4)], false, 2, Config::standard());
    shape.update(Fixed::from_raw(7), None);
    shape.update(Fixed::from_raw(7), None);
    shape.update(Fixed::from_raw(7), Some(Vec2::from_ints(20, 20)));
    assert_eq!(positions(&shape), vec![(-2000, -1999), (6000, -1999), (6000, 6001), (20_000, 20_000)]);
    assert_eq!(
        velocities(&shape),
        vec![(41_490, 90_491), (4059, 20_654), (73_900, -16_772), (-119_561, -93_957)]
    );
    assert_eq!(
        forces(&shape),
        vec![(57_177, 57_177), (55_368, 87_080), (29_183, 29_183), (-141_728, -173_440)]
    );
    let (lo, hi) = shape.bounding_box();
    assert_eq!((raw(lo), raw(hi)), ((-2000, -1999), (20_000, 20_000)));
    assert_eq!(raw(shape.position()), (7500, 5500));
    assert_eq!(raw(shape.rotation()), (554, -832));
    let anchors: Vec<(i64, i64)> = shape.anchors().iter().map(|p| raw(p.position)).collect();
    assert_eq!(anchors, vec![(1956, 6612), (6388, -44), (13_044, 4388), (8612, 11_044)]);
}

#[test]
fn a_locked_frame_is_neither_dragged_nor_recentred() {
    let mut shape = soft(&[(0, 0), (4, 0), (6, 3), (2, 6), (-2, 3)], true, 1, Config::standard());
    assert!(shape.lock_frame());
    shape.update(Fixed::from_raw(7), Some(Vec2::from_ints(50, 50)));
    assert_eq!(positions(&shape), vec![(0, 0), (4000, 0), (6000, 3000), (2000, 6000), (-2000, 3000)]);
    assert_eq!(velocities(&shape), vec![(0, 49); 5]);
    assert_eq!(raw(shape.position()), (2000, 2400));
    assert_eq!(raw(shape.rotation()), (1000, 0));
    let anchors: Vec<(i64, i64)> = shape.anchors().iter().map(|p| raw(p.position)).collect();
    assert_eq!(anchors, vec![(0, 0), (4000, 0), (6000, 3000), (2000, 6000), (-2000, 3000)]);
}

#[test]
fn spring_forces_wait_for_the_next_step() {
    let mut shape = Shape::new(
        inputs(&[(0, 0), (4, 0), (4, 4), (0, 4)], 1),
        (Fixed::from_int(800), Fixed::from_int(30)),
        (Fixed::from_int(1000), Fixed::from_int(10)),
        false,
        Fixed::one(),
        still(),
    );
    let mut pulled = shape.point(2);
    pulled.position = Vec2::from_ints(5, 5);
    shape.set_point(2, pulled);
    shape.update(Fixed::from_raw(7), None);
    // the structural forces are still in the accumulators; the velocities
    // come from the frame springs alone
    assert_eq!(positions(&shape), vec![(0, 0), (4000, 0), (5000, 5000), (0, 4000)]);
    assert_eq!(
        forces(&shape),
        vec![(11_204, 11_204), (1206, 6031), (-18_441, -18_441), (6031, 1206)]
    );
    assert_eq!(
        velocities(&shape),
        vec![(1746, 1746), (1746, 1746), (-5245, -5245), (1746, 1746)]
    );
    assert_eq!(raw(shape.position()), (2250, 2250));
    shape.update(Fixed::from_raw(7), None);
    assert_eq!(positions(&shape), vec![(12, 12), (4012, 12), (4963, 4963), (12, 4012)]);
    assert_eq!(
        velocities(&shape),
        vec![(3354, 3354), (3287, 3321), (-9991, -9991), (3321, 3287)]
    );
    let (lo, hi) = shape.bounding_box();
    assert_eq!((raw(lo), raw(hi)), ((12, 12), (4963, 4963)));
}

#[test]
fn velocities_can_be_set_and_impulses_applied() {
    let mut shape = Shape::new(
        inputs(&[(0, 0), (4, 0), (4, 4), (0, 4)], 2),
        (Fixed::from_int(800), Fixed::from_int(30)),
        (Fixed::from_int(1000), Fixed::from_int(10)),
        false,
        Fixed::one(),
        Config::standard(),
    );
    shape.set_velocity(v(100, -200));
    assert_eq!(velocities(&shape), vec![(100, -200); 4]);
    shape.apply_impulse(v(3000, 1000));
    assert_eq!(velocities(&shape), vec![(1600, 300); 4]);
    assert_eq!(positions(&shape), vec![(0, 0), (4000, 0), (4000, 4000), (0, 4000)]);
    assert_eq!(raw(shape.config().gravity), (0, 1_000_000));
}

#[test]
fn drag_opposes_motion_and_spares_locked_and_resting_points() {
    let mut points = vec![
        PointMass::new(v(0, 0), Fixed::from_int(1), false),
        PointMass::new(v(0, 0), Fixed::from_int(1), true),
        PointMass::new(v(0, 0), Fixed::from_int(1), false),
    ];
    points[0].velocity = v(30_000, 40_000);
    points[1].velocity = v(30_000, 40_000);
    apply_drag(&mut points, Fixed::from_raw(3), Fixed::from_raw(10));
    assert_eq!(raw(points[0].net_force), (-45, -60));
    assert_eq!(raw(points[1].net_force), (0, 0));
    assert_eq!(raw(points[2].net_force), (0, 0));
    assert_eq!(raw(points[0].velocity), (30_000, 40_000));
}

#[test]
fn the_passes_of_a_step_can_be_run_one_by_one() {
    let mut points = vec![
        PointMass::new(v(0, 0), Fixed::from_int(1), false),
        PointMass::new(v(3000, 4000), Fixed::from_int(1), true),
    ];
    advance_points(&mut points, v(0, 1_000_000), Fixed::from_raw(7));
    assert_eq!(raw(points[0].velocity), (0, 49));
    assert_eq!(raw(points[1].velocity), (0, 0));
    assert_eq!(raw(points[1].net_force), (0, 0));
    let spring = squish::components::Spring::new(
        Fixed::from_int(500),
        Fixed::from_int(2),
        Fixed::zero(),
        0,
        1,
    );
    apply_springs(&mut points, &vec![spring], Fixed::from_raw(500));
    assert_eq!(raw(points[0].net_force), (450_000, 600_000));
    assert_eq!(raw(points[1].net_force), (-450_000, -600_000));
    let anchors = vec![
        PointMass::new(v(0, 1000), Fixed::zero(), false),
        PointMass::new(v(3000, 4000), Fixed::zero(), false),
    ];
    let frame_spring = squish::components::Spring::new(
        Fixed::from_int(100),
        Fixed::zero(),
        Fixed::zero(),
        0,
        0,
    );
    points[0].velocity = v(0, 0);
    apply_frame_springs(&mut points, &anchors, &vec![frame_spring], Fixed::from_raw(10));
    assert_eq!(raw(points[0].velocity), (0, 1000));
    assert_eq!(outline_of(&points).iter().map(|p| raw(*p)).collect::<Vec<_>>(), vec![(0, 0), (3000, 4000)]);
}

#[test]
fn the_best_fit_rotation_recovers_a_quarter_turn() {
    let rest = vec![v(-1000, -1000), v(1000, -1000), v(1000, 1000), v(-1000, 1000)];
    let turned = vec![v(1000, -1000), v(1000, 1000), v(-1000, 1000), v(-1000, -1000)];
    assert_eq!(raw(best_fit_rotation(&turned, v(0, 0), &rest)), (0, 1000));
    assert_eq!(raw(best_fit_rotation(&rest, v(0, 0), &rest)), (1000, 0));
    let moved: Vec<Vec2> = turned.iter().map(|p| p.add(v(7000, -3000))).collect();
    assert_eq!(raw(best_fit_rotation(&moved, v(7000, -3000), &rest)), (0, 1000));
    assert_eq!(raw(best_fit_rotation(&vec![], v(0, 0), &rest)), (1000, 0));
}

#[test]
fn directions_are_reduced_before_they_are_normalized() {
    assert_eq!(raw(direction_of(3, 4)), (600, 800));
    assert_eq!(raw(direction_of(0, 0)), (1000, 0));
    assert_eq!(raw(direction_of(-5, 0)), (-1000, 0));
    let huge: i128 = 1_000_000_000_000_000_000_000_000_000_000;
    assert_eq!(raw(direction_of(3 * huge, -4 * huge)), (599, -800));
}

#[test]
fn anchors_follow_the_frame() {
    let mut anchors = vec![
        PointMass::new(v(0, 0), Fixed::zero(), false),
        PointMass::new(v(0, 0), Fixed::zero(), false),
        PointMass::new(v(9, 9), Fixed::zero(), false),
    ];
    let frame = vec![v(2000, 1000), v(-1000, 0)];
    place_anchors(&mut anchors, &frame, v(0, 1000), v(10_000, 20_000));
    assert_eq!(raw(anchors[0].position), (9000, 22_000));
    assert_eq!(raw(anchors[1].position), (10_000, 19_000));
    assert_eq!(raw(anchors[2].position), (9, 9));
}

#[test]
fn bounding_boxes_and_centroids_of_outlines() {
    let outline = vec![v(3000, -1000), v(-2000, 5000), v(0, 0)];
    let (lo, hi) = bounding_box_of(&outline);
    assert_eq!((raw(lo), raw(hi)), ((-2000, -1000), (3000, 5000)));
    assert_eq!(raw(centroid_of(&outline)), (333, 1333));
    let (lo, hi) = bounding_box_of(&vec![]);
    assert_eq!((raw(lo), raw(hi)), ((0, 0), (0, 0)));
    assert_eq!(raw(centroid_of(&vec![])), (0, 0));
}
