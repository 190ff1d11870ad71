use squish::components::{PointMass, Spring};
use squish::fixed::Fixed;
use squish::vector::Vec2;

fn v(x: i64, y: i64) -> Vec2 {
    Vec2::new(Fixed::from_raw(x), Fixed::from_raw(y))
}

fn raw(a: Vec2) -> (i64, i64) {
    (a.x.raw(), a.y.raw())
}

#[test]
fn a_new_point_is_at_rest() {
    let p = PointMass::new(v(10_000, 20_000), Fixed::from_int(1), true);
    assert!(p.locked);
    assert_eq!(p.mass.raw(), 1000);
    assert_eq!(raw(p.position), (10_000, 20_000));
    assert_eq!(raw(p.velocity), (0, 0));
    assert_eq!(raw(p.net_force), (0, 0));
}

#[test]
fn the_diameter_is_that_of_a_disc_of_the_mass() {
    assert_eq!(PointMass::new(v(0, 0), Fixed::from_int(1), false).diameter.raw(), 1126);
    assert_eq!(PointMass::new(v(0, 0), Fixed::from_int(10), false).diameter.raw(), 3566);
    assert_eq!(PointMass::new(v(0, 0), Fixed::zero(), false).diameter.raw(), 0);
}

#[test]
fn forces_add_up_and_gravity_is_an_acceleration() {
    let mut p = PointMass::new(v(10_000, 20_000), Fixed::from_int(2), false);
    p.apply_force(v(3000, -4000));
    assert_eq!(raw(p.net_force), (3000, -4000));
    p.apply_gravity(v(0, 7000));
    assert_eq!(raw(p.net_force), (3000, 10_000));
    let mut q = PointMass::new(v(10_000, 20_000), Fixed::from_int(2), false);
    q.apply_gravity(v(0, 7000));
    q.apply_force(v(3000, -4000));
    assert_eq!(raw(q.net_force), (3000, 10_000));
}

#[test]
fn integration_moves_by_the_new_velocity_and_clears_the_force() {
    let mut p = PointMass::new(v(10_000, 20_000), Fixed::from_int(2), false);
    p.apply_force(v(3000, 10_000));
    p.update(Fixed::from_raw(7));
    assert_eq!(raw(p.velocity), (10, 35));
    assert_eq!(raw(p.position), (10_000, 20_000));
    assert_eq!(raw(p.net_force), (0, 0));
    p.update(Fixed::from_raw(500));
    assert_eq!(raw(p.velocity), (10, 35));
    assert_eq!(raw(p.position), (10_005, 20_017));
}

#[test]
fn a_locked_point_ignores_every_force_and_time_step() {
    for dt in [0, 1, 7, 1000, 1_000_000_000, -500] {
        for force in [(0, 0), (5000, -3000), (1_000_000_000, 1_000_000_000)] {
            let mut p = PointMass::new(v(10_000, 20_000), Fixed::from_int(2), true);
            p.velocity = v(123, -456);
            p.apply_force(v(force.0, force.1));
            let before = p;
            p.update(Fixed::from_raw(dt));
            assert_eq!(p, before);
            assert_eq!(raw(p.position), (10_000, 20_000));
            assert_eq!(raw(p.velocity), (123, -456));
        }
    }
}

#[test]
fn a_massless_point_takes_up_no_force() {
    let mut p = PointMass::new(v(0, 0), Fixed::zero(), false);
    p.velocity = v(1000, 0);
    p.apply_force(v(5000, 5000));
    p.update(Fixed::from_raw(500));
    assert_eq!(raw(p.velocity), (1000, 0));
    assert_eq!(raw(p.position), (500, 0));
}

#[test]
fn a_spring_pulls_along_its_direction() {
    let mut a = PointMass::new(v(0, 0), Fixed::from_int(1), false);
    let mut b = PointMass::new(v(3000, 4000), Fixed::from_int(1), false);
    a.velocity = v(1000, 0);
    b.velocity = v(0, 2000);
    let s = Spring::new(Fixed::from_int(500), Fixed::from_int(2), Fixed::from_int(30), 0, 1);
    assert_eq!((s.a, s.b), (0, 1));
    assert_eq!(raw(s.calculate_force(&a, &b)), (918_000, 1_224_000));
    assert_eq!(raw(s.calculate_force(&b, &a)), (-918_000, -1_224_000));
}

#[test]
fn a_spring_at_rest_length_without_motion_is_slack() {
    let a = PointMass::new(v(0, 0), Fixed::from_int(1), false);
    let b = PointMass::new(v(3000, 4000), Fixed::from_int(1), false);
    let s = Spring::new(Fixed::from_int(500), Fixed::from_int(5), Fixed::from_int(30), 0, 1);
    assert_eq!(raw(s.calculate_force(&a, &b)), (0, 0));
}

#[test]
fn a_spring_between_coincident_points_exerts_nothing() {
    let mut a = PointMass::new(v(0, 0), Fixed::from_int(1), false);
    let b = PointMass::new(v(0, 0), Fixed::from_int(1), false);
    a.velocity = v(1000, 0);
    let s = Spring::new(Fixed::from_int(500), Fixed::from_int(2), Fixed::from_int(30), 0, 1);
    assert_eq!(raw(s.calculate_force(&a, &b)), (0, 0));
}

#[test]
fn the_shade_of_a_spring_falls_with_its_strain() {
    let s = Spring::new(Fixed::from_int(500), Fixed::from_int(5), Fixed::from_int(30), 0, 1);
    let a = PointMass::new(v(0, 0), Fixed::from_int(1), false);
    let shade = |length: i64| s.stretch_shade(&a, &PointMass::new(v(length, 0), Fixed::from_int(1), false));
    assert_eq!(shade(5000), 255);
    assert_eq!(shade(5001), 254);
    assert_eq!(shade(30_000), 191);
    assert_eq!(shade(55_000), 127);
    assert_eq!(shade(105_000), 0);
    assert_eq!(shade(400_000), 0);
    assert_eq!(shade(0), 242);
}
