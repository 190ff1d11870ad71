use squish::fixed::Fixed;
use squish::math::{cross, inverse_lerp_f32, inverse_lerp_vec, lerp_f32, lerp_vec};
use squish::vector::{dist2_exact, dot_diff_exact, orient_exact, Vec2};

fn v(x: i64, y: i64) -> Vec2 {
    Vec2::new(Fixed::from_raw(x), Fixed::from_raw(y))
}

fn raw(a: Vec2) -> (i64, i64) {
    (a.x.raw(), a.y.raw())
}

#[test]
fn componentwise_operations() {
    let a = v(1500, -2500);
    let b = v(333, 777);
    assert_eq!(raw(a.add(b)), (1833, -1723));
    assert_eq!(raw(a.sub(b)), (1167, -3277));
    assert_eq!(raw(a.neg()), (-1500, 2500));
    assert_eq!(raw(a.scale(Fixed::from_raw(500))), (750, -1250));
    assert_eq!(raw(a.div(Fixed::from_raw(500))), (3000, -5000));
    assert_eq!(raw(a.div(Fixed::zero())), (0, 0));
    assert_eq!(raw(a.min(b)), (333, -2500));
    assert_eq!(raw(a.max(b)), (1500, 777));
    assert_eq!(raw(a.perp()), (2500, 1500));
    assert_eq!(raw(Vec2::zero()), (0, 0));
    assert_eq!(raw(Vec2::from_ints(3, -4)), (3000, -4000));
    assert!(Vec2::zero().is_zero());
    assert!(!v(0, 1).is_zero());
}

#[test]
fn dot_and_cross_rescale_once() {
    let a = v(1500, -2500);
    let b = v(333, 777);
    assert_eq!(a.dot(b).raw(), -1443);
    assert_eq!(a.cross(b).raw(), 1998);
    assert_eq!(cross(a, b).raw(), 1998);
    assert_eq!(b.cross(a).raw(), -1998);
    assert_eq!(a.norm2_exact(), 8_500_000);
}

#[test]
fn lengths_round_down() {
    assert_eq!(v(3000, 4000).length().raw(), 5000);
    assert_eq!(v(1, 1).length().raw(), 1);
    assert_eq!(v(2, 2).length().raw(), 2);
    assert_eq!(v(0, 0).length().raw(), 0);
    assert_eq!(v(0, 0).distance(v(3000, -4000)).raw(), 5000);
    assert_eq!(
        v(-1_000_000_000, -1_000_000_000).distance(v(1_000_000_000, 1_000_000_000)).raw(),
        1_000_000_000
    );
    assert_eq!(dist2_exact(v(-1_000_000_000, 0), v(1_000_000_000, 0)), 4_000_000_000_000_000_000);
}

#[test]
fn normalizing_divides_by_the_rounded_length() {
    assert_eq!(raw(v(3000, 4000).normalize()), (600, 800));
    assert_eq!(raw(v(-7, 24).normalize()), (-280, 960));
    assert_eq!(raw(v(1, 1).normalize()), (706, 706));
    assert_eq!(raw(v(1, 0).normalize()), (1000, 0));
    assert_eq!(raw(v(3, 3).normalize()), (707, 707));
    assert_eq!(raw(v(0, 0).normalize()), (0, 0));
    assert_eq!(raw(v(0, -5).normalize()), (0, -1000));
}

#[test]
fn rotation_takes_a_cosine_and_a_sine() {
    let quarter = v(0, 1000);
    assert_eq!(raw(v(2000, 1000).rotate(quarter)), (-1000, 2000));
    assert_eq!(raw(v(2000, 1000).rotate(v(600, 800))), (400, 2200));
    assert_eq!(raw(v(2000, 1000).rotate(v(1000, 0))), (2000, 1000));
}

#[test]
fn exact_products_of_differences() {
    let a = v(1, 1);
    let b = v(4, 1);
    let c = v(1, 5);
    assert_eq!(orient_exact(a, b, c), 12);
    assert_eq!(orient_exact(a, c, b), -12);
    assert_eq!(orient_exact(b, c, a), 12);
    assert_eq!(orient_exact(a, b, v(7, 1)), 0);
    assert_eq!(dot_diff_exact(a, b, c), 0);
    assert_eq!(dot_diff_exact(a, b, v(3, 9)), 6);
    let far = 1_000_000_000;
    assert_eq!(
        orient_exact(v(-far, -far), v(far, -far), v(far, far)),
        4_000_000_000_000_000_000
    );
}

#[test]
fn interpolation() {
    let quarter = Fixed::from_raw(250);
    assert_eq!(lerp_f32(quarter, Fixed::from_int(1), Fixed::from_int(9)).raw(), 3000);
    assert_eq!(lerp_f32(Fixed::zero(), Fixed::from_int(1), Fixed::from_int(9)).raw(), 1000);
    assert_eq!(lerp_f32(Fixed::one(), Fixed::from_int(1), Fixed::from_int(9)).raw(), 9000);
    assert_eq!(raw(lerp_vec(quarter, v(1000, 8000), v(9000, 0))), (3000, 6000));
    assert_eq!(
        inverse_lerp_f32(Fixed::from_int(3), Fixed::from_int(1), Fixed::from_int(9)).raw(),
        250
    );
    assert_eq!(
        inverse_lerp_f32(Fixed::from_int(3), Fixed::from_int(1), Fixed::from_int(1)).raw(),
        0
    );
    assert_eq!(inverse_lerp_vec(v(3000, 5), v(1000, 5), v(9000, 5)).raw(), 250);
    assert_eq!(inverse_lerp_vec(v(3000, 77), v(1000, 5), v(9000, -5)).raw(), 249);
    assert_eq!(inverse_lerp_vec(v(1000, 9), v(1000, 5), v(1000, 5)).raw(), 0);
}

#[test]
fn the_inverse_of_interpolation_goes_by_the_whole_segment() {
    // the midpoint of a vertical segment
    assert_eq!(inverse_lerp_vec(v(0, 1000), v(0, 0), v(0, 2000)).raw(), 500);
    // a point beside the segment counts by its projection
    assert_eq!(inverse_lerp_vec(v(700, 1500), v(0, 0), v(0, 2000)).raw(), 750);
    // before the first end and beyond the second
    assert_eq!(inverse_lerp_vec(v(0, -1000), v(0, 0), v(0, 2000)).raw(), -500);
    assert_eq!(inverse_lerp_vec(v(0, 5000), v(0, 0), v(0, 2000)).raw(), 2500);
    // interpolation and its inverse agree along a slanted segment
    let (a, b) = (v(1000, -2000), v(7000, 6000));
    for t in [0, 250, 500, 750, 1000] {
        let at = lerp_vec(Fixed::from_raw(t), a, b);
        assert_eq!(inverse_lerp_vec(at, a, b).raw(), t);
    }
}

#[test]
fn a_direction_is_never_longer_than_one() {
    let mut x = -40;
    while x <= 40 {
        let mut y = -40;
        while y <= 40 {
            for scale in [1, 7, 1000, 12_345_678] {
                let d = v(x * scale, y * scale).normalize();
                let (dx, dy) = (d.x.raw() as i128, d.y.raw() as i128);
                assert!(dx * dx + dy * dy <= 1_000_000);
                if x != 0 || y != 0 {
                    assert!(dx * dx + dy * dy > 997 * 997);
                    assert!(dx.signum() == (x as i128).signum() || dx == 0);
                    assert!(dy.signum() == (y as i128).signum() || dy == 0);
                }
            }
            y += 3;
        }
        x += 3;
    }
}

#[test]
fn the_direction_of_a_vector_of_a_unit_or_more_is_nearly_one_long() {
    let mut x = -40;
    while x <= 40 {
        let mut y = -40;
        while y <= 40 {
            for scale in [100, 1000, 12_345_678] {
                let a = v(x * scale, y * scale);
                if a.length().raw() >= 1000 {
                    let d = a.normalize();
                    let (dx, dy) = (d.x.raw() as i128, d.y.raw() as i128);
                    assert!(dx * dx + dy * dy > 997 * 997);
                }
            }
            y += 3;
        }
        x += 3;
    }
}
