//! Interpolation and the cross product.
use crate::fixed::{clamp, div_trunc, fx_add, fx_div, fx_mul, fx_sub, quot, Fixed, SCALE};
use crate::vector::{
    diff, dist2_exact, dot_diff_exact, dot_exact, norm2, v_add, v_cross, v_scale, v_sub, Point,
    Vec2,
};
use vstd::prelude::*;

verus! {

/// The fraction of the way from `a` to `b` at which `v` lies, `v` being
/// projected on the line through the two: `dot(v - a, b - a) / |b - a|^2`,
/// rounded toward zero, and zero when `a` and `b` coincide.
pub open spec fn projection_fraction(v: Point, a: Point, b: Point) -> int {
    clamp(div_trunc(dot_exact(diff(v, a), diff(b, a)) * SCALE, norm2(diff(b, a))))
}

/// The number a fraction `t` of the way from `a` to `b`.
pub fn lerp_f32(t: Fixed, a: Fixed, b: Fixed) -> (r: Fixed)
    ensures
        r@ == fx_add(fx_mul(t@, fx_sub(b@, a@)), a@),
{
    t.mul(b.sub(a)).add(a)
}

/// The point a fraction `t` of the way from `a` to `b`.
pub fn lerp_vec(t: Fixed, a: Vec2, b: Vec2) -> (r: Vec2)
    ensures
        r@ == v_add(v_scale(v_sub(b@, a@), t@), a@),
{
    b.sub(a).scale(t).add(a)
}

/// The fraction of the way from `a` to `b` at which `v` lies; zero when `a`
/// and `b` coincide.
pub fn inverse_lerp_f32(v: Fixed, a: Fixed, b: Fixed) -> (r: Fixed)
    ensures
        r@ == fx_div(fx_sub(v@, a@), fx_sub(b@, a@)),
{
    v.sub(a).div(b.sub(a))
}

/// The fraction of the way from `a` to `b` at which `v` lies, whatever the
/// direction of the segment: the projection parameter of `v`, which is 0 at
/// `a` and 1 at `b`; zero when `a` and `b` coincide.
pub fn inverse_lerp_vec(v: Vec2, a: Vec2, b: Vec2) -> (r: Fixed)
    ensures
        r@ == projection_fraction(v@, a@, b@),
{
    let along: i128 = dot_diff_exact(a, v, b);
    let len2: u128 = dist2_exact(b, a);
    Fixed::saturate(quot(along * 1000, len2 as i128))
}

/// The two-dimensional cross product `a.x * b.y - a.y * b.x`.
pub fn cross(a: Vec2, b: Vec2) -> (r: Fixed)
    ensures
        r@ == v_cross(a@, b@),
{
    a.cross(b)
}

} // verus!
