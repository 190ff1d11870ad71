//! Two-dimensional vectors over [`Fixed`] and the integer model their
//! contracts are stated in.
use crate::fixed::{
    clamp, div_trunc, fx_add, fx_div, fx_mul, fx_sub, isqrt, isqrt_ceil, lemma_div_trunc_bounds,
    lemma_div_trunc_neg, lemma_sqrt_ceil, magnitude, quot, sqrt_ceil, sqrt_floor, Fixed, SCALE,
};
use vstd::prelude::*;

verus! {

/// A point of the integer plane: the mathematical model of a [`Vec2`], with
/// coordinates counted in thousandths.
pub struct Point {
    pub x: int,
    pub y: int,
}

/// The exact difference `a - b`.
pub open spec fn diff(a: Point, b: Point) -> Point {
    Point { x: a.x - b.x, y: a.y - b.y }
}

/// The exact dot product, in squared raw units.
pub open spec fn dot_exact(a: Point, b: Point) -> int {
    a.x * b.x + a.y * b.y
}

/// The exact two-dimensional cross product, in squared raw units.
pub open spec fn cross_exact(a: Point, b: Point) -> int {
    a.x * b.y - a.y * b.x
}

/// The exact squared length, in squared raw units.
pub open spec fn norm2(a: Point) -> int {
    a.x * a.x + a.y * a.y
}

/// Twice the signed area of the triangle `a`, `b`, `c`: positive when the
/// three points turn counter-clockwise in a frame whose y axis points up.
pub open spec fn orient(a: Point, b: Point, c: Point) -> int {
    cross_exact(diff(b, a), diff(c, a))
}

/// Component-wise saturating sum.
pub open spec fn v_add(a: Point, b: Point) -> Point {
    Point { x: fx_add(a.x, b.x), y: fx_add(a.y, b.y) }
}

/// Component-wise saturating difference.
pub open spec fn v_sub(a: Point, b: Point) -> Point {
    Point { x: fx_sub(a.x, b.x), y: fx_sub(a.y, b.y) }
}

/// The opposite vector.
pub open spec fn v_neg(a: Point) -> Point {
    Point { x: -a.x, y: -a.y }
}

/// The vector scaled by the fixed-point factor `s`.
pub open spec fn v_scale(a: Point, s: int) -> Point {
    Point { x: fx_mul(a.x, s), y: fx_mul(a.y, s) }
}

/// The vector divided by the fixed-point divisor `s`; zero when `s` is zero.
pub open spec fn v_div(a: Point, s: int) -> Point {
    Point { x: fx_div(a.x, s), y: fx_div(a.y, s) }
}

/// The fixed-point dot product: the exact product sum, rescaled once.
pub open spec fn v_dot(a: Point, b: Point) -> int {
    clamp(div_trunc(dot_exact(a, b), SCALE as int))
}

/// The fixed-point cross product: the exact cross product, rescaled once.
pub open spec fn v_cross(a: Point, b: Point) -> int {
    clamp(div_trunc(cross_exact(a, b), SCALE as int))
}

/// The length, rounded down and saturated.
pub open spec fn v_length(a: Point) -> int {
    clamp(sqrt_floor(norm2(a)))
}

/// The distance between two points, rounded down and saturated.
pub open spec fn v_distance(a: Point, b: Point) -> int {
    clamp(sqrt_floor(norm2(diff(a, b))))
}

/// Each component of `a` over the length of `a` rounded up to a whole raw
/// unit, so that the result is never longer than one. Zero for the zero
/// vector.
pub open spec fn length_ratio(a: Point) -> Point {
    let len = sqrt_ceil(norm2(a));
    if len == 0 {
        Point { x: 0, y: 0 }
    } else {
        Point { x: div_trunc(a.x * SCALE, len), y: div_trunc(a.y * SCALE, len) }
    }
}

/// The product of two differences, multiplied out.
pub proof fn lemma_product_of_differences(a: int, b: int, c: int, d: int)
    ensures
        (a - b) * (c - d) == a * c - a * d - b * c + b * d,
{
    assert((a - b) * (c - d) == a * c - a * d - b * c + b * d) by (nonlinear_arith);
}

/// The orientation of three points, multiplied out.
pub proof fn lemma_orient_expanded(a: Point, b: Point, c: Point)
    ensures
        orient(a, b, c) == (b.x * c.y - b.x * a.y - a.x * c.y) - (b.y * c.x - b.y * a.x - a.y
            * c.x),
{
    lemma_product_of_differences(b.x, a.x, c.y, a.y);
    lemma_product_of_differences(b.y, a.y, c.x, a.x);
    assert(a.x * a.y == a.y * a.x) by (nonlinear_arith);
}

/// The ratio of a vector to its length is never longer than one, and neither
/// of its components exceeds one.
proof fn lemma_ratio_bounded(a: Point)
    ensures
        norm2(length_ratio(a)) <= SCALE * SCALE,
        -SCALE <= length_ratio(a).x <= SCALE,
        -SCALE <= length_ratio(a).y <= SCALE,
{
    let s = SCALE as int;
    let total = norm2(a);
    assert(total >= 0) by (nonlinear_arith)
        requires
            total == a.x * a.x + a.y * a.y,
    ;
    lemma_sqrt_ceil(total);
    let len = sqrt_ceil(total);
    if len > 0 {
        let (qx, qy) = (div_trunc(a.x * s, len), div_trunc(a.y * s, len));
        lemma_div_trunc_bounds(a.x * s, len);
        lemma_div_trunc_bounds(a.y * s, len);
        let (mx, my) = (magnitude(qx), magnitude(qy));
        let (sx, sy) = (magnitude(a.x), magnitude(a.y));
        assert(magnitude(a.x * s) == sx * s && magnitude(a.y * s) == sy * s) by (nonlinear_arith)
            requires
                s > 0,
                sx == if a.x < 0 {
                    -a.x
                } else {
                    a.x
                },
                sy == if a.y < 0 {
                    -a.y
                } else {
                    a.y
                },
                magnitude(a.x * s) == if a.x * s < 0 {
                    -(a.x * s)
                } else {
                    a.x * s
                },
                magnitude(a.y * s) == if a.y * s < 0 {
                    -(a.y * s)
                } else {
                    a.y * s
                },
        ;
        let (px, py) = (mx * len, my * len);
        assert(px * px <= (sx * sx) * (s * s) && py * py <= (sy * sy) * (s * s))
            by (nonlinear_arith)
            requires
                0 <= px <= sx * s,
                0 <= py <= sy * s,
                px == mx * len,
                py == my * len,
                mx >= 0,
                my >= 0,
                len > 0,
        ;
        assert(sx * sx == a.x * a.x && sy * sy == a.y * a.y && mx * mx == qx * qx && my * my
            == qy * qy) by (nonlinear_arith)
            requires
                sx == if a.x < 0 {
                    -a.x
                } else {
                    a.x
                },
                sy == if a.y < 0 {
                    -a.y
                } else {
                    a.y
                },
                mx == if qx < 0 {
                    -qx
                } else {
                    qx
                },
                my == if qy < 0 {
                    -qy
                } else {
                    qy
                },
        ;
        let size = qx * qx + qy * qy;
        let ll = len * len;
        assert(size * ll == px * px + py * py) by (nonlinear_arith)
            requires
                size == mx * mx + my * my,
                ll == len * len,
                px == mx * len,
                py == my * len,
        ;
        assert(size * ll <= (s * s) * ll) by (nonlinear_arith)
            requires
                size * ll == px * px + py * py,
                px * px <= (a.x * a.x) * (s * s),
                py * py <= (a.y * a.y) * (s * s),
                total == a.x * a.x + a.y * a.y,
                total <= ll,
                s > 0,
        ;
        assert(size <= s * s) by (nonlinear_arith)
            requires
                size * ll <= (s * s) * ll,
                ll == len * len,
                len > 0,
        ;
        assert(mx <= s && my <= s) by (nonlinear_arith)
            requires
                mx * mx + my * my <= s * s,
                mx >= 0,
                my >= 0,
                s > 0,
        ;
    }
}

/// The ratio of a vector at least one unit long to its length is longer than
/// 0.997.
proof fn lemma_ratio_nearly_unit(a: Point)
    requires
        norm2(a) > 0,
    ensures
        sqrt_ceil(norm2(a)) >= SCALE ==> norm2(length_ratio(a)) > (SCALE - 3) * (SCALE - 3),
{
    let s = SCALE as int;
    let total = norm2(a);
    lemma_sqrt_ceil(total);
    lemma_ratio_bounded(a);
    let len = sqrt_ceil(total);
    let n = length_ratio(a);
    let (qx, qy) = (magnitude(n.x), magnitude(n.y));
    let (sx, sy) = (magnitude(a.x), magnitude(a.y));
    lemma_div_trunc_bounds(a.x * s, len);
    lemma_div_trunc_bounds(a.y * s, len);
    assert(magnitude(a.x * s) == sx * s && magnitude(a.y * s) == sy * s) by (nonlinear_arith)
        requires
            s > 0,
            sx == if a.x < 0 {
                -a.x
            } else {
                a.x
            },
            sy == if a.y < 0 {
                -a.y
            } else {
                a.y
            },
            magnitude(a.x * s) == if a.x * s < 0 {
                -(a.x * s)
            } else {
                a.x * s
            },
            magnitude(a.y * s) == if a.y * s < 0 {
                -(a.y * s)
            } else {
                a.y * s
            },
    ;
    let (ux, uy) = ((qx + 1) * len, (qy + 1) * len);
    let (tx, ty) = (sx * s, sy * s);
    assert(ux * ux > tx * tx && uy * uy > ty * ty) by (nonlinear_arith)
        requires
            ux > tx,
            uy > ty,
            tx >= 0,
            ty >= 0,
    ;
    assert(tx * tx + ty * ty == (s * s) * total) by (nonlinear_arith)
        requires
            tx == sx * s,
            ty == sy * s,
            total == a.x * a.x + a.y * a.y,
            sx == if a.x < 0 {
                -a.x
            } else {
                a.x
            },
            sy == if a.y < 0 {
                -a.y
            } else {
                a.y
            },
    ;
    let lower = len - 1;
    assert((s * s) * total > (s * lower) * (s * lower)) by (nonlinear_arith)
        requires
            total > lower * lower,
            s > 0,
    ;
    let wide = (qx + 1) * (qx + 1) + (qy + 1) * (qy + 1);
    let ll = len * len;
    assert(wide * ll == ux * ux + uy * uy) by (nonlinear_arith)
        requires
            wide == (qx + 1) * (qx + 1) + (qy + 1) * (qy + 1),
            ll == len * len,
            ux == (qx + 1) * len,
            uy == (qy + 1) * len,
    ;
    assert(wide * ll > (s * lower) * (s * lower));
    if len >= s {
        let base = (s - 1) * len;
        assert((s * lower) * (s * lower) >= base * base) by (nonlinear_arith)
            requires
                s * lower >= base,
                base >= 0,
        ;
        assert(wide > (s - 1) * (s - 1)) by (nonlinear_arith)
            requires
                wide * ll > base * base,
                base == (s - 1) * len,
                ll == len * len,
                len > 0,
        ;
        let size = norm2(n);
        assert(size == qx * qx + qy * qy) by (nonlinear_arith)
            requires
                size == n.x * n.x + n.y * n.y,
                qx == if n.x < 0 {
                    -n.x
                } else {
                    n.x
                },
                qy == if n.y < 0 {
                    -n.y
                } else {
                    n.y
                },
        ;
        assert(wide == size + 2 * (qx + qy) + 2) by (nonlinear_arith)
            requires
                wide == (qx + 1) * (qx + 1) + (qy + 1) * (qy + 1),
                size == qx * qx + qy * qy,
        ;
        assert(qx + qy <= 1414) by (nonlinear_arith)
            requires
                qx * qx + qy * qy <= 1000000,
                qx >= 0,
                qy >= 0,
        ;
    }
}

/// The vector `a` at a scale a thousand times finer.
pub open spec fn finer(a: Point) -> Point {
    Point { x: a.x * SCALE, y: a.y * SCALE }
}

/// The direction of `a`: each component divided by the length of `a`. The
/// length is rounded up at a scale a thousand times finer than a raw unit,
/// so that a direction is never longer than one and, however short `a` is,
/// nearly one long. The zero vector has direction zero.
pub open spec fn v_normalize(a: Point) -> Point {
    length_ratio(finer(a))
}

/// A direction is never longer than one, and neither of its components
/// exceeds one.
pub proof fn lemma_normalize_bounded(a: Point)
    ensures
        norm2(v_normalize(a)) <= SCALE * SCALE,
        -SCALE <= v_normalize(a).x <= SCALE,
        -SCALE <= v_normalize(a).y <= SCALE,
{
    lemma_ratio_bounded(finer(a));
}

/// The direction of the opposite vector is the opposite direction.
pub proof fn lemma_normalize_neg(a: Point)
    ensures
        v_normalize(v_neg(a)) == v_neg(v_normalize(a)),
{
    let s = SCALE as int;
    let (fine, back) = (finer(a), finer(v_neg(a)));
    assert(back.x == -fine.x && back.y == -fine.y) by (nonlinear_arith)
        requires
            back.x == (-a.x) * s,
            back.y == (-a.y) * s,
            fine.x == a.x * s,
            fine.y == a.y * s,
    ;
    assert(norm2(back) == norm2(fine)) by (nonlinear_arith)
        requires
            back.x == -fine.x,
            back.y == -fine.y,
            norm2(back) == back.x * back.x + back.y * back.y,
            norm2(fine) == fine.x * fine.x + fine.y * fine.y,
    ;
    let len = sqrt_ceil(norm2(fine));
    assert(back.x * s == -(fine.x * s) && back.y * s == -(fine.y * s)) by (nonlinear_arith)
        requires
            back.x == -fine.x,
            back.y == -fine.y,
    ;
    lemma_div_trunc_neg(fine.x * s, len);
    lemma_div_trunc_neg(fine.y * s, len);
}

/// The direction of every vector but the zero vector is a unit vector up to
/// rounding: longer than 0.997, and by [`lemma_normalize_bounded`] no longer
/// than one.
pub proof fn lemma_normalize_nearly_unit(a: Point)
    requires
        norm2(a) > 0,
    ensures
        norm2(v_normalize(a)) > (SCALE - 3) * (SCALE - 3),
{
    let s = SCALE as int;
    let fine = norm2(finer(a));
    assert(fine == (s * s) * norm2(a)) by (nonlinear_arith)
        requires
            fine == (a.x * s) * (a.x * s) + (a.y * s) * (a.y * s),
            norm2(a) == a.x * a.x + a.y * a.y,
    ;
    assert(fine >= s * s) by (nonlinear_arith)
        requires
            fine == (s * s) * norm2(a),
            norm2(a) >= 1,
    ;
    lemma_sqrt_ceil(fine);
    let len = sqrt_ceil(fine);
    assert(len >= s) by (nonlinear_arith)
        requires
            len * len >= fine,
            fine >= s * s,
            len >= 0,
            s > 0,
    ;
    lemma_ratio_nearly_unit(finer(a));
}

/// The vector turned by a quarter turn: `(x, y)` becomes `(-y, x)`.
pub open spec fn v_perp(a: Point) -> Point {
    Point { x: -a.y, y: a.x }
}

/// Component-wise minimum.
pub open spec fn v_min(a: Point, b: Point) -> Point {
    Point { x: if a.x <= b.x { a.x } else { b.x }, y: if a.y <= b.y { a.y } else { b.y } }
}

/// Component-wise maximum.
pub open spec fn v_max(a: Point, b: Point) -> Point {
    Point { x: if a.x >= b.x { a.x } else { b.x }, y: if a.y >= b.y { a.y } else { b.y } }
}

/// The vector `a` turned by the rotation whose cosine and sine are the
/// components of `r`, all in fixed point.
pub open spec fn v_rotate(a: Point, r: Point) -> Point {
    Point {
        x: fx_sub(fx_mul(r.x, a.x), fx_mul(r.y, a.y)),
        y: fx_add(fx_mul(r.y, a.x), fx_mul(r.x, a.y)),
    }
}

/// A vector with fixed-point components.
#[derive(Clone, Copy, Debug, PartialEq, Eq, Structural)]
pub struct Vec2 {
    pub x: Fixed,
    pub y: Fixed,
}

impl View for Vec2 {
    type V = Point;

    open spec fn view(&self) -> Point {
        Point { x: self.x@, y: self.y@ }
    }
}

/// The model of an optional vector.
pub open spec fn option_view(v: Option<Vec2>) -> Option<Point> {
    match v {
        Some(v) => Some(v@),
        None => None,
    }
}

/// The exact cross product of the differences `b - a` and `c - a`.
pub fn orient_exact(a: Vec2, b: Vec2, c: Vec2) -> (r: i128)
    ensures
        r == orient(a@, b@, c@),
        -8_000_000_000_000_000_000 <= r <= 8_000_000_000_000_000_000,
{
    let ux: i128 = b.x.raw() as i128 - a.x.raw() as i128;
    let uy: i128 = b.y.raw() as i128 - a.y.raw() as i128;
    let wx: i128 = c.x.raw() as i128 - a.x.raw() as i128;
    let wy: i128 = c.y.raw() as i128 - a.y.raw() as i128;
    assert(-4_000_000_000_000_000_000 <= ux * wy <= 4_000_000_000_000_000_000) by (nonlinear_arith)
        requires
            -2_000_000_000 <= ux <= 2_000_000_000,
            -2_000_000_000 <= wy <= 2_000_000_000,
    ;
    assert(-4_000_000_000_000_000_000 <= uy * wx <= 4_000_000_000_000_000_000) by (nonlinear_arith)
        requires
            -2_000_000_000 <= uy <= 2_000_000_000,
            -2_000_000_000 <= wx <= 2_000_000_000,
    ;
    ux * wy - uy * wx
}

/// The exact dot product of the differences `b - a` and `c - a`.
pub fn dot_diff_exact(a: Vec2, b: Vec2, c: Vec2) -> (r: i128)
    ensures
        r == dot_exact(diff(b@, a@), diff(c@, a@)),
        -8_000_000_000_000_000_000 <= r <= 8_000_000_000_000_000_000,
{
    let ux: i128 = b.x.raw() as i128 - a.x.raw() as i128;
    let uy: i128 = b.y.raw() as i128 - a.y.raw() as i128;
    let wx: i128 = c.x.raw() as i128 - a.x.raw() as i128;
    let wy: i128 = c.y.raw() as i128 - a.y.raw() as i128;
    assert(-4_000_000_000_000_000_000 <= ux * wx <= 4_000_000_000_000_000_000) by (nonlinear_arith)
        requires
            -2_000_000_000 <= ux <= 2_000_000_000,
            -2_000_000_000 <= wx <= 2_000_000_000,
    ;
    assert(-4_000_000_000_000_000_000 <= uy * wy <= 4_000_000_000_000_000_000) by (nonlinear_arith)
        requires
            -2_000_000_000 <= uy <= 2_000_000_000,
            -2_000_000_000 <= wy <= 2_000_000_000,
    ;
    ux * wx + uy * wy
}

/// The exact squared distance between two points.
pub fn dist2_exact(a: Vec2, b: Vec2) -> (r: u128)
    ensures
        r == norm2(diff(a@, b@)),
        r <= 8_000_000_000_000_000_000,
{
    let ux: i128 = a.x.raw() as i128 - b.x.raw() as i128;
    let uy: i128 = a.y.raw() as i128 - b.y.raw() as i128;
    assert(0 <= ux * ux <= 4_000_000_000_000_000_000) by (nonlinear_arith)
        requires
            -2_000_000_000 <= ux <= 2_000_000_000,
    ;
    assert(0 <= uy * uy <= 4_000_000_000_000_000_000) by (nonlinear_arith)
        requires
            -2_000_000_000 <= uy <= 2_000_000_000,
    ;
    (ux * ux + uy * uy) as u128
}

impl Vec2 {
    /// The vector with the given components.
    pub fn new(x: Fixed, y: Fixed) -> (r: Vec2)
        ensures
            r == (Vec2 { x, y }),
    {
        Vec2 { x, y }
    }

    /// The zero vector.
    pub fn zero() -> (r: Vec2)
        ensures
            r@ == (Point { x: 0, y: 0 }),
    {
        Vec2 { x: Fixed::zero(), y: Fixed::zero() }
    }

    /// The vector of the two whole numbers `x` and `y`.
    pub fn from_ints(x: i64, y: i64) -> (r: Vec2)
        ensures
            r@ == (Point { x: clamp(x * SCALE), y: clamp(y * SCALE) }),
    {
        Vec2 { x: Fixed::from_int(x), y: Fixed::from_int(y) }
    }

    /// Component-wise saturating sum.
    pub fn add(self, rhs: Vec2) -> (r: Vec2)
        ensures
            r@ == v_add(self@, rhs@),
    {
        Vec2 { x: self.x.add(rhs.x), y: self.y.add(rhs.y) }
    }

    /// Component-wise saturating difference.
    pub fn sub(self, rhs: Vec2) -> (r: Vec2)
        ensures
            r@ == v_sub(self@, rhs@),
    {
        Vec2 { x: self.x.sub(rhs.x), y: self.y.sub(rhs.y) }
    }

    /// The opposite vector.
    pub fn neg(self) -> (r: Vec2)
        ensures
            r@ == v_neg(self@),
    {
        Vec2 { x: self.x.neg(), y: self.y.neg() }
    }

    /// The vector scaled by `s`.
    pub fn scale(self, s: Fixed) -> (r: Vec2)
        ensures
            r@ == v_scale(self@, s@),
    {
        Vec2 { x: self.x.mul(s), y: self.y.mul(s) }
    }

    /// The vector divided by `s`; zero when `s` is zero.
    pub fn div(self, s: Fixed) -> (r: Vec2)
        ensures
            r@ == v_div(self@, s@),
    {
        Vec2 { x: self.x.div(s), y: self.y.div(s) }
    }

    /// Dot product.
    pub fn dot(self, rhs: Vec2) -> (r: Fixed)
        ensures
            r@ == v_dot(self@, rhs@),
    {
        let ax: i128 = self.x.raw() as i128;
        let ay: i128 = self.y.raw() as i128;
        let bx: i128 = rhs.x.raw() as i128;
        let by: i128 = rhs.y.raw() as i128;
        assert(-1_000_000_000_000_000_000 <= ax * bx <= 1_000_000_000_000_000_000)
            by (nonlinear_arith)
            requires
                -1_000_000_000 <= ax <= 1_000_000_000,
                -1_000_000_000 <= bx <= 1_000_000_000,
        ;
        assert(-1_000_000_000_000_000_000 <= ay * by <= 1_000_000_000_000_000_000)
            by (nonlinear_arith)
            requires
                -1_000_000_000 <= ay <= 1_000_000_000,
                -1_000_000_000 <= by <= 1_000_000_000,
        ;
        Fixed::saturate(quot(ax * bx + ay * by, 1000))
    }

    /// Two-dimensional cross product.
    pub fn cross(self, rhs: Vec2) -> (r: Fixed)
        ensures
            r@ == v_cross(self@, rhs@),
    {
        let ax: i128 = self.x.raw() as i128;
        let ay: i128 = self.y.raw() as i128;
        let bx: i128 = rhs.x.raw() as i128;
        let by: i128 = rhs.y.raw() as i128;
        assert(-1_000_000_000_000_000_000 <= ax * by <= 1_000_000_000_000_000_000)
            by (nonlinear_arith)
            requires
                -1_000_000_000 <= ax <= 1_000_000_000,
                -1_000_000_000 <= by <= 1_000_000_000,
        ;
        assert(-1_000_000_000_000_000_000 <= ay * bx <= 1_000_000_000_000_000_000)
            by (nonlinear_arith)
            requires
                -1_000_000_000 <= ay <= 1_000_000_000,
                -1_000_000_000 <= bx <= 1_000_000_000,
        ;
        Fixed::saturate(quot(ax * by - ay * bx, 1000))
    }

    /// The exact squared length, in squared raw units.
    pub fn norm2_exact(self) -> (r: u128)
        ensures
            r == norm2(self@),
            r <= 2_000_000_000_000_000_000,
    {
        let ax: i128 = self.x.raw() as i128;
        let ay: i128 = self.y.raw() as i128;
        assert(0 <= ax * ax <= 1_000_000_000_000_000_000) by (nonlinear_arith)
            requires
                -1_000_000_000 <= ax <= 1_000_000_000,
        ;
        assert(0 <= ay * ay <= 1_000_000_000_000_000_000) by (nonlinear_arith)
            requires
                -1_000_000_000 <= ay <= 1_000_000_000,
        ;
        (ax * ax + ay * ay) as u128
    }

    /// Length, rounded down and saturated.
    pub fn length(self) -> (r: Fixed)
        ensures
            r@ == v_length(self@),
    {
        let root: u128 = isqrt(self.norm2_exact());
        Fixed::saturate(root as i128)
    }

    /// Distance to `other`, rounded down and saturated.
    pub fn distance(self, other: Vec2) -> (r: Fixed)
        ensures
            r@ == v_distance(self@, other@),
    {
        let root: u128 = isqrt(dist2_exact(self, other));
        Fixed::saturate(root as i128)
    }

    /// The direction of the vector: a unit vector up to rounding, never
    /// longer than one, and zero for the zero vector.
    pub fn normalize(self) -> (r: Vec2)
        ensures
            r@ == v_normalize(self@),
            norm2(r@) <= SCALE * SCALE,
            norm2(self@) > 0 ==> norm2(r@) > (SCALE - 3) * (SCALE - 3),
    {
        proof {
            lemma_normalize_bounded(self@);
            if norm2(self@) > 0 {
                lemma_normalize_nearly_unit(self@);
            }
        }
        assert(norm2(finer(self@)) == norm2(self@) * 1_000_000) by (nonlinear_arith)
            requires
                norm2(finer(self@)) == (self@.x * 1000) * (self@.x * 1000) + (self@.y * 1000) * (
                self@.y * 1000),
                norm2(self@) == self@.x * self@.x + self@.y * self@.y,
        ;
        let len: u128 = isqrt_ceil(self.norm2_exact() * 1_000_000);
        if len == 0 {
            Vec2::zero()
        } else {
            let l: i128 = len as i128;
            Vec2 {
                x: Fixed::saturate(quot(self.x.raw() as i128 * 1_000_000, l)),
                y: Fixed::saturate(quot(self.y.raw() as i128 * 1_000_000, l)),
            }
        }
    }

    /// The vector turned by a quarter turn.
    pub fn perp(self) -> (r: Vec2)
        ensures
            r@ == v_perp(self@),
    {
        Vec2 { x: self.y.neg(), y: self.x }
    }

    /// Component-wise minimum.
    pub fn min(self, rhs: Vec2) -> (r: Vec2)
        ensures
            r@ == v_min(self@, rhs@),
    {
        Vec2 { x: self.x.min(rhs.x), y: self.y.min(rhs.y) }
    }

    /// Component-wise maximum.
    pub fn max(self, rhs: Vec2) -> (r: Vec2)
        ensures
            r@ == v_max(self@, rhs@),
    {
        Vec2 { x: self.x.max(rhs.x), y: self.y.max(rhs.y) }
    }

    /// The vector turned by the rotation whose cosine and sine are the
    /// components of `rotation`.
    pub fn rotate(self, rotation: Vec2) -> (r: Vec2)
        ensures
            r@ == v_rotate(self@, rotation@),
    {
        Vec2 {
            x: rotation.x.mul(self.x).sub(rotation.y.mul(self.y)),
            y: rotation.y.mul(self.x).add(rotation.x.mul(self.y)),
        }
    }

    /// True for the zero vector.
    pub fn is_zero(self) -> (r: bool)
        ensures
            r == (self@.x == 0 && self@.y == 0),
    {
        self.x.is_zero() && self.y.is_zero()
    }
}

} // verus!
