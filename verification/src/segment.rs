//! The point of a segment nearest to a given point.
use crate::fixed::{
    clamp, div_trunc, isqrt, isqrt_ceil, lemma_div_trunc_bounds, lemma_floor_sqrt_exists,
    lemma_remainder, lemma_small_rest, lemma_sqrt_ceil, lemma_sqrt_floor_monotone, magnitude,
    quot, sqrt_ceil, sqrt_floor, Fixed, SCALE,
};
use crate::vector::{
    cross_exact, diff, dist2_exact, dot_diff_exact, dot_exact, finer, lemma_normalize_bounded,
    lemma_normalize_nearly_unit, norm2, orient_exact, v_distance, v_normalize, v_perp, Point,
    Vec2,
};
use vstd::prelude::*;

verus! {

/// The projection of `p` on the line through `a` and `b`, as the numerator
/// of the projection parameter: the parameter itself is this number divided
/// by `norm2(diff(b, a))`, and is 0 at `a` and 1 at `b`.
pub open spec fn seg_along(p: Point, a: Point, b: Point) -> int {
    dot_exact(diff(p, a), diff(b, a))
}

/// The perpendicular foot of `p` on the line through `a` and `b`, each
/// coordinate rounded toward `a`.
pub open spec fn seg_foot(p: Point, a: Point, b: Point) -> Point {
    let d = diff(b, a);
    Point {
        x: a.x + div_trunc(seg_along(p, a, b) * d.x, norm2(d)),
        y: a.y + div_trunc(seg_along(p, a, b) * d.y, norm2(d)),
    }
}

/// The point of the segment from `a` to `b` that is nearest to `p`: the
/// perpendicular foot where the projection parameter lies in `[0, 1]`, else
/// the nearer end.
pub open spec fn seg_point(p: Point, a: Point, b: Point) -> Point {
    let len2 = norm2(diff(b, a));
    let along = seg_along(p, a, b);
    if len2 == 0 || along < 0 {
        a
    } else if along > len2 {
        b
    } else {
        seg_foot(p, a, b)
    }
}

/// The projection parameter of `p`, restricted to `[0, 1]`, in fixed point.
pub open spec fn seg_t(p: Point, a: Point, b: Point) -> int {
    let len2 = norm2(diff(b, a));
    let along = seg_along(p, a, b);
    if len2 == 0 || along < 0 {
        0
    } else if along > len2 {
        SCALE as int
    } else {
        div_trunc(along * SCALE, len2)
    }
}

/// The distance from `p` to the segment from `a` to `b`, rounded down and
/// saturated: the distance to the line where the projection parameter lies
/// in `[0, 1]`, else the distance to the nearer end.
pub open spec fn seg_distance(p: Point, a: Point, b: Point) -> int {
    let d = diff(b, a);
    let len2 = norm2(d);
    let along = seg_along(p, a, b);
    if len2 == 0 || along < 0 {
        v_distance(p, a)
    } else if along > len2 {
        v_distance(p, b)
    } else {
        let c = cross_exact(d, diff(p, a));
        clamp(sqrt_floor((c * c) / len2))
    }
}

/// The normal of the segment from `a` to `b`: its direction turned by a
/// quarter turn, and zero when the ends coincide.
pub open spec fn seg_normal(a: Point, b: Point) -> Point {
    v_perp(v_normalize(diff(b, a)))
}

/// Lagrange's identity in the plane: the squares of the cross and dot
/// products of two vectors add up to the product of their squared lengths.
pub proof fn lemma_lagrange(u: Point, w: Point)
    ensures
        cross_exact(u, w) * cross_exact(u, w) + dot_exact(u, w) * dot_exact(u, w) == norm2(u)
            * norm2(w),
{
    let (a, b, c, d) = (u.x, u.y, w.x, w.y);
    let (ad, bc, ac, bd) = (a * d, b * c, a * c, b * d);
    assert(ad * bc == ac * bd) by (nonlinear_arith)
        requires
            ad == a * d,
            bc == b * c,
            ac == a * c,
            bd == b * d,
    ;
    assert((ad - bc) * (ad - bc) + (ac + bd) * (ac + bd) == ad * ad + bc * bc + ac * ac + bd * bd)
        by (nonlinear_arith)
        requires
            ad * bc == ac * bd,
    ;
    assert(ac * ac == (a * a) * (c * c)) by (nonlinear_arith)
        requires
            ac == a * c,
    ;
    assert(ad * ad == (a * a) * (d * d)) by (nonlinear_arith)
        requires
            ad == a * d,
    ;
    assert(bc * bc == (b * b) * (c * c)) by (nonlinear_arith)
        requires
            bc == b * c,
    ;
    assert(bd * bd == (b * b) * (d * d)) by (nonlinear_arith)
        requires
            bd == b * d,
    ;
    let (aa, bb, cc, dd) = (a * a, b * b, c * c, d * d);
    assert((aa + bb) * (cc + dd) == aa * cc + aa * dd + bb * cc + bb * dd) by (nonlinear_arith);
}

/// The squared distance from `p` to the line through `a` and `b`, rounded
/// down, does not exceed the squared distance from `p` to `a`.
proof fn lemma_line_within_start(p: Point, a: Point, b: Point)
    requires
        norm2(diff(b, a)) > 0,
    ensures
        ({
            let c = cross_exact(diff(b, a), diff(p, a));
            0 <= (c * c) / norm2(diff(b, a)) <= norm2(diff(p, a))
        }),
{
    let d = diff(b, a);
    let u = diff(p, a);
    let c = cross_exact(d, u);
    let len2 = norm2(d);
    lemma_lagrange(d, u);
    let k = dot_exact(d, u);
    let m = norm2(u);
    assert(0 <= (c * c) / len2 <= m) by (nonlinear_arith)
        requires
            c * c + k * k == len2 * m,
            len2 > 0,
    ;
}

/// The cross product of an edge with the vector to `p` is the same from
/// either end of the edge.
proof fn lemma_cross_from_either_end(p: Point, a: Point, b: Point)
    ensures
        cross_exact(diff(b, a), diff(p, b)) == cross_exact(diff(b, a), diff(p, a)),
{
    let (dx, dy) = (b.x - a.x, b.y - a.y);
    let (ux, uy) = (p.x - a.x, p.y - a.y);
    assert(dx * (uy - dy) - dy * (ux - dx) == dx * uy - dy * ux) by (nonlinear_arith);
}

/// The squared distances from `p` to the two ends of an edge differ by the
/// squared length of the edge less twice the projection of `p`.
proof fn lemma_end_distances(p: Point, a: Point, b: Point)
    ensures
        norm2(diff(p, b)) == norm2(diff(p, a)) - 2 * seg_along(p, a, b) + norm2(diff(b, a)),
{
    let (dx, dy) = (b.x - a.x, b.y - a.y);
    let (ux, uy) = (p.x - a.x, p.y - a.y);
    assert((ux - dx) * (ux - dx) + (uy - dy) * (uy - dy) == (ux * ux + uy * uy) - 2 * (ux * dx + uy
        * dy) + (dx * dx + dy * dy)) by (nonlinear_arith);
}

/// The nearest point of a segment is an end exactly when the projection
/// parameter leaves `[0, 1]` on that side, and is the perpendicular foot
/// otherwise; the foot is exact up to rounding each coordinate toward the
/// first end. The distance returned never exceeds the distance from `p` to
/// either end.
pub proof fn lemma_closest_point(p: Point, a: Point, b: Point)
    ensures
        seg_along(p, a, b) < 0 ==> seg_point(p, a, b) == a,
        seg_along(p, a, b) > norm2(diff(b, a)) ==> seg_point(p, a, b) == b,
        0 <= seg_along(p, a, b) <= norm2(diff(b, a)) && a != b ==> ({
            let f = seg_point(p, a, b);
            let len2 = norm2(diff(b, a));
            let along = seg_along(p, a, b);
            &&& f == seg_foot(p, a, b)
            &&& magnitude((f.x - a.x) * len2) <= magnitude(along * (b.x - a.x)) < magnitude(
                (f.x - a.x) * len2,
            ) + len2
            &&& magnitude((f.y - a.y) * len2) <= magnitude(along * (b.y - a.y)) < magnitude(
                (f.y - a.y) * len2,
            ) + len2
        }),
        seg_distance(p, a, b) <= v_distance(p, a),
        seg_distance(p, a, b) <= v_distance(p, b),
{
    let d = diff(b, a);
    let len2 = norm2(d);
    let along = seg_along(p, a, b);
    assert(len2 >= 0) by (nonlinear_arith)
        requires
            len2 == d.x * d.x + d.y * d.y,
    ;
    if len2 == 0 {
        assert(d.x == 0 && d.y == 0) by (nonlinear_arith)
            requires
                d.x * d.x + d.y * d.y == 0,
        ;
        assert(a == b);
    } else {
        lemma_end_distances(p, a, b);
        if along < 0 {
            lemma_sqrt_floor_monotone(norm2(diff(p, a)), norm2(diff(p, b)));
        } else if along > len2 {
            lemma_sqrt_floor_monotone(norm2(diff(p, b)), norm2(diff(p, a)));
        } else {
            let c = cross_exact(d, diff(p, a));
            lemma_line_within_start(p, a, b);
            lemma_sqrt_floor_monotone((c * c) / len2, norm2(diff(p, a)));
            lemma_cross_from_either_end(p, a, b);
            lemma_line_within_start_other(p, a, b);
            lemma_sqrt_floor_monotone((c * c) / len2, norm2(diff(p, b)));
            lemma_foot_rounding(along, d.x, len2);
            lemma_foot_rounding(along, d.y, len2);
        }
    }
}

/// The squared distance from `p` to the line through `a` and `b`, rounded
/// down, does not exceed the squared distance from `p` to `b`.
proof fn lemma_line_within_start_other(p: Point, a: Point, b: Point)
    requires
        norm2(diff(b, a)) > 0,
    ensures
        ({
            let c = cross_exact(diff(b, a), diff(p, a));
            0 <= (c * c) / norm2(diff(b, a)) <= norm2(diff(p, b))
        }),
{
    let d = diff(b, a);
    let u = diff(p, b);
    let c = cross_exact(d, u);
    let len2 = norm2(d);
    lemma_cross_from_either_end(p, a, b);
    lemma_lagrange(d, u);
    let k = dot_exact(d, u);
    let m = norm2(u);
    assert(0 <= (c * c) / len2 <= m) by (nonlinear_arith)
        requires
            c * c + k * k == len2 * m,
            len2 > 0,
    ;
}

/// What rounding toward zero does to one coordinate of the foot.
proof fn lemma_foot_rounding(along: int, d: int, len2: int)
    requires
        len2 > 0,
    ensures
        ({
            let q = div_trunc(along * d, len2);
            magnitude(q * len2) <= magnitude(along * d) < magnitude(q * len2) + len2
        }),
{
    let q = div_trunc(along * d, len2);
    lemma_div_trunc_bounds(along * d, len2);
    let mq = magnitude(q);
    assert(magnitude(q * len2) == mq * len2) by (nonlinear_arith)
        requires
            mq == if q < 0 {
                -q
            } else {
                q
            },
            len2 > 0,
            magnitude(q * len2) == if q * len2 < 0 {
                -(q * len2)
            } else {
                q * len2
            },
    ;
    assert((mq + 1) * len2 == mq * len2 + len2) by (nonlinear_arith);
}

/// A coordinate of the foot lies between the same coordinates of the two
/// ends.
proof fn lemma_foot_between(along: int, d: int, len2: int)
    requires
        len2 > 0,
        0 <= along <= len2,
    ensures
        ({
            let q = div_trunc(along * d, len2);
            if d >= 0 {
                0 <= q <= d
            } else {
                d <= q <= 0
            }
        }),
{
    let q = div_trunc(along * d, len2);
    let md = magnitude(d);
    lemma_div_trunc_bounds(along * d, len2);
    assert(magnitude(along * d) == along * md) by (nonlinear_arith)
        requires
            along >= 0,
            md == if d < 0 {
                -d
            } else {
                d
            },
            magnitude(along * d) == if along * d < 0 {
                -(along * d)
            } else {
                along * d
            },
    ;
    let mq = magnitude(q);
    assert(mq <= md) by (nonlinear_arith)
        requires
            mq * len2 <= along * md,
            0 <= along <= len2,
            len2 > 0,
            md >= 0,
            mq >= 0,
    ;
    if d >= 0 {
        assert(along * d >= 0) by (nonlinear_arith)
            requires
                along >= 0,
                d >= 0,
        ;
    } else {
        assert(along * d <= 0) by (nonlinear_arith)
            requires
                along >= 0,
                d < 0,
        ;
    }
}

/// The fixed-point projection parameter lies in `[0, 1]`.
proof fn lemma_t_between(along: int, len2: int)
    requires
        len2 > 0,
        0 <= along <= len2,
    ensures
        0 <= div_trunc(along * SCALE, len2) <= SCALE,
{
    let q = div_trunc(along * SCALE, len2);
    lemma_div_trunc_bounds(along * SCALE, len2);
    assert(q <= 1000) by (nonlinear_arith)
        requires
            magnitude(q) * len2 <= along * 1000,
            magnitude(q) == q,
            0 <= along <= len2,
            len2 > 0,
    ;
}

/// The distance to a segment is not negative, the projection parameter lies
/// in `[0, 1]`, and the normal is never longer than one.
pub proof fn lemma_segment_bounds(p: Point, a: Point, b: Point)
    ensures
        0 <= seg_distance(p, a, b),
        0 <= seg_t(p, a, b) <= SCALE,
        norm2(seg_normal(a, b)) <= SCALE * SCALE,
{
    let d = diff(b, a);
    let len2 = norm2(d);
    let along = seg_along(p, a, b);
    let c = cross_exact(d, diff(p, a));
    assert(len2 >= 0 && norm2(diff(p, a)) >= 0 && norm2(diff(p, b)) >= 0 && c * c >= 0)
        by (nonlinear_arith)
        requires
            len2 == d.x * d.x + d.y * d.y,
            norm2(diff(p, a)) == (p.x - a.x) * (p.x - a.x) + (p.y - a.y) * (p.y - a.y),
            norm2(diff(p, b)) == (p.x - b.x) * (p.x - b.x) + (p.y - b.y) * (p.y - b.y),
    ;
    lemma_floor_sqrt_exists(norm2(diff(p, a)));
    lemma_floor_sqrt_exists(norm2(diff(p, b)));
    if len2 > 0 && 0 <= along <= len2 {
        lemma_t_between(along, len2);
        assert((c * c) / len2 >= 0) by (nonlinear_arith)
            requires
                c * c >= 0,
                len2 > 0,
        ;
        lemma_floor_sqrt_exists((c * c) / len2);
    }
    lemma_normalize_bounded(d);
    let n = v_normalize(d);
    assert((-n.y) * (-n.y) + n.x * n.x == n.x * n.x + n.y * n.y) by (nonlinear_arith);
}

/// The normal of every segment of non-zero length is a unit vector up to
/// rounding: longer than 0.997, and by [`lemma_segment_bounds`] no longer
/// than one.
pub proof fn lemma_normal_nearly_unit(a: Point, b: Point)
    requires
        a != b,
    ensures
        norm2(seg_normal(a, b)) > (SCALE - 3) * (SCALE - 3),
{
    let d = diff(b, a);
    assert(norm2(d) > 0) by (nonlinear_arith)
        requires
            d.x != 0 || d.y != 0,
            norm2(d) == d.x * d.x + d.y * d.y,
    ;
    lemma_normalize_nearly_unit(d);
    let u = v_normalize(d);
    assert((-u.y) * (-u.y) + u.x * u.x == u.x * u.x + u.y * u.y) by (nonlinear_arith);
}

/// The normal of a segment is at right angles to it, up to rounding: its
/// dot product with the segment is smaller in magnitude than the two
/// components of the segment together, so that the cosine of the angle
/// between them is below 0.0015.
pub proof fn lemma_normal_is_perpendicular(a: Point, b: Point)
    requires
        a != b,
    ensures
        ({
            let d = diff(b, a);
            let slack = magnitude(d.x) + magnitude(d.y);
            -slack < dot_exact(seg_normal(a, b), d) < slack
        }),
{
    let s = SCALE as int;
    let d = diff(b, a);
    let fine = finer(d);
    let total = norm2(fine);
    assert(total > 0) by (nonlinear_arith)
        requires
            d.x != 0 || d.y != 0,
            total == (d.x * s) * (d.x * s) + (d.y * s) * (d.y * s),
            s > 0,
    ;
    lemma_sqrt_ceil(total);
    let len = sqrt_ceil(total);
    let u = v_normalize(d);
    let n = seg_normal(a, b);
    let (x, y) = (fine.x * s, fine.y * s);
    assert(u.x == div_trunc(x, len) && u.y == div_trunc(y, len));
    lemma_remainder(x, len);
    lemma_remainder(y, len);
    let (rx, ry) = (x - u.x * len, y - u.y * len);
    lemma_small_rest(d.x, d.y, rx, ry, len);
    let slack = magnitude(d.x) + magnitude(d.y);
    let dot = dot_exact(n, d);
    assert(dot == u.x * d.y - u.y * d.x) by (nonlinear_arith)
        requires
            dot == (-u.y) * d.x + u.x * d.y,
    ;
    assert((u.x * d.y - u.y * d.x) * len == (u.x * len) * d.y - (u.y * len) * d.x)
        by (nonlinear_arith);
    assert((x - rx) * d.y == x * d.y - rx * d.y && (y - ry) * d.x == y * d.x - ry * d.x)
        by (nonlinear_arith);
    assert(x * d.y == y * d.x) by (nonlinear_arith)
        requires
            x == (d.x * s) * s,
            y == (d.y * s) * s,
    ;
    assert(rx * d.y == d.y * rx && ry * d.x == d.x * ry) by (nonlinear_arith);
    assert(dot * len == d.x * ry - d.y * rx);
    assert(-slack < dot < slack) by (nonlinear_arith)
        requires
            -(slack * len) < dot * len < slack * len,
            len > 0,
    ;
}

/// The nearest point of the segment from `a` to `b`, the distance to it,
/// the normal of the segment, and the projection parameter restricted to
/// `[0, 1]`.
pub fn closest_on_segment(point: Vec2, a: Vec2, b: Vec2) -> (r: (Vec2, Fixed, Vec2, Fixed))
    ensures
        r.0@ == seg_point(point@, a@, b@),
        r.1@ == seg_distance(point@, a@, b@),
        r.2@ == seg_normal(a@, b@),
        r.3@ == seg_t(point@, a@, b@),
        0 <= r.1@,
        0 <= r.3@ <= SCALE,
        norm2(r.2@) <= SCALE * SCALE,
        a@ != b@ ==> norm2(r.2@) > (SCALE - 3) * (SCALE - 3),
{
    let dx: i128 = b.x.raw() as i128 - a.x.raw() as i128;
    let dy: i128 = b.y.raw() as i128 - a.y.raw() as i128;
    let len2: u128 = dist2_exact(b, a);
    proof {
        let d = diff(b@, a@);
        lemma_sqrt_ceil(0);
        lemma_normalize_bounded(d);
        lemma_segment_bounds(point@, a@, b@);
        if a@ != b@ {
            lemma_normal_nearly_unit(a@, b@);
        }
        assert(norm2(finer(d)) == norm2(d) * 1_000_000) by (nonlinear_arith)
            requires
                norm2(finer(d)) == (d.x * 1000) * (d.x * 1000) + (d.y * 1000) * (d.y * 1000),
                norm2(d) == d.x * d.x + d.y * d.y,
        ;
    }
    if len2 == 0 {
        return (a, point.distance(a), Vec2::zero(), Fixed::zero());
    }
    let len: i128 = isqrt_ceil(len2 * 1_000_000) as i128;
    let dir = Vec2 {
        x: Fixed::saturate(quot(dx * 1_000_000, len)),
        y: Fixed::saturate(quot(dy * 1_000_000, len)),
    };
    let normal = dir.perp();
    let along: i128 = dot_diff_exact(a, point, b);
    if along < 0 {
        return (a, point.distance(a), normal, Fixed::zero());
    }
    if along > len2 as i128 {
        return (b, point.distance(b), normal, Fixed::one());
    }
    assert(-16_000_000_000_000_000_000_000_000_000 <= along * dx
        <= 16_000_000_000_000_000_000_000_000_000) by (nonlinear_arith)
        requires
            0 <= along <= 8_000_000_000_000_000_000,
            -2_000_000_000 <= dx <= 2_000_000_000,
    ;
    assert(-16_000_000_000_000_000_000_000_000_000 <= along * dy
        <= 16_000_000_000_000_000_000_000_000_000) by (nonlinear_arith)
        requires
            0 <= along <= 8_000_000_000_000_000_000,
            -2_000_000_000 <= dy <= 2_000_000_000,
    ;
    let qx: i128 = quot(along * dx, len2 as i128);
    let qy: i128 = quot(along * dy, len2 as i128);
    proof {
        lemma_foot_between(along as int, dx as int, len2 as int);
        lemma_foot_between(along as int, dy as int, len2 as int);
        lemma_t_between(along as int, len2 as int);
    }
    let foot = Vec2 {
        x: Fixed::saturate(a.x.raw() as i128 + qx),
        y: Fixed::saturate(a.y.raw() as i128 + qy),
    };
    let c: i128 = orient_exact(a, b, point);
    assert(0 <= c * c <= 64_000_000_000_000_000_000_000_000_000_000_000_000) by (nonlinear_arith)
        requires
            -8_000_000_000_000_000_000 <= c <= 8_000_000_000_000_000_000,
    ;
    let c2: u128 = (c * c) as u128;
    let dist = Fixed::saturate(isqrt(c2 / len2) as i128);
    let t = Fixed::saturate(quot(along * 1000, len2 as i128));
    (foot, dist, normal, t)
}

} // verus!
