//! The exchange of velocities at a contact between a point and an edge: an
//! impulse along the normal, damped by the elasticity, and friction along
//! the edge.
//!
//! A velocity is split exactly into its parts along and across a direction,
//! the part along is changed, and the two are put together again and
//! rounded toward zero once. Rounded this way, an exchange never adds
//! kinetic energy.
use crate::collision::{Collision, CollisionView};
use crate::components::{energy, PointMass, PointMassView};
use crate::config::{Config, ConfigView};
use crate::fixed::{
    clamp, div_trunc, lemma_div_trunc_bounds, lemma_product_bound, lemma_quotient_bound,
    lemma_remainder, lemma_small_rest, magnitude, quot, Fixed, RAW_LIMIT, SCALE,
};
use crate::segment::lemma_lagrange;
use crate::vector::{cross_exact, diff, dot_exact, norm2, Point, Vec2};
use vstd::prelude::*;

verus! {

/// The vector whose dot product with `axis` is `along` and whose cross
/// product with it is `across`, each component rounded toward zero and
/// saturated. For the zero axis it is zero.
///
/// With `along` and `across` the two products of a vector `v`, the result
/// is `v`; with another `along`, it is `v` with its part along the axis
/// changed and its part across the axis kept.
pub open spec fn recombined(axis: Point, along: int, across: int) -> Point {
    Point {
        x: clamp(div_trunc(along * axis.x - across * axis.y, norm2(axis))),
        y: clamp(div_trunc(along * axis.y + across * axis.x, norm2(axis))),
    }
}

/// The same vector before it is saturated.
pub open spec fn recombined_exact(axis: Point, along: int, across: int) -> Point {
    Point {
        x: div_trunc(along * axis.x - across * axis.y, norm2(axis)),
        y: div_trunc(along * axis.y + across * axis.x, norm2(axis)),
    }
}

/// An exchange of velocities needs masses above zero, a place on the edge
/// between its ends and a normal that is not zero and no longer than one.
pub open spec fn proper_contact(
    point: PointMassView,
    a: PointMassView,
    b: PointMassView,
    c: CollisionView,
) -> bool {
    &&& point.mass > 0
    &&& a.mass > 0
    &&& b.mass > 0
    &&& 0 <= c.t <= SCALE
    &&& 0 < norm2(c.normal) <= SCALE * SCALE
}

/// The combined inverse mass that a contact at `t` along an edge sees,
/// `1 / m + (1 - t)^2 / m_a + t^2 / m_b` for a point of mass `m` and ends of
/// masses `m_a` and `m_b`, times the product of the three masses and the
/// square of the scale.
pub open spec fn contact_load(point: int, first: int, second: int, t: int) -> int {
    1_000_000 * (first * second) + (SCALE - t) * (SCALE - t) * (point * second) + t * t * (point
        * first)
}

/// The speed at which the point moves away from the edge along the normal,
/// times the scale and the length of the normal: the edge moves with the
/// velocities of its two ends, weighted by their shares `1 - t` and `t`.
pub open spec fn separation_speed(
    point: PointMassView,
    a: PointMassView,
    b: PointMassView,
    c: CollisionView,
) -> int {
    SCALE * dot_exact(c.normal, point.velocity) - (SCALE - c.t) * dot_exact(
        c.normal,
        a.velocity,
    ) - c.t * dot_exact(c.normal, b.velocity)
}

/// The speed of the point along the normal after the impulse that reverses
/// the relative normal velocity of point and edge: its speed before, less
/// twice the separation speed over the contact load, the point's own
/// inverse mass taken as one. Rounded toward zero.
pub open spec fn point_rebound(
    point: PointMassView,
    a: PointMassView,
    b: PointMassView,
    c: CollisionView,
) -> int {
    let load = contact_load(point.mass, a.mass, b.mass, c.t);
    div_trunc(
        dot_exact(c.normal, point.velocity) * load - 2000 * separation_speed(point, a, b, c) * (
        a.mass * b.mass),
        load,
    )
}

/// The speed along the normal, after the impulse, of the end of the edge
/// that moves with `velocity` and has the share `share` of the contact: it
/// takes the opposite of the point's impulse, times its share. `other` is
/// the mass of the other end. Rounded toward zero.
pub open spec fn end_rebound(
    velocity: Point,
    share: int,
    other: int,
    point: PointMassView,
    a: PointMassView,
    b: PointMassView,
    c: CollisionView,
) -> int {
    let load = contact_load(point.mass, a.mass, b.mass, c.t);
    div_trunc(
        dot_exact(c.normal, velocity) * load + 2 * share * separation_speed(point, a, b, c) * (
        point.mass * other),
        load,
    )
}

/// A speed scaled by the elasticity, rounded toward zero.
pub open spec fn damped(speed: int, elasticity: int) -> int {
    div_trunc(elasticity * speed, SCALE as int)
}

/// The velocity `velocity` with its speed along `normal` replaced by
/// `speed` scaled by the elasticity. Its part across the normal is kept.
pub open spec fn bounced(velocity: Point, normal: Point, speed: int, elasticity: int) -> Point {
    recombined(normal, damped(speed, elasticity), cross_exact(normal, velocity))
}

/// A velocity after friction has taken the fraction `friction` of its part
/// along `edge`. Its part across the edge is kept. An edge without length
/// takes nothing.
pub open spec fn rubbed(velocity: Point, edge: Point, friction: int) -> Point {
    if norm2(edge) == 0 {
        velocity
    } else {
        recombined(
            edge,
            div_trunc((SCALE - friction) * dot_exact(edge, velocity), SCALE as int),
            cross_exact(edge, velocity),
        )
    }
}

/// The velocity that the exchange gives the colliding point: it takes the
/// normal impulse and is scaled by the elasticity along the normal; friction
/// then takes its fraction of the part along the edge. A contact that is
/// not proper leaves it as it is.
pub open spec fn point_velocity_after(
    point: PointMassView,
    a: PointMassView,
    b: PointMassView,
    c: CollisionView,
    config: ConfigView,
) -> Point {
    if proper_contact(point, a, b, c) {
        rubbed(
            bounced(point.velocity, c.normal, point_rebound(point, a, b, c), config.elasticity),
            diff(b.position, a.position),
            config.friction,
        )
    } else {
        point.velocity
    }
}

/// The velocity that the exchange gives the first end of the edge: it takes
/// the opposite of the point's impulse, times its share `1 - t`, and is
/// scaled by the elasticity along the normal. A contact that is not proper
/// leaves it as it is.
pub open spec fn first_velocity_after(
    point: PointMassView,
    a: PointMassView,
    b: PointMassView,
    c: CollisionView,
    config: ConfigView,
) -> Point {
    if proper_contact(point, a, b, c) {
        bounced(
            a.velocity,
            c.normal,
            end_rebound(a.velocity, SCALE - c.t, b.mass, point, a, b, c),
            config.elasticity,
        )
    } else {
        a.velocity
    }
}

/// The velocity that the exchange gives the second end of the edge, whose
/// share is `t`.
pub open spec fn second_velocity_after(
    point: PointMassView,
    a: PointMassView,
    b: PointMassView,
    c: CollisionView,
    config: ConfigView,
) -> Point {
    if proper_contact(point, a, b, c) {
        bounced(
            b.velocity,
            c.normal,
            end_rebound(b.velocity, c.t, a.mass, point, a, b, c),
            config.elasticity,
        )
    } else {
        b.velocity
    }
}

/// Of two numbers, the one of smaller magnitude has the smaller square.
pub proof fn lemma_smaller_square(a: int, b: int)
    requires
        magnitude(a) <= magnitude(b),
    ensures
        a * a <= b * b,
{
    assert(a * a <= b * b) by (nonlinear_arith)
        requires
            -b <= a <= b || b <= a <= -b,
    ;
}

/// Putting a vector together from its two products with an axis gives the
/// vector back.
pub proof fn lemma_recombined_same(axis: Point, v: Point)
    requires
        norm2(axis) > 0,
        v.x == clamp(v.x),
        v.y == clamp(v.y),
    ensures
        recombined(axis, dot_exact(axis, v), cross_exact(axis, v)) == v,
{
    let size = norm2(axis);
    let (along, across) = (dot_exact(axis, v), cross_exact(axis, v));
    let (ax, ay) = (axis.x, axis.y);
    assert(along * ax - across * ay == v.x * size && along * ay + across * ax == v.y * size)
        by (nonlinear_arith)
        requires
            along == ax * v.x + ay * v.y,
            across == ax * v.y - ay * v.x,
            size == ax * ax + ay * ay,
    ;
    lemma_exact_quotient(v.x, size);
    lemma_exact_quotient(v.y, size);
}

/// A multiple of a positive number, divided by it, gives the factor.
pub proof fn lemma_exact_quotient(q: int, d: int)
    requires
        d > 0,
    ensures
        div_trunc(q * d, d) == q,
{
    let m = magnitude(q);
    assert(magnitude(q * d) == m * d && ((q * d < 0) == (q < 0))) by (nonlinear_arith)
        requires
            d > 0,
            m == if q < 0 {
                -q
            } else {
                q
            },
            magnitude(q * d) == if q * d < 0 {
                -(q * d)
            } else {
                q * d
            },
    ;
    assert((m * d) / d == m) by (nonlinear_arith)
        requires
            d > 0,
            m >= 0,
    ;
}

/// A vector put together from two products with an axis is no longer than
/// the products warrant: its squared length, times that of the axis, is at
/// most the sum of their squares. This holds before it is saturated.
pub proof fn lemma_recombined_exact_length(axis: Point, along: int, across: int)
    requires
        norm2(axis) > 0,
    ensures
        norm2(axis) * norm2(recombined_exact(axis, along, across)) <= along * along + across
            * across,
{
    let size = norm2(axis);
    let r = recombined_exact(axis, along, across);
    let (ax, ay) = (axis.x, axis.y);
    let (x, y) = (along * ax - across * ay, along * ay + across * ax);
    lemma_div_trunc_bounds(x, size);
    lemma_div_trunc_bounds(y, size);
    let (px, py) = (r.x * size, r.y * size);
    assert(magnitude(px) <= magnitude(x) && magnitude(py) <= magnitude(y)) by (nonlinear_arith)
        requires
            size > 0,
            px == r.x * size,
            py == r.y * size,
            magnitude(r.x) * size <= magnitude(x),
            magnitude(r.y) * size <= magnitude(y),
            magnitude(px) == if px < 0 {
                -px
            } else {
                px
            },
            magnitude(py) == if py < 0 {
                -py
            } else {
                py
            },
            magnitude(r.x) == if r.x < 0 {
                -r.x
            } else {
                r.x
            },
            magnitude(r.y) == if r.y < 0 {
                -r.y
            } else {
                r.y
            },
    ;
    lemma_smaller_square(px, x);
    lemma_smaller_square(py, y);
    let sum = along * along + across * across;
    let parts = Point { x: along, y: -across };
    lemma_lagrange(axis, parts);
    assert(dot_exact(axis, parts) == x && cross_exact(axis, parts) == -y && norm2(parts) == sum)
        by (nonlinear_arith)
        requires
            dot_exact(axis, parts) == ax * along + ay * (-across),
            cross_exact(axis, parts) == ax * (-across) - ay * along,
            norm2(parts) == along * along + (-across) * (-across),
            x == along * ax - across * ay,
            y == along * ay + across * ax,
            sum == along * along + across * across,
    ;
    assert((-y) * (-y) == y * y) by (nonlinear_arith);
    assert(x * x + y * y == sum * size) by (nonlinear_arith)
        requires
            y * y + x * x == size * sum,
    ;
    let len = norm2(r);
    assert(px * px + py * py == (size * len) * size) by (nonlinear_arith)
        requires
            px == r.x * size,
            py == r.y * size,
            len == r.x * r.x + r.y * r.y,
    ;
    assert(size * len <= sum) by (nonlinear_arith)
        requires
            (size * len) * size <= sum * size,
            size > 0,
    ;
}

/// Saturated, the vector is no longer than before.
pub proof fn lemma_recombined_length(axis: Point, along: int, across: int)
    requires
        norm2(axis) > 0,
    ensures
        norm2(axis) * norm2(recombined(axis, along, across)) <= along * along + across * across,
{
    let size = norm2(axis);
    let exact = recombined_exact(axis, along, across);
    let r = recombined(axis, along, across);
    lemma_recombined_exact_length(axis, along, across);
    lemma_smaller_square(r.x, exact.x);
    lemma_smaller_square(r.y, exact.y);
    let (short, long) = (norm2(r), norm2(exact));
    assert(size * short <= size * long) by (nonlinear_arith)
        requires
            short <= long,
            size > 0,
    ;
}

/// Friction never makes a velocity longer, for a friction between zero and
/// two: what it leaves of the speed along the edge is then no larger than
/// the speed.
pub proof fn lemma_rubbed_is_no_longer(velocity: Point, edge: Point, friction: int)
    requires
        0 <= friction <= 2 * SCALE,
    ensures
        norm2(rubbed(velocity, edge, friction)) <= norm2(velocity),
{
    let size = norm2(edge);
    if size != 0 {
        assert(size > 0) by (nonlinear_arith)
            requires
                size == edge.x * edge.x + edge.y * edge.y,
                size != 0,
        ;
        let along = dot_exact(edge, velocity);
        let across = cross_exact(edge, velocity);
        let kept = div_trunc((SCALE - friction) * along, SCALE as int);
        lemma_div_trunc_bounds((SCALE - friction) * along, SCALE as int);
        lemma_scaled_down(along, SCALE - friction, kept);
        lemma_smaller_square(kept, along);
        lemma_recombined_length(edge, kept, across);
        lemma_lagrange(edge, velocity);
        let (now, then) = (norm2(rubbed(velocity, edge, friction)), norm2(velocity));
        assert(now <= then) by (nonlinear_arith)
            requires
                size * now <= kept * kept + across * across,
                kept * kept <= along * along,
                across * across + along * along == size * then,
                size > 0,
        ;
    }
}

/// A number times a factor no larger than one in magnitude, divided by the
/// scale and rounded toward zero, is of no larger magnitude than the number.
pub proof fn lemma_scaled_down(v: int, factor: int, r: int)
    requires
        -SCALE <= factor <= SCALE,
        magnitude(r) * SCALE <= magnitude(factor * v),
    ensures
        magnitude(r) <= magnitude(v),
{
    let (mr, mv, mf, mp) = (magnitude(r), magnitude(v), magnitude(factor), magnitude(factor * v));
    assert(mp == mf * mv) by (nonlinear_arith)
        requires
            mf == if factor < 0 {
                -factor
            } else {
                factor
            },
            mv == if v < 0 {
                -v
            } else {
                v
            },
            mp == if factor * v < 0 {
                -(factor * v)
            } else {
                factor * v
            },
    ;
    assert(mr <= mv) by (nonlinear_arith)
        requires
            mr * SCALE <= mf * mv,
            0 <= mf <= SCALE,
            mv >= 0,
            mr >= 0,
    ;
}

/// Friction takes its fraction of the speed along the edge and leaves the
/// speed across the edge as it is, up to rounding.
///
/// The products of the edge with the velocity are its speeds along and
/// across the edge, times the length of the edge. Of the product along the
/// edge, the part `1 - friction` is kept, rounded toward zero: it never
/// grows and never changes its sign. The products of the edge with the
/// velocity after friction differ from the kept product and from the
/// product across by less than the two components of the edge together,
/// that is, the speeds differ by less than two raw units. The velocity is
/// no longer than the largest number that can be represented.
pub proof fn lemma_friction_takes_its_fraction(velocity: Point, edge: Point, friction: int)
    requires
        norm2(edge) > 0,
        0 <= friction <= SCALE,
        norm2(velocity) <= RAW_LIMIT * RAW_LIMIT,
    ensures
        ({
            let after = rubbed(velocity, edge, friction);
            let along = dot_exact(edge, velocity);
            let kept = div_trunc((SCALE - friction) * along, SCALE as int);
            let slack = magnitude(edge.x) + magnitude(edge.y);
            &&& magnitude(kept) <= magnitude(along)
            &&& along >= 0 ==> kept >= 0
            &&& along <= 0 ==> kept <= 0
            &&& -slack < dot_exact(edge, after) - kept < slack
            &&& -slack < cross_exact(edge, after) - cross_exact(edge, velocity) < slack
        }),
{
    let size = norm2(edge);
    let (ex, ey) = (edge.x, edge.y);
    let along = dot_exact(edge, velocity);
    let across = cross_exact(edge, velocity);
    let keep = SCALE - friction;
    let kept = div_trunc(keep * along, SCALE as int);
    lemma_div_trunc_bounds(keep * along, SCALE as int);
    lemma_scaled_down(along, keep, kept);
    assert((along >= 0 ==> keep * along >= 0) && (along <= 0 ==> keep * along <= 0))
        by (nonlinear_arith)
        requires
            keep >= 0,
    ;
    // the velocity after friction is not saturated
    let exact = recombined_exact(edge, kept, across);
    lemma_recombined_exact_length(edge, kept, across);
    lemma_smaller_square(kept, along);
    lemma_lagrange(edge, velocity);
    let (now, then) = (norm2(exact), norm2(velocity));
    assert(now <= then) by (nonlinear_arith)
        requires
            size * now <= kept * kept + across * across,
            kept * kept <= along * along,
            across * across + along * along == size * then,
            size > 0,
    ;
    let limit = RAW_LIMIT as int;
    assert(-limit <= exact.x <= limit && -limit <= exact.y <= limit) by (nonlinear_arith)
        requires
            exact.x * exact.x + exact.y * exact.y <= limit * limit,
            limit > 0,
    ;
    let after = rubbed(velocity, edge, friction);
    assert(after == exact);
    // what the two divisions leave over
    let (x, y) = (kept * ex - across * ey, kept * ey + across * ex);
    lemma_remainder(x, size);
    lemma_remainder(y, size);
    let (rx, ry) = (x - exact.x * size, y - exact.y * size);
    assert(ex != 0 || ey != 0) by (nonlinear_arith)
        requires
            ex * ex + ey * ey > 0,
    ;
    lemma_small_rest(ex, ey, rx, ry, size);
    let slack = magnitude(ex) + magnitude(ey);
    let (dot, cross) = (dot_exact(edge, after), cross_exact(edge, after));
    assert(ex * x + ey * y == kept * size && ex * y - ey * x == across * size)
        by (nonlinear_arith)
        requires
            x == kept * ex - across * ey,
            y == kept * ey + across * ex,
            size == ex * ex + ey * ey,
    ;
    let (bx, by) = (exact.x * size, exact.y * size);
    assert((ex * exact.x + ey * exact.y) * size == ex * (exact.x * size) + ey * (exact.y * size))
        by (nonlinear_arith);
    assert((ex * exact.y - ey * exact.x) * size == ex * (exact.y * size) - ey * (exact.x * size))
        by (nonlinear_arith);
    assert(ex * (x - rx) == ex * x - ex * rx && ey * (y - ry) == ey * y - ey * ry && ex * (y
        - ry) == ex * y - ex * ry && ey * (x - rx) == ey * x - ey * rx) by (nonlinear_arith);
    assert(dot * size == kept * size - (ex * rx + ey * ry));
    assert(cross * size == across * size - (ex * ry - ey * rx));
    assert((dot - kept) * size == dot * size - kept * size && (cross - across) * size == cross
        * size - across * size) by (nonlinear_arith);
    assert(-slack < dot - kept < slack) by (nonlinear_arith)
        requires
            -(slack * size) < (dot - kept) * size < slack * size,
            size > 0,
    ;
    assert(-slack < cross - across < slack) by (nonlinear_arith)
        requires
            -(slack * size) < (cross - across) * size < slack * size,
            size > 0,
    ;
}

/// What one body contributes to the kinetic energy along the normal after
/// an impulse, before rounding. `u` is its speed along the normal, `m` its
/// mass and `w` the product of the masses of the other two bodies, `c` its
/// share of the contact, `sep` the separation speed and `load` the contact
/// load.
proof fn lemma_body_after_impulse(m: int, u: int, load: int, c: int, sep: int, w: int)
    ensures
        ({
            let after = u * load - 2 * c * sep * w;
            m * (after * after) == (load * load) * (m * (u * u)) - 4 * ((((m * w) * load) * sep)
                * (c * u)) + 4 * ((((m * w) * sep) * sep) * ((c * c) * w))
        }),
{
    let x = u * load;
    let g = 2 * c * sep * w;
    let after = x - g;
    let all = m * w;
    assert(m * ((x - g) * (x - g)) == m * (x * x) - 2 * ((m * g) * x) + (m * g) * g)
        by (nonlinear_arith);
    assert(m * ((u * load) * (u * load)) == (load * load) * (m * (u * u))) by (nonlinear_arith);
    let cs = c * sep;
    assert(2 * c * sep * w == 2 * ((c * sep) * w)) by (nonlinear_arith);
    assert(m * (2 * (cs * w)) == 2 * (cs * (m * w))) by (nonlinear_arith);
    assert(m * g == 2 * (cs * all));
    let cu = c * u;
    assert((c * sep) * (u * load) == (c * u) * (sep * load)) by (nonlinear_arith);
    let sl = sep * load;
    assert((2 * (cs * all)) * x == 2 * (all * (cs * x))) by (nonlinear_arith);
    assert(all * (cu * sl) == (all * sl) * cu) by (nonlinear_arith);
    assert(all * (sep * load) == (all * load) * sep) by (nonlinear_arith);
    assert((m * g) * x == 2 * ((((m * w) * load) * sep) * (c * u)));
    let cc = c * c;
    let ss = sep * sep;
    assert((c * sep) * ((c * sep) * w) == ((c * c) * w) * (sep * sep)) by (nonlinear_arith);
    let ccw = cc * w;
    assert((2 * (cs * all)) * (2 * (cs * w)) == 4 * (all * (cs * (cs * w))))
        by (nonlinear_arith);
    assert(all * (ccw * ss) == (all * ss) * ccw) by (nonlinear_arith);
    assert(all * (sep * sep) == (all * sep) * sep) by (nonlinear_arith);
    assert((m * g) * g == 4 * ((((m * w) * sep) * sep) * ((c * c) * w)));
}

/// The impulse keeps the kinetic energy along the normal: before rounding,
/// the squares of the three speeds after it, weighted by the masses, add up
/// to those of the speeds before.
///
/// `up`, `ua` and `ub` are the speeds of the point and of the two ends
/// along the normal, `f` and `t` the shares of the ends, `s` the scale.
pub proof fn lemma_impulse_keeps_energy(
    up: int,
    ua: int,
    ub: int,
    mp: int,
    ma: int,
    mb: int,
    f: int,
    t: int,
    s: int,
)
    ensures
        ({
            let load = s * s * (ma * mb) + f * f * (mp * mb) + t * t * (mp * ma);
            let sep = s * up - f * ua - t * ub;
            let after_p = up * load - 2 * s * sep * (ma * mb);
            let after_a = ua * load + 2 * f * sep * (mp * mb);
            let after_b = ub * load + 2 * t * sep * (mp * ma);
            mp * (after_p * after_p) + ma * (after_a * after_a) + mb * (after_b * after_b) == (
            load * load) * (mp * (up * up) + ma * (ua * ua) + mb * (ub * ub))
        }),
{
    let (wp, wa, wb) = (ma * mb, mp * mb, mp * ma);
    let load = s * s * wp + f * f * wa + t * t * wb;
    let sep = s * up - f * ua - t * ub;
    lemma_body_after_impulse(mp, up, load, s, sep, wp);
    lemma_body_after_impulse(ma, ua, load, -f, sep, wa);
    lemma_body_after_impulse(mb, ub, load, -t, sep, wb);
    assert(2 * (-f) * sep * wa == -(2 * f * sep * wa)) by (nonlinear_arith);
    assert(2 * (-t) * sep * wb == -(2 * t * sep * wb)) by (nonlinear_arith);
    assert((-f) * (-f) == f * f && (-f) * ua == -(f * ua)) by (nonlinear_arith);
    assert((-t) * (-t) == t * t && (-t) * ub == -(t * ub)) by (nonlinear_arith);
    let all = mp * wp;
    assert(ma * (mp * mb) == mp * (ma * mb) && mb * (mp * ma) == mp * (ma * mb))
        by (nonlinear_arith);
    let mixed = (all * load) * sep;
    let square = (all * sep) * sep;
    let (xp, xa, xb) = (s * up, -(f * ua), -(t * ub));
    let (yp, ya, yb) = ((s * s) * wp, (f * f) * wa, (t * t) * wb);
    assert(mixed * xp + mixed * xa + mixed * xb == mixed * (xp + xa + xb)) by (nonlinear_arith);
    assert(square * yp + square * ya + square * yb == square * (yp + ya + yb))
        by (nonlinear_arith);
    assert(s * s * wp == (s * s) * wp && f * f * wa == (f * f) * wa && t * t * wb == (t * t)
        * wb);
    assert(((all * load) * sep) * sep == ((all * sep) * sep) * load) by (nonlinear_arith);
    assert(mixed * sep == square * load);
    let before = mp * (up * up) + ma * (ua * ua) + mb * (ub * ub);
    assert((load * load) * (mp * (up * up)) + (load * load) * (ma * (ua * ua)) + (load * load) * (
    mb * (ub * ub)) == (load * load) * before) by (nonlinear_arith)
        requires
            before == mp * (up * up) + ma * (ua * ua) + mb * (ub * ub),
    ;
}

/// A velocity that has taken an impulse along the normal and been damped
/// is no longer than the impulse warrants. `num` over `load` is the speed
/// along the normal after the impulse, before rounding.
proof fn lemma_bounced_length(velocity: Point, normal: Point, num: int, load: int, e: int)
    requires
        norm2(normal) > 0,
        load > 0,
        -SCALE <= e <= SCALE,
    ensures
        ({
            let r = bounced(velocity, normal, div_trunc(num, load), e);
            let across = cross_exact(normal, velocity);
            (norm2(normal) * norm2(r)) * (load * load) <= num * num + (across * across) * (load
                * load)
        }),
{
    let speed = div_trunc(num, load);
    let slow = damped(speed, e);
    let across = cross_exact(normal, velocity);
    let r = bounced(velocity, normal, speed, e);
    lemma_div_trunc_bounds(num, load);
    lemma_div_trunc_bounds(e * speed, SCALE as int);
    lemma_scaled_down(speed, e, slow);
    lemma_smaller_square(slow, speed);
    lemma_recombined_length(normal, slow, across);
    let back = speed * load;
    assert(magnitude(back) == magnitude(speed) * load) by (nonlinear_arith)
        requires
            load > 0,
            back == speed * load,
            magnitude(back) == if back < 0 {
                -back
            } else {
                back
            },
            magnitude(speed) == if speed < 0 {
                -speed
            } else {
                speed
            },
    ;
    lemma_smaller_square(back, num);
    let (reach, whole) = (norm2(normal) * norm2(r), load * load);
    let (s2, q2, d2) = (speed * speed, across * across, slow * slow);
    assert(reach * whole <= (s2 + q2) * whole) by (nonlinear_arith)
        requires
            reach <= d2 + q2,
            d2 <= s2,
            whole >= 0,
            whole == load * load,
    ;
    assert((s2 + q2) * whole == back * back + q2 * whole) by (nonlinear_arith)
        requires
            back == speed * load,
            s2 == speed * speed,
            whole == load * load,
    ;
}

/// The exchange of velocities never adds kinetic energy to the point and
/// the two ends of the edge together, whatever the rounding, for an
/// elasticity of at most one in magnitude and a friction between zero and
/// two.
pub proof fn lemma_exchange_never_gains_energy(
    point: PointMassView,
    a: PointMassView,
    b: PointMassView,
    c: CollisionView,
    config: ConfigView,
)
    requires
        -SCALE <= config.elasticity <= SCALE,
        0 <= config.friction <= 2 * SCALE,
    ensures
        point.mass * norm2(point_velocity_after(point, a, b, c, config)) + a.mass * norm2(
            first_velocity_after(point, a, b, c, config),
        ) + b.mass * norm2(second_velocity_after(point, a, b, c, config)) <= energy(point)
            + energy(a) + energy(b),
{
    if proper_contact(point, a, b, c) {
        let n = c.normal;
        let e = config.elasticity;
        let (mp, ma, mb) = (point.mass, a.mass, b.mass);
        let (up, ua, ub) = (
            dot_exact(n, point.velocity),
            dot_exact(n, a.velocity),
            dot_exact(n, b.velocity),
        );
        let (qp, qa, qb) = (
            cross_exact(n, point.velocity),
            cross_exact(n, a.velocity),
            cross_exact(n, b.velocity),
        );
        let load = contact_load(mp, ma, mb, c.t);
        let sep = separation_speed(point, a, b, c);
        let f = SCALE - c.t;
        assert(load > 0) by (nonlinear_arith)
            requires
                load == 1_000_000 * (ma * mb) + f * f * (mp * mb) + c.t * c.t * (mp * ma),
                mp > 0,
                ma > 0,
                mb > 0,
        ;
        let num_p = up * load - 2000 * sep * (ma * mb);
        let num_a = ua * load + 2 * f * sep * (mp * mb);
        let num_b = ub * load + 2 * c.t * sep * (mp * ma);
        let lifted = bounced(point.velocity, n, div_trunc(num_p, load), e);
        let after_a = first_velocity_after(point, a, b, c, config);
        let after_b = second_velocity_after(point, a, b, c, config);
        lemma_bounced_length(point.velocity, n, num_p, load, e);
        lemma_bounced_length(a.velocity, n, num_a, load, e);
        lemma_bounced_length(b.velocity, n, num_b, load, e);
        lemma_impulse_keeps_energy(up, ua, ub, mp, ma, mb, f, c.t, SCALE as int);
        lemma_lagrange(n, point.velocity);
        lemma_lagrange(n, a.velocity);
        lemma_lagrange(n, b.velocity);
        let size = norm2(n);
        let whole = load * load;
        let (lp, la, lb) = (norm2(lifted), norm2(after_a), norm2(after_b));
        let (vp, va, vb) = (norm2(point.velocity), norm2(a.velocity), norm2(b.velocity));
        let (sp, sa, sb) = (num_p * num_p, num_a * num_a, num_b * num_b);
        let along = mp * (up * up) + ma * (ua * ua) + mb * (ub * ub);
        assert(mp * sp + ma * sa + mb * sb == whole * along);
        lemma_weighted(mp, (size * lp) * whole, sp + (qp * qp) * whole);
        lemma_weighted(ma, (size * la) * whole, sa + (qa * qa) * whole);
        lemma_weighted(mb, (size * lb) * whole, sb + (qb * qb) * whole);
        lemma_body_energy(mp, size, lp, whole, sp, qp * qp);
        lemma_body_energy(ma, size, la, whole, sa, qa * qa);
        lemma_body_energy(mb, size, lb, whole, sb, qb * qb);
        let across = mp * (qp * qp) + ma * (qa * qa) + mb * (qb * qb);
        let now = mp * lp + ma * la + mb * lb;
        let then = mp * vp + ma * va + mb * vb;
        assert((size * whole) * now <= whole * along + whole * across) by (nonlinear_arith)
            requires
                (size * whole) * (mp * lp) <= mp * sp + whole * (mp * (qp * qp)),
                (size * whole) * (ma * la) <= ma * sa + whole * (ma * (qa * qa)),
                (size * whole) * (mb * lb) <= mb * sb + whole * (mb * (qb * qb)),
                mp * sp + ma * sa + mb * sb == whole * along,
                now == mp * lp + ma * la + mb * lb,
                across == mp * (qp * qp) + ma * (qa * qa) + mb * (qb * qb),
        ;
        lemma_body_split(mp, up * up, qp * qp, size, vp);
        lemma_body_split(ma, ua * ua, qa * qa, size, va);
        lemma_body_split(mb, ub * ub, qb * qb, size, vb);
        assert(size * (mp * vp) + size * (ma * va) + size * (mb * vb) == size * then)
            by (nonlinear_arith)
            requires
                then == mp * vp + ma * va + mb * vb,
        ;
        assert(along + across == size * then);
        assert(now <= then) by (nonlinear_arith)
            requires
                (size * whole) * now <= whole * along + whole * across,
                along + across == size * then,
                size > 0,
                whole == load * load,
                load > 0,
        ;
        lemma_rubbed_is_no_longer(lifted, diff(b.position, a.position), config.friction);
        lemma_weighted(mp, norm2(point_velocity_after(point, a, b, c, config)), lp);
    }
}

/// A weight that is not negative keeps an order.
proof fn lemma_weighted(m: int, x: int, y: int)
    requires
        m >= 0,
        x <= y,
    ensures
        m * x <= m * y,
{
    assert(m * x <= m * y) by (nonlinear_arith)
        requires
            m >= 0,
            x <= y,
    ;
}

/// The squares of the two products of a velocity with the normal, weighted
/// by the mass, add up to the energy times the squared length of the
/// normal.
proof fn lemma_body_split(m: int, along: int, across: int, size: int, len: int)
    requires
        across + along == size * len,
    ensures
        m * along + m * across == size * (m * len),
{
    assert(m * along + m * across == size * (m * len)) by (nonlinear_arith)
        requires
            across + along == size * len,
    ;
}

/// The terms of one body in the balance of energies, rearranged.
proof fn lemma_body_energy(m: int, size: int, len: int, whole: int, square: int, across: int)
    ensures
        m * ((size * len) * whole) == (size * whole) * (m * len),
        m * (square + across * whole) == m * square + whole * (m * across),
{
    assert(m * ((size * len) * whole) == (size * whole) * (m * len)) by (nonlinear_arith);
    assert(m * (square + across * whole) == m * square + whole * (m * across))
        by (nonlinear_arith);
}

/// The dot and the cross product of the axis `(ax, ay)` with `v`.
fn products(ax: i128, ay: i128, v: Vec2, reach: i128) -> (r: (i128, i128))
    requires
        0 <= reach <= 2_000_000_000,
        -reach <= ax <= reach,
        -reach <= ay <= reach,
    ensures
        r.0 == dot_exact(Point { x: ax as int, y: ay as int }, v@),
        r.1 == cross_exact(Point { x: ax as int, y: ay as int }, v@),
        -2_000_000_000 * reach <= r.0 <= 2_000_000_000 * reach,
        -2_000_000_000 * reach <= r.1 <= 2_000_000_000 * reach,
{
    let vx: i128 = v.x.raw() as i128;
    let vy: i128 = v.y.raw() as i128;
    proof {
        lemma_product_bound(ax as int, vx as int, reach as int, 1_000_000_000);
        lemma_product_bound(ay as int, vy as int, reach as int, 1_000_000_000);
        lemma_product_bound(ax as int, vy as int, reach as int, 1_000_000_000);
        lemma_product_bound(ay as int, vx as int, reach as int, 1_000_000_000);
    }
    (ax * vx + ay * vy, ax * vy - ay * vx)
}

/// The vector with the given products with the axis `(ax, ay)`.
fn recombine(ax: i128, ay: i128, along: i128, across: i128, reach: i128, span: i128) -> (r: Vec2)
    requires
        0 <= reach <= 2_000_000_000,
        -reach <= ax <= reach,
        -reach <= ay <= reach,
        0 <= span,
        -span <= along <= span,
        span * reach <= 10_000_000_000_000_000_000_000_000_000_000_000_000,
        -4_000_000_000_000_000_000 <= across <= 4_000_000_000_000_000_000,
    ensures
        r@ == recombined(Point { x: ax as int, y: ay as int }, along as int, across as int),
{
    proof {
        lemma_product_bound(along as int, ax as int, span as int, reach as int);
        lemma_product_bound(along as int, ay as int, span as int, reach as int);
        lemma_product_bound(
            across as int,
            ax as int,
            4_000_000_000_000_000_000,
            reach as int,
        );
        lemma_product_bound(
            across as int,
            ay as int,
            4_000_000_000_000_000_000,
            reach as int,
        );
        lemma_product_bound(ax as int, ax as int, reach as int, reach as int);
        lemma_product_bound(ay as int, ay as int, reach as int, reach as int);
        lemma_product_bound(reach as int, reach as int, 2_000_000_000, 2_000_000_000);
    }
    let size: i128 = ax * ax + ay * ay;
    Vec2 {
        x: Fixed::saturate(quot(along * ax - across * ay, size)),
        y: Fixed::saturate(quot(along * ay + across * ax, size)),
    }
}

/// The velocity with the given cross product with the normal `(nx, ny)`
/// whose speed along the normal is `speed` scaled by the elasticity.
fn bounce(nx: i128, ny: i128, across: i128, speed: i128, elasticity: Fixed) -> (r: Vec2)
    requires
        -1000 <= nx <= 1000,
        -1000 <= ny <= 1000,
        -4_000_000_000_000_000_000 <= across <= 4_000_000_000_000_000_000,
        -20_000_000_000_000_000 <= speed <= 20_000_000_000_000_000,
    ensures
        r@ == recombined(
            Point { x: nx as int, y: ny as int },
            damped(speed as int, elasticity@),
            across as int,
        ),
{
    let e: i128 = elasticity.raw() as i128;
    proof {
        lemma_product_bound(e as int, speed as int, 1_000_000_000, 20_000_000_000_000_000);
        lemma_div_trunc_bounds(e * speed, 1000);
    }
    let slow: i128 = quot(e * speed, 1000);
    recombine(nx, ny, slow, across, 1000, 20_000_000_000_000_000_000_000_000)
}

/// The velocity `v` after friction along the edge from `a` to `b`.
fn rub(v: Vec2, a: Vec2, b: Vec2, friction: Fixed) -> (r: Vec2)
    ensures
        r@ == rubbed(v@, diff(b@, a@), friction@),
{
    let ex: i128 = b.x.raw() as i128 - a.x.raw() as i128;
    let ey: i128 = b.y.raw() as i128 - a.y.raw() as i128;
    assert((ex == 0 && ey == 0) <==> ex * ex + ey * ey == 0) by (nonlinear_arith);
    if ex == 0 && ey == 0 {
        return v;
    }
    let (along, across) = products(ex, ey, v, 2_000_000_000);
    let keep: i128 = 1000 - friction.raw() as i128;
    proof {
        lemma_product_bound(
            keep as int,
            along as int,
            1_000_001_000,
            4_000_000_000_000_000_000,
        );
        lemma_div_trunc_bounds(keep * along, 1000);
    }
    let kept: i128 = quot(keep * along, 1000);
    recombine(ex, ey, kept, across, 2_000_000_000, 4_100_000_000_000_000_000_000_000_000)
}

/// Whether the contact `c` of `point` with the edge from `a` to `b` is
/// proper.
pub fn is_proper(point: &PointMass, a: &PointMass, b: &PointMass, c: &Collision) -> (r: bool)
    ensures
        r == proper_contact(point@, a@, b@, c@),
{
    let nx: i128 = c.normal.x.raw() as i128;
    let ny: i128 = c.normal.y.raw() as i128;
    proof {
        lemma_product_bound(nx as int, nx as int, 1_000_000_000, 1_000_000_000);
        lemma_product_bound(ny as int, ny as int, 1_000_000_000, 1_000_000_000);
    }
    let size: i128 = nx * nx + ny * ny;
    point.mass.raw() > 0 && a.mass.raw() > 0 && b.mass.raw() > 0 && c.t.raw() >= 0 && c.t.raw()
        <= 1000 && size > 0 && size <= 1_000_000
}

/// The velocities that the exchange at the contact `c` gives the point and
/// the two ends `a` and `b` of the edge, in this order.
pub fn exchange(point: &PointMass, a: &PointMass, b: &PointMass, c: &Collision, config: &Config)
    -> (r: (Vec2, Vec2, Vec2))
    ensures
        r.0@ == point_velocity_after(point@, a@, b@, c@, config@),
        r.1@ == first_velocity_after(point@, a@, b@, c@, config@),
        r.2@ == second_velocity_after(point@, a@, b@, c@, config@),
{
    if !is_proper(point, a, b, c) {
        return (point.velocity, a.velocity, b.velocity);
    }
    let nx: i128 = c.normal.x.raw() as i128;
    let ny: i128 = c.normal.y.raw() as i128;
    let t: i128 = c.t.raw() as i128;
    let mp: i128 = point.mass.raw() as i128;
    let ma: i128 = a.mass.raw() as i128;
    let mb: i128 = b.mass.raw() as i128;
    assert(-1000 <= nx <= 1000 && -1000 <= ny <= 1000) by (nonlinear_arith)
        requires
            nx * nx + ny * ny <= 1_000_000,
    ;
    let f: i128 = 1000 - t;
    let (up, qp) = products(nx, ny, point.velocity, 1000);
    let (ua, qa) = products(nx, ny, a.velocity, 1000);
    let (ub, qb) = products(nx, ny, b.velocity, 1000);
    proof {
        lemma_product_bound(ma as int, mb as int, 1_000_000_000, 1_000_000_000);
        lemma_product_bound(mp as int, mb as int, 1_000_000_000, 1_000_000_000);
        lemma_product_bound(mp as int, ma as int, 1_000_000_000, 1_000_000_000);
        lemma_product_bound(f as int, f as int, 1000, 1000);
        lemma_product_bound(t as int, t as int, 1000, 1000);
    }
    let wab: i128 = ma * mb;
    let wpb: i128 = mp * mb;
    let wpa: i128 = mp * ma;
    assert(wab >= 1 && wpb >= 1 && wpa >= 1 && f * f >= 0 && t * t >= 0) by (nonlinear_arith)
        requires
            wab == ma * mb,
            wpb == mp * mb,
            wpa == mp * ma,
            mp >= 1,
            ma >= 1,
            mb >= 1,
    ;
    proof {
        lemma_product_bound(f * f, wpb as int, 1_000_000, 1_000_000_000_000_000_000);
        lemma_product_bound(t * t, wpa as int, 1_000_000, 1_000_000_000_000_000_000);
    }
    assert(f * f * wpb >= 0 && t * t * wpa >= 0) by (nonlinear_arith)
        requires
            f * f >= 0,
            t * t >= 0,
            wpb >= 1,
            wpa >= 1,
    ;
    let load: i128 = 1_000_000 * wab + f * f * wpb + t * t * wpa;
    proof {
        lemma_product_bound(f as int, ua as int, 1000, 2_000_000_000_000);
        lemma_product_bound(t as int, ub as int, 1000, 2_000_000_000_000);
    }
    let sep: i128 = 1000 * up - f * ua - t * ub;
    proof {
        let far = 3_000_000_000_000_000_000_000_000;
        let close = 6_000_000_000_000_000;
        let pair = 1_000_000_000_000_000_000;
        lemma_product_bound(up as int, load as int, 2_000_000_000_000, far);
        lemma_product_bound(ua as int, load as int, 2_000_000_000_000, far);
        lemma_product_bound(ub as int, load as int, 2_000_000_000_000, far);
        lemma_product_bound(2000 * sep, wab as int, 2000 * close, pair);
        lemma_product_bound(2 * f, sep as int, 2000, close);
        lemma_product_bound(2 * t, sep as int, 2000, close);
        lemma_product_bound(2 * f * sep, wpb as int, 2000 * close, pair);
        lemma_product_bound(2 * t * sep, wpa as int, 2000 * close, pair);
    }
    proof {
        // each speed after the impulse is bounded by the speeds before
        let close = 6_000_000_000_000_000;
        let most = 12_002_000_000_000_000;
        lemma_product_bound(up as int, load as int, 2_000_000_000_000, load as int);
        lemma_product_bound(ua as int, load as int, 2_000_000_000_000, load as int);
        lemma_product_bound(ub as int, load as int, 2_000_000_000_000, load as int);
        assert((2000 * sep) * wab == sep * (2000 * wab) && ((2 * f) * sep) * wpb == sep * (2 * (f
            * wpb)) && ((2 * t) * sep) * wpa == sep * (2 * (t * wpa))) by (nonlinear_arith);
        assert(0 <= f * wpb <= (f * f) * wpb && 0 <= t * wpa <= (t * t) * wpa)
            by (nonlinear_arith)
            requires
                0 <= f,
                0 <= t,
                wpb >= 1,
                wpa >= 1,
        ;
        lemma_product_bound(sep as int, 2000 * wab, close, load as int);
        lemma_product_bound(sep as int, 2 * (f * wpb), close, 2 * load);
        lemma_product_bound(sep as int, 2 * (t * wpa), close, 2 * load);
        lemma_quotient_bound(up * load - 2000 * sep * wab, load as int, most);
        lemma_quotient_bound(ua * load + 2 * f * sep * wpb, load as int, most);
        lemma_quotient_bound(ub * load + 2 * t * sep * wpa, load as int, most);
    }
    let speed_p: i128 = quot(up * load - 2000 * sep * wab, load);
    let speed_a: i128 = quot(ua * load + 2 * f * sep * wpb, load);
    let speed_b: i128 = quot(ub * load + 2 * t * sep * wpa, load);
    let lifted = bounce(nx, ny, qp, speed_p, config.elasticity);
    (
        rub(lifted, a.position, b.position, config.friction),
        bounce(nx, ny, qa, speed_a, config.elasticity),
        bounce(nx, ny, qb, speed_b, config.elasticity),
    )
}

} // verus!
