//! Collisions between a point and the boundary of a shape: detection by the
//! even-odd rule and the nearest edge, and resolution by positional
//! correction, a normal impulse and friction.
use crate::components::{energy, PointMass, PointMassView};
use crate::config::ConfigView;
use crate::dynamics::{point_views, positions};
use crate::exchange::{
    exchange, first_velocity_after, is_proper, lemma_exchange_never_gains_energy,
    point_velocity_after, proper_contact, second_velocity_after,
};
use crate::fixed::{
    div_trunc, fx_add, fx_div, fx_mul, fx_sub, lemma_div_trunc_bounds, magnitude, quot, Fixed,
    SCALE,
};
use crate::geometry::in_box;
use crate::segment::{
    closest_on_segment, lemma_closest_point, lemma_normal_nearly_unit, lemma_segment_bounds,
    seg_distance, seg_normal, seg_point, seg_t,
};
use crate::shape::{Shape, ShapeView};
use crate::vector::{
    norm2, option_view, orient, orient_exact, v_add, v_distance, v_neg, v_scale, Point, Vec2,
};
use crate::winding::{clockwise, shoelace_of};
use vstd::prelude::*;

verus! {

/// How far, in raw units, the parity ray reaches beyond the bounding box.
pub const EPSILON_RAW: i64 = 1;

/// The mathematical model of a [`Collision`].
pub struct CollisionView {
    pub d: int,
    pub normal: Point,
    pub t: int,
    pub point: Point,
    pub line: (int, int),
}

/// A contact between a point and an edge of a shape.
#[derive(Clone, Copy, Debug)]
pub struct Collision {
    /// Penetration: the distance from the point to the edge.
    pub d: Fixed,
    /// The normal of the edge.
    pub normal: Vec2,
    /// Where along the edge the contact lies: 0 at the first index of
    /// `line`, 1 at the second.
    pub t: Fixed,
    /// The point of the edge nearest to the colliding point.
    pub point: Vec2,
    /// The indices of the two boundary points that form the edge.
    pub line: (usize, usize),
}

impl View for Collision {
    type V = CollisionView;

    open spec fn view(&self) -> CollisionView {
        CollisionView {
            d: self.d@,
            normal: self.normal@,
            t: self.t@,
            point: self.point@,
            line: (self.line.0 as int, self.line.1 as int),
        }
    }
}

/// The model of an optional collision.
pub open spec fn collision_view(c: Option<Collision>) -> Option<CollisionView> {
    match c {
        Some(c) => Some(c@),
        None => None,
    }
}

/// The index of the boundary point before point `i` on a ring of `n`.
pub open spec fn ring_before(n: int, i: int) -> int {
    if i == 0 {
        n - 1
    } else {
        i - 1
    }
}

/// The horizontal ray that leaves `p` toward larger x meets the segment from
/// `a` to `b`: some point of the segment lies at the height of `p`, at or
/// beyond `p`.
///
/// For a segment that is not horizontal this holds when `p` is no higher and
/// no lower than both ends and lies on the side of the segment from which the
/// ray reaches it; for a horizontal one, when it lies at the height of `p`
/// and does not end before `p`.
pub open spec fn ray_meets_segment(p: Point, a: Point, b: Point) -> bool {
    if a.y == b.y {
        a.y == p.y && (a.x >= p.x || b.x >= p.x)
    } else if a.y < b.y {
        a.y <= p.y <= b.y && orient(a, b, p) >= 0
    } else {
        b.y <= p.y <= a.y && orient(a, b, p) <= 0
    }
}

/// Where the ray from `p` meets the line through `a` and `b`, the x
/// coordinate rounded toward `a`; for a horizontal segment, the point of it
/// nearest to `p` on the ray.
pub open spec fn ray_crossing(p: Point, a: Point, b: Point) -> Point {
    if a.y == b.y {
        let left = if a.x <= b.x {
            a.x
        } else {
            b.x
        };
        Point {
            x: if left >= p.x {
                left
            } else {
                p.x
            },
            y: p.y,
        }
    } else {
        Point {
            x: a.x + div_trunc(magnitude(p.y - a.y) * (b.x - a.x), magnitude(b.y - a.y)),
            y: p.y,
        }
    }
}

/// The intersection of the ray from `p` with the segment from `a` to `b`, if
/// they meet.
pub open spec fn intersection(p: Point, a: Point, b: Point) -> Option<Point> {
    if ray_meets_segment(p, a, b) {
        Some(ray_crossing(p, a, b))
    } else {
        None
    }
}

/// Whether the edge from `a` to `b` counts as crossed by the parity ray that
/// runs from `p` to the x coordinate `end_x`.
///
/// An edge with both ends outside the x range of the ray is skipped. An edge
/// with one end outside counts when the ray meets it. An edge with both ends
/// inside counts when `p` is no higher and no lower than both ends.
pub open spec fn ray_hits_edge(p: Point, end_x: int, a: Point, b: Point) -> bool {
    let a_out = a.x < p.x || a.x > end_x;
    let b_out = b.x < p.x || b.x > end_x;
    if a_out && b_out {
        false
    } else if a_out || b_out {
        ray_meets_segment(p, a, b)
    } else {
        (a.y >= p.y && b.y <= p.y) || (a.y <= p.y && b.y >= p.y)
    }
}

/// The number of edges crossed by the parity ray among the first `k` edges
/// of the ring, edge `i` running from the point before `i` to point `i`.
pub open spec fn crossings(ring: Seq<Point>, p: Point, end_x: int, k: int) -> int
    decreases k,
{
    if k <= 0 {
        0
    } else {
        crossings(ring, p, end_x, k - 1) + if ray_hits_edge(
            p,
            end_x,
            ring[ring_before(ring.len() as int, k - 1)],
            ring[k - 1],
        ) {
            1int
        } else {
            0int
        }
    }
}

/// The even-odd rule: `p` is inside the ring when the parity ray crosses an
/// odd number of edges.
pub open spec fn inside(ring: Seq<Point>, p: Point, end_x: int) -> bool {
    crossings(ring, p, end_x, ring.len() as int) % 2 == 1
}

/// The distance from `p` to edge `i` of the ring.
pub open spec fn edge_distance(ring: Seq<Point>, p: Point, i: int) -> int {
    seg_distance(p, ring[i], ring[ring_before(ring.len() as int, i)])
}

/// The first of the nearest edges to `p` among the first `k` edges of the
/// ring.
pub open spec fn nearest_edge(ring: Seq<Point>, p: Point, k: int) -> int
    decreases k,
{
    if k <= 1 {
        0
    } else {
        let best = nearest_edge(ring, p, k - 1);
        if edge_distance(ring, p, k - 1) < edge_distance(ring, p, best) {
            k - 1
        } else {
            best
        }
    }
}

/// The normal of edge `i` of the ring that points away from the inside: the
/// direction of the edge, turned by a quarter turn to the right of the
/// boundary as it runs where the ring runs counter-clockwise, and to its
/// left where the ring runs clockwise.
pub open spec fn outward_normal(ring: Seq<Point>, i: int) -> Point {
    let normal = seg_normal(ring[i], ring[ring_before(ring.len() as int, i)]);
    if clockwise(ring) {
        v_neg(normal)
    } else {
        normal
    }
}

/// The contact of `p` with the nearest edge of the ring.
///
/// The edge is taken from point `i` back to the point before it, so that
/// `t` is 0 at point `i`, the first index of `line`, and 1 at the point
/// before it. The normal points away from the inside of the ring, whichever
/// way the ring runs.
pub open spec fn contact(ring: Seq<Point>, p: Point) -> CollisionView {
    let i = nearest_edge(ring, p, ring.len() as int);
    let j = ring_before(ring.len() as int, i);
    CollisionView {
        d: seg_distance(p, ring[i], ring[j]),
        normal: outward_normal(ring, i),
        t: seg_t(p, ring[i], ring[j]),
        point: seg_point(p, ring[i], ring[j]),
        line: (i, j),
    }
}

/// The x coordinate at which the parity ray for a shape ends: just beyond
/// the bounding box.
pub open spec fn ray_end(s: ShapeView) -> int {
    fx_add(s.bounding_box.1.x, EPSILON_RAW as int)
}

/// The collision of the point `p` with the shape `s`: none when `p` lies
/// outside the bounding box of `s` or, by the even-odd rule, outside its
/// boundary; else the contact with the nearest edge.
pub open spec fn detect(p: Point, s: ShapeView) -> Option<CollisionView> {
    let ring = positions(s.points);
    if !in_box(p, s.bounding_box.0, s.bounding_box.1) {
        None
    } else if !inside(ring, p, ray_end(s)) {
        None
    } else {
        Some(contact(ring, p))
    }
}

/// The nearest edge is a first minimum of the edge distances: no edge is
/// nearer, and every earlier edge is farther.
pub proof fn lemma_nearest_edge(ring: Seq<Point>, p: Point, k: int)
    requires
        1 <= k <= ring.len(),
    ensures
        0 <= nearest_edge(ring, p, k) < k,
        forall|j: int|
            0 <= j < k ==> edge_distance(ring, p, nearest_edge(ring, p, k)) <= #[trigger] edge_distance(
                ring,
                p,
                j,
            ),
        forall|j: int|
            0 <= j < nearest_edge(ring, p, k) ==> edge_distance(ring, p, nearest_edge(ring, p, k))
                < #[trigger] edge_distance(ring, p, j),
    decreases k,
{
    if k > 1 {
        lemma_nearest_edge(ring, p, k - 1);
    }
}

/// The point of the segment `line` nearest to `point`, the distance to it,
/// and the normal of the segment: a unit vector up to rounding, and zero
/// for a segment without length.
///
/// The nearest point is an end of the segment exactly when the projection
/// of `point` falls beyond that end, and the perpendicular foot otherwise.
/// The distance never exceeds the distance to either end.
pub fn closest_point_on_line(point: Vec2, line: (Vec2, Vec2)) -> (r: (Vec2, Fixed, Vec2))
    ensures
        r.0@ == seg_point(point@, line.0@, line.1@),
        r.1@ == seg_distance(point@, line.0@, line.1@),
        r.2@ == seg_normal(line.0@, line.1@),
        r.1@ <= v_distance(point@, line.0@),
        r.1@ <= v_distance(point@, line.1@),
        norm2(r.2@) <= SCALE * SCALE,
        line.0@ != line.1@ ==> norm2(r.2@) > (SCALE - 3) * (SCALE - 3),
{
    proof {
        lemma_closest_point(point@, line.0@, line.1@);
    }
    let (nearest, distance, normal, _) = closest_on_segment(point, line.0, line.1);
    (nearest, distance, normal)
}

/// The point where the horizontal ray that leaves `origin` toward larger x
/// meets the segment `line`, if it does.
pub fn get_intersection_point(origin: Vec2, line: (Vec2, Vec2)) -> (r: Option<Vec2>)
    ensures
        option_view(r) == intersection(origin@, line.0@, line.1@),
{
    let (a, b) = line;
    let py: i128 = origin.y.raw() as i128;
    let ay: i128 = a.y.raw() as i128;
    let by: i128 = b.y.raw() as i128;
    if ay == by {
        if ay == py && (a.x.ge(origin.x) || b.x.ge(origin.x)) {
            let left = a.x.min(b.x);
            return Some(Vec2 { x: left.max(origin.x), y: origin.y });
        }
        return None;
    }
    let side = orient_exact(a, b, origin);
    if ay < by {
        if py < ay || py > by || side < 0 {
            return None;
        }
    } else {
        if py < by || py > ay || side > 0 {
            return None;
        }
    }
    let rise: i128 = if ay < by {
        by - ay
    } else {
        ay - by
    };
    let up: i128 = if py >= ay {
        py - ay
    } else {
        ay - py
    };
    let dx: i128 = b.x.raw() as i128 - a.x.raw() as i128;
    assert(-4_000_000_000_000_000_000 <= up * dx <= 4_000_000_000_000_000_000) by (nonlinear_arith)
        requires
            0 <= up <= 2_000_000_000,
            -2_000_000_000 <= dx <= 2_000_000_000,
    ;
    let q: i128 = quot(up * dx, rise);
    proof {
        lemma_crossing_between(up as int, dx as int, rise as int);
    }
    Some(Vec2 { x: Fixed::saturate(a.x.raw() as i128 + q), y: origin.y })
}

/// The x coordinate of a crossing lies between those of the two ends.
proof fn lemma_crossing_between(up: int, dx: int, rise: int)
    requires
        rise > 0,
        0 <= up <= rise,
    ensures
        ({
            let q = div_trunc(up * dx, rise);
            if dx >= 0 {
                0 <= q <= dx
            } else {
                dx <= q <= 0
            }
        }),
{
    let q = div_trunc(up * dx, rise);
    let size = magnitude(dx);
    lemma_div_trunc_bounds(up * dx, rise);
    assert(magnitude(up * dx) == up * size) by (nonlinear_arith)
        requires
            up >= 0,
            size == if dx < 0 {
                -dx
            } else {
                dx
            },
            magnitude(up * dx) == if up * dx < 0 {
                -(up * dx)
            } else {
                up * dx
            },
    ;
    let mq = magnitude(q);
    assert(mq <= size) by (nonlinear_arith)
        requires
            mq * rise <= up * size,
            0 <= up <= rise,
            rise > 0,
            size >= 0,
            mq >= 0,
    ;
    if dx >= 0 {
        assert(up * dx >= 0) by (nonlinear_arith)
            requires
                up >= 0,
                dx >= 0,
        ;
    } else {
        assert(up * dx <= 0) by (nonlinear_arith)
            requires
                up >= 0,
                dx < 0,
        ;
    }
}

/// Whether the edge from `a` to `b` counts as crossed by the parity ray from
/// `point` to the x coordinate `end_x`.
pub fn ray_hits(point: Vec2, end_x: Fixed, a: Vec2, b: Vec2) -> (r: bool)
    ensures
        r == ray_hits_edge(point@, end_x@, a@, b@),
{
    let a_out = a.x.lt(point.x) || a.x.gt(end_x);
    let b_out = b.x.lt(point.x) || b.x.gt(end_x);
    if a_out && b_out {
        return false;
    }
    if a_out || b_out {
        return get_intersection_point(point, (a, b)).is_some();
    }
    (a.y.ge(point.y) && b.y.le(point.y)) || (a.y.le(point.y) && b.y.ge(point.y))
}

/// Detects whether `point` lies inside `shape` and, if so, which edge of the
/// boundary it is nearest to.
///
/// A point outside the bounding box of the shape is rejected before any edge
/// is looked at.
pub fn point_shape_collision(point: Vec2, shape: &Shape) -> (r: Option<Collision>)
    requires
        shape.valid(),
    ensures
        collision_view(r) == detect(point@, shape@),
        !in_box(point@, shape@.bounding_box.0, shape@.bounding_box.1) ==> r.is_none(),
        r matches Some(c) ==> {
            &&& c.line.0 < shape@.len() && c.line.1 < shape@.len()
            &&& c.line.0 != c.line.1
            &&& 0 <= c.d@
            &&& 0 <= c.t@ <= SCALE
            &&& norm2(c.normal@) <= SCALE * SCALE
            &&& shape@.points[c.line.0 as int].position != shape@.points[c.line.1 as int].position
                ==> norm2(c.normal@) > (SCALE - 3) * (SCALE - 3)
            &&& forall|j: int|
                0 <= j < shape@.len() ==> c.d@ <= #[trigger] edge_distance(
                    positions(shape@.points),
                    point@,
                    j,
                )
        },
{
    let (lo, hi) = shape.bounding_box();
    if point.x.lt(lo.x) || point.y.lt(lo.y) || point.x.gt(hi.x) || point.y.gt(hi.y) {
        return None;
    }
    let np = shape.len();
    let points = shape.points();
    let ghost ring = positions(shape@.points);
    let end_x = hi.x.add(Fixed::from_raw(EPSILON_RAW));
    let mut odd = false;
    let mut before: usize = np - 1;
    let mut i: usize = 0;
    while i < np
        invariant
            i <= np,
            np == points@.len(),
            np >= 3,
            ring == positions(point_views(points@)),
            before == ring_before(np as int, i as int),
            odd == (crossings(ring, point@, end_x@, i as int) % 2 == 1),
        decreases np - i,
    {
        if ray_hits(point, end_x, points[before].position, points[i].position) {
            odd = !odd;
        }
        before = i;
        i += 1;
    }
    if !odd {
        return None;
    }
    let mut best: usize = 0;
    let mut nearest = closest_on_segment(point, points[0].position, points[np - 1].position);
    let mut i: usize = 1;
    while i < np
        invariant
            1 <= i <= np,
            np == points@.len(),
            ring == positions(point_views(points@)),
            best < i,
            best == nearest_edge(ring, point@, i as int),
            nearest.0@ == seg_point(point@, ring[best as int], ring[ring_before(np as int, best as int)]),
            nearest.1@ == edge_distance(ring, point@, best as int),
            nearest.2@ == seg_normal(ring[best as int], ring[ring_before(np as int, best as int)]),
            nearest.3@ == seg_t(point@, ring[best as int], ring[ring_before(np as int, best as int)]),
            0 <= nearest.1@,
            0 <= nearest.3@ <= SCALE,
            norm2(nearest.2@) <= SCALE * SCALE,
        decreases np - i,
    {
        let candidate = closest_on_segment(point, points[i].position, points[i - 1].position);
        if candidate.1.lt(nearest.1) {
            best = i;
            nearest = candidate;
        }
        i += 1;
    }
    proof {
        lemma_nearest_edge(ring, point@, np as int);
        let a = ring[best as int];
        let b = ring[ring_before(np as int, best as int)];
        if a != b {
            lemma_normal_nearly_unit(a, b);
        }
    }
    let other = if best == 0 {
        np - 1
    } else {
        best - 1
    };
    let normal = if shoelace_of(&shape.outline()) < 0 {
        nearest.2.neg()
    } else {
        nearest.2
    };
    assert(norm2(normal@) == norm2(nearest.2@)) by (nonlinear_arith)
        requires
            normal@ == nearest.2@ || (normal@.x == -nearest.2@.x && normal@.y == -nearest.2@.y),
            norm2(normal@) == normal@.x * normal@.x + normal@.y * normal@.y,
            norm2(nearest.2@) == nearest.2@.x * nearest.2@.x + nearest.2@.y * nearest.2@.y,
    ;
    Some(Collision { d: nearest.1, normal, t: nearest.3, point: nearest.0, line: (best, other) })
}

/// The share of a contact that falls to the first end of the edge: `1 - t`.
pub open spec fn first_share(t: int) -> int {
    fx_sub(SCALE as int, t)
}

/// The fraction of the positional correction that the edge takes: the mass
/// of the point over the mass of point and edge together.
pub open spec fn point_fraction(point: int, first: int, second: int) -> int {
    fx_div(point, fx_add(fx_add(first, second), point))
}

/// The position of an end of the edge after the positional correction,
/// `share` being its share of the contact: it is moved in against the
/// normal by the penetration times twice its share of the fraction of the
/// correction that falls to the edge.
pub open spec fn pushed_end(
    end: PointMassView,
    share: int,
    point: PointMassView,
    a: PointMassView,
    b: PointMassView,
    c: CollisionView,
) -> Point {
    let weight = fx_mul(fx_mul(point_fraction(point.mass, a.mass, b.mass), share), 2 * SCALE);
    v_add(end.position, v_scale(v_neg(v_scale(c.normal, c.d)), weight))
}

/// The colliding point after the collision `c` with the edge from `a` to
/// `b` has been resolved.
///
/// It is moved out along the normal by the penetration times the fraction of
/// the correction that falls to it, and takes the velocity that the
/// exchange gives it. A contact that is not proper changes nothing.
pub open spec fn resolved_point(
    point: PointMassView,
    a: PointMassView,
    b: PointMassView,
    c: CollisionView,
    config: ConfigView,
) -> PointMassView {
    if proper_contact(point, a, b, c) {
        let edge_fraction = fx_sub(SCALE as int, point_fraction(point.mass, a.mass, b.mass));
        PointMassView {
            position: v_add(point.position, v_scale(v_scale(c.normal, c.d), edge_fraction)),
            velocity: point_velocity_after(point, a, b, c, config),
            ..point
        }
    } else {
        point
    }
}

/// The first end of the edge after the collision `c` has been resolved: it
/// is moved in by its share `1 - t` of the correction and takes the velocity
/// that the exchange gives it. A contact that is not proper changes nothing.
pub open spec fn resolved_first(
    point: PointMassView,
    a: PointMassView,
    b: PointMassView,
    c: CollisionView,
    config: ConfigView,
) -> PointMassView {
    if proper_contact(point, a, b, c) {
        PointMassView {
            position: pushed_end(a, first_share(c.t), point, a, b, c),
            velocity: first_velocity_after(point, a, b, c, config),
            ..a
        }
    } else {
        a
    }
}

/// The second end of the edge after the collision `c` has been resolved: it
/// is moved in by its share `t` of the correction and takes the velocity
/// that the exchange gives it. A contact that is not proper changes nothing.
pub open spec fn resolved_second(
    point: PointMassView,
    a: PointMassView,
    b: PointMassView,
    c: CollisionView,
    config: ConfigView,
) -> PointMassView {
    if proper_contact(point, a, b, c) {
        PointMassView {
            position: pushed_end(b, c.t, point, a, b, c),
            velocity: second_velocity_after(point, a, b, c, config),
            ..b
        }
    } else {
        b
    }
}

/// A collision with these coefficients cannot add energy: the elasticity is
/// at most one in magnitude, and the friction lies between zero and two, so
/// that what it leaves of a speed is at most the speed. Every elasticity
/// and every friction between zero and one is of this kind.
pub open spec fn lossy(config: ConfigView) -> bool {
    -SCALE <= config.elasticity <= SCALE && 0 <= config.friction <= 2 * SCALE
}

/// Every contact with an edge of two different ends is proper for a point
/// and ends with masses above zero: the resolver pushes the three apart,
/// exchanges the impulse and applies friction, all in one call.
pub proof fn lemma_contacts_are_proper(
    ring: Seq<Point>,
    p: Point,
    point: PointMassView,
    a: PointMassView,
    b: PointMassView,
)
    requires
        ring.len() >= 3,
        ring[contact(ring, p).line.0] != ring[contact(ring, p).line.1],
        point.mass > 0,
        a.mass > 0,
        b.mass > 0,
    ensures
        proper_contact(point, a, b, contact(ring, p)),
{
    let n = ring.len() as int;
    lemma_nearest_edge(ring, p, n);
    let i = nearest_edge(ring, p, n);
    let j = ring_before(n, i);
    lemma_segment_bounds(p, ring[i], ring[j]);
    lemma_normal_nearly_unit(ring[i], ring[j]);
    let normal = seg_normal(ring[i], ring[j]);
    assert((-normal.x) * (-normal.x) + (-normal.y) * (-normal.y) == normal.x * normal.x
        + normal.y * normal.y) by (nonlinear_arith);
}

/// Resolving a collision never adds kinetic energy to the point and the two
/// ends of the edge together, whatever the rounding, for every elasticity
/// and friction between zero and one, and for all other lossy coefficients.
pub proof fn lemma_resolution_never_gains_energy(
    point: PointMassView,
    a: PointMassView,
    b: PointMassView,
    c: CollisionView,
    config: ConfigView,
)
    requires
        lossy(config),
    ensures
        energy(resolved_point(point, a, b, c, config)) + energy(
            resolved_first(point, a, b, c, config),
        ) + energy(resolved_second(point, a, b, c, config)) <= energy(point) + energy(a) + energy(
            b,
        ),
{
    lemma_exchange_never_gains_energy(point, a, b, c, config);
}

/// The kinetic energy of the first `k` points together, doubled.
pub open spec fn total_energy(points: Seq<PointMassView>, k: int) -> int
    decreases k,
{
    if k <= 0 {
        0
    } else {
        total_energy(points, k - 1) + energy(points[k - 1])
    }
}

/// Replacing one point changes the total energy by what that point gains.
pub proof fn lemma_energy_of_update(
    points: Seq<PointMassView>,
    i: int,
    p: PointMassView,
    k: int,
)
    requires
        0 <= i < points.len(),
        0 <= k <= points.len(),
    ensures
        total_energy(points.update(i, p), k) == total_energy(points, k) + if i < k {
            energy(p) - energy(points[i])
        } else {
            0
        },
    decreases k,
{
    if k > 0 {
        lemma_energy_of_update(points, i, p, k - 1);
    }
}

/// Resolving a collision with an edge of two different ends never adds
/// kinetic energy to the point and the whole shape together, for lossy
/// coefficients.
pub proof fn lemma_struck_never_gains_energy(s: ShapeView, point: PointMassView, c: CollisionView)
    requires
        0 <= c.line.0 < s.len(),
        0 <= c.line.1 < s.len(),
        c.line.0 != c.line.1,
        lossy(s.config),
    ensures
        energy(deflected(point, s, c)) + total_energy(struck(s, point, c).points, s.len())
            <= energy(point) + total_energy(s.points, s.len()),
{
    let a = s.points[c.line.0];
    let b = s.points[c.line.1];
    let new_a = resolved_first(point, a, b, c, s.config);
    let new_b = resolved_second(point, a, b, c, s.config);
    let once = s.points.update(c.line.0, new_a);
    lemma_energy_of_update(s.points, c.line.0, new_a, s.len());
    lemma_energy_of_update(once, c.line.1, new_b, s.len());
    lemma_resolution_never_gains_energy(point, a, b, c, s.config);
}

/// The shape after the collision `c` of `point` with one of its edges has
/// been resolved: the two ends of the edge are replaced, the first end first.
pub open spec fn struck(s: ShapeView, point: PointMassView, c: CollisionView) -> ShapeView {
    let a = s.points[c.line.0];
    let b = s.points[c.line.1];
    ShapeView {
        points: s.points.update(c.line.0, resolved_first(point, a, b, c, s.config)).update(
            c.line.1,
            resolved_second(point, a, b, c, s.config),
        ),
        ..s
    }
}

/// The point after its collision `c` with an edge of `s` has been resolved.
pub open spec fn deflected(point: PointMassView, s: ShapeView, c: CollisionView) -> PointMassView {
    resolved_point(point, s.points[c.line.0], s.points[c.line.1], c, s.config)
}

/// Resolves the collision of `point` with the edge of `shape` that
/// `collision` names.
///
/// Point and edge are pushed apart along the normal in proportion to their
/// masses, exchange an impulse along the normal, lose normal speed by the
/// elasticity of the shape's configuration, and the point loses tangential
/// speed by its friction. All of this happens, or, where the contact is not
/// proper, nothing: a contact with an edge without length is of that kind.
///
/// With an elasticity and a friction between zero and one, as with all
/// lossy coefficients, resolving never adds kinetic energy.
pub fn resolve_point_line(point: &mut PointMass, shape: &mut Shape, collision: Collision)
    requires
        old(shape).valid(),
        collision.line.0 < old(shape)@.len(),
        collision.line.1 < old(shape)@.len(),
    ensures
        final(point)@ == deflected(old(point)@, old(shape)@, collision@),
        final(shape)@ == struck(old(shape)@, old(point)@, collision@),
        final(shape).valid(),
        collision.line.0 != collision.line.1 && lossy(old(shape)@.config) ==> energy(
            final(point)@,
        ) + total_energy(final(shape)@.points, final(shape)@.len()) <= energy(old(point)@)
            + total_energy(old(shape)@.points, old(shape)@.len()),
{
    proof {
        if collision.line.0 != collision.line.1 && lossy(old(shape)@.config) {
            lemma_struck_never_gains_energy(old(shape)@, old(point)@, collision@);
        }
    }
    let config = shape.config();
    let a = shape.point(collision.line.0);
    let b = shape.point(collision.line.1);
    if !is_proper(point, &a, &b, &collision) {
        assert(shape@.points.update(collision.line.0 as int, a@).update(
            collision.line.1 as int,
            b@,
        ) =~= shape@.points);
        return ;
    }
    let one = Fixed::one();
    let two = Fixed::from_int(2);
    let first = one.sub(collision.t);
    let second = collision.t;
    let fraction = point.mass.div(a.mass.add(b.mass).add(point.mass));
    let push = collision.normal.scale(collision.d);
    let velocities = exchange(point, &a, &b, &collision, &config);

    point.position = point.position.add(push.scale(one.sub(fraction)));
    point.velocity = velocities.0;
    let mut end_a = a;
    end_a.position = a.position.add(push.neg().scale(fraction.mul(first).mul(two)));
    end_a.velocity = velocities.1;
    let mut end_b = b;
    end_b.position = b.position.add(push.neg().scale(fraction.mul(second).mul(two)));
    end_b.velocity = velocities.2;
    shape.set_point(collision.line.0, end_a);
    shape.set_point(collision.line.1, end_b);
}

/// The points of the first shape and the second shape after the first `k`
/// points of the first have been tested against the second, in order, and
/// every collision found has been resolved before the next point is tested.
pub open spec fn collided(points: Seq<PointMassView>, target: ShapeView, k: int) -> (
    Seq<PointMassView>,
    ShapeView,
)
    decreases k,
{
    if k <= 0 {
        (points, target)
    } else {
        let (before, hit) = collided(points, target, k - 1);
        match detect(before[k - 1].position, hit) {
            Some(c) => (
                before.update(k - 1, deflected(before[k - 1], hit, c)),
                struck(hit, before[k - 1], c),
            ),
            None => (before, hit),
        }
    }
}

/// Collides every boundary point of `shape_a` with `shape_b`: each point
/// that lies inside `shape_b` is resolved against the edge nearest to it.
pub fn shape_shape_collision(shape_a: &mut Shape, shape_b: &mut Shape)
    requires
        old(shape_a).valid(),
        old(shape_b).valid(),
    ensures
        final(shape_a)@ == (ShapeView {
            points: collided(old(shape_a)@.points, old(shape_b)@, old(shape_a)@.len()).0,
            ..old(shape_a)@
        }),
        final(shape_b)@ == collided(old(shape_a)@.points, old(shape_b)@, old(shape_a)@.len()).1,
        final(shape_a).valid(),
        final(shape_b).valid(),
        final(shape_b)@.len() == old(shape_b)@.len(),
        lossy(old(shape_b)@.config) ==> total_energy(
            final(shape_a)@.points,
            final(shape_a)@.len(),
        ) + total_energy(
            final(shape_b)@.points,
            final(shape_b)@.len(),
        ) <= total_energy(old(shape_a)@.points, old(shape_a)@.len()) + total_energy(
            old(shape_b)@.points,
            old(shape_b)@.len(),
        ),
{
    let n = shape_a.len();
    let m = shape_b.len();
    let ghost start = shape_a@;
    let ghost target = shape_b@;
    let mut k: usize = 0;
    while k < n
        invariant
            k <= n,
            n == start.len(),
            m == target.len(),
            shape_a.valid(),
            shape_b.valid(),
            shape_a@ == (ShapeView {
                points: collided(start.points, target, k as int).0,
                ..start
            }),
            shape_a@.len() == n,
            shape_b@.len() == m,
            shape_b@ == collided(start.points, target, k as int).1,
            shape_b@.config == target.config,
            lossy(target.config) ==> total_energy(shape_a@.points, n as int) + total_energy(
                shape_b@.points,
                m as int,
            ) <= total_energy(start.points, n as int) + total_energy(target.points, m as int),
        decreases n - k,
    {
        let mut point = shape_a.point(k);
        if let Some(collision) = point_shape_collision(point.position, shape_b) {
            let ghost before = shape_a@.points;
            resolve_point_line(&mut point, shape_b, collision);
            shape_a.set_point(k, point);
            proof {
                lemma_energy_of_update(before, k as int, point@, n as int);
            }
        }
        k += 1;
    }
}

} // verus!
