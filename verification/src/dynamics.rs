//! The passes that make up one simulation step of a soft body, each over the
//! whole ring of its point masses.
use crate::components::{
    integrate, spring_force, with_force, with_gravity, PointMass, PointMassView, Spring,
    SpringView,
};
use crate::fixed::{div_trunc, fx_mul, lemma_div_trunc_bounds, magnitude, quot, Fixed, RAW_LIMIT, SCALE};
use crate::geometry::points_of;
use crate::vector::{
    cross_exact, diff, dot_exact, v_add, v_div, v_length, v_neg, v_normalize, v_rotate, v_scale,
    Point, Vec2,
};
use vstd::prelude::*;

verus! {

/// The models of a sequence of point masses.
pub open spec fn point_views(points: Seq<PointMass>) -> Seq<PointMassView> {
    Seq::new(points.len(), |i: int| points[i]@)
}

/// The models of a sequence of springs.
pub open spec fn spring_views(springs: Seq<Spring>) -> Seq<SpringView> {
    Seq::new(springs.len(), |i: int| springs[i]@)
}

/// The positions of a sequence of point masses.
pub open spec fn positions(points: Seq<PointMassView>) -> Seq<Point> {
    Seq::new(points.len(), |i: int| points[i].position)
}

/// Every spring joins two of the first `n` points.
pub open spec fn springs_in_bounds(springs: Seq<SpringView>, n: int) -> bool {
    forall|k: int|
        0 <= k < springs.len() ==> 0 <= (#[trigger] springs[k]).a < n && 0 <= springs[k].b < n
}

/// A point after gravity and integration: an unlocked point takes up the
/// weight that the acceleration `gravity * dt` gives it and is then
/// integrated over `dt`; a locked point is returned unchanged.
pub open spec fn advanced(p: PointMassView, gravity: Point, dt: int) -> PointMassView {
    if p.locked {
        p
    } else {
        integrate(with_gravity(p, v_scale(gravity, dt)), dt)
    }
}

/// Every point after gravity and integration.
pub open spec fn advance_all(points: Seq<PointMassView>, gravity: Point, dt: int) -> Seq<
    PointMassView,
> {
    Seq::new(points.len(), |i: int| advanced(points[i], gravity, dt))
}

/// The points after the first `k` springs have acted, in order: each spring
/// adds its force times `dt` to the accumulator of its first end and the
/// opposite to that of its second end. Positions and velocities are not
/// touched: the forces take effect at the next integration.
pub open spec fn sprung(
    points: Seq<PointMassView>,
    springs: Seq<SpringView>,
    dt: int,
    k: int,
) -> Seq<PointMassView>
    decreases k,
{
    if k <= 0 {
        points
    } else {
        let before = sprung(points, springs, dt, k - 1);
        let s = springs[k - 1];
        let force = spring_force(s, before[s.a], before[s.b]);
        let pulled = before.update(s.a, with_force(before[s.a], v_scale(force, dt)));
        pulled.update(s.b, with_force(pulled[s.b], v_scale(v_neg(force), dt)))
    }
}

/// The quadratic drag on a moving point: against its velocity, of size
/// `coefficient * diameter * speed * speed`.
pub open spec fn drag_force(p: PointMassView, coefficient: int) -> Point {
    let speed = v_length(p.velocity);
    v_scale(
        v_neg(v_normalize(p.velocity)),
        fx_mul(fx_mul(fx_mul(coefficient, p.diameter), speed), speed),
    )
}

/// A point after the drag pass: an unlocked point that moves takes up its
/// drag times `dt`; a locked point, or one at rest, is returned unchanged.
pub open spec fn air_dragged(p: PointMassView, coefficient: int, dt: int) -> PointMassView {
    if p.locked || v_length(p.velocity) == 0 {
        p
    } else {
        with_force(p, v_scale(drag_force(p, coefficient), dt))
    }
}

/// Every point after the drag pass.
pub open spec fn drag_all(points: Seq<PointMassView>, coefficient: int, dt: int) -> Seq<
    PointMassView,
> {
    Seq::new(points.len(), |i: int| air_dragged(points[i], coefficient, dt))
}

/// The number of points that a best-fit rotation is taken over: as many as
/// there are both points and rest offsets.
pub open spec fn fit_count(points: Seq<Point>, frame: Seq<Point>) -> int {
    if points.len() <= frame.len() {
        points.len() as int
    } else {
        frame.len() as int
    }
}

/// The sum, over the first `k` points, of the dot product of the point's
/// offset from `center` with its rest offset.
pub open spec fn dot_sum(points: Seq<Point>, center: Point, frame: Seq<Point>, k: int) -> int
    decreases k,
{
    if k <= 0 {
        0
    } else {
        dot_sum(points, center, frame, k - 1) + dot_exact(
            diff(points[k - 1], center),
            frame[k - 1],
        )
    }
}

/// The sum, over the first `k` points, of the cross product of the point's
/// offset from `center` with its rest offset.
pub open spec fn cross_sum(points: Seq<Point>, center: Point, frame: Seq<Point>, k: int) -> int
    decreases k,
{
    if k <= 0 {
        0
    } else {
        cross_sum(points, center, frame, k - 1) + cross_exact(
            diff(points[k - 1], center),
            frame[k - 1],
        )
    }
}

/// The direction of the vector `(a, b)` as a cosine and a sine in fixed
/// point; the direction of the x axis when both are zero.
///
/// Both numbers are first divided by the same divisor, the least that
/// brings the larger of the two into the representable range.
pub open spec fn unit_direction(a: int, b: int) -> Point {
    let larger = if magnitude(a) >= magnitude(b) {
        magnitude(a)
    } else {
        magnitude(b)
    };
    let divisor = larger / (RAW_LIMIT as int) + 1;
    let reduced = Point { x: div_trunc(a, divisor), y: div_trunc(b, divisor) };
    if reduced.x == 0 && reduced.y == 0 {
        Point { x: SCALE as int, y: 0 }
    } else {
        v_normalize(reduced)
    }
}

/// The rotation that best fits the current offsets of the points from
/// `center` to their rest offsets in the least-squares sense, as its cosine
/// and sine. It is the direction of `(sum of dots, -sum of crosses)`, which
/// is the rotation by the angle `-atan2(sum of crosses, sum of dots)`.
pub open spec fn fit_rotation(points: Seq<Point>, center: Point, frame: Seq<Point>) -> Point {
    let k = fit_count(points, frame);
    unit_direction(dot_sum(points, center, frame, k), -cross_sum(points, center, frame, k))
}

/// An anchor moved to the world position of its rest offset: the offset
/// turned by `rotation`, from `center`.
pub open spec fn anchored(
    anchor: PointMassView,
    offset: Point,
    rotation: Point,
    center: Point,
) -> PointMassView {
    PointMassView { position: v_add(v_rotate(offset, rotation), center), ..anchor }
}

/// Every anchor moved to the world position of its rest offset. Anchors
/// without a rest offset stay where they are.
pub open spec fn anchor_all(
    anchors: Seq<PointMassView>,
    frame: Seq<Point>,
    rotation: Point,
    center: Point,
) -> Seq<PointMassView> {
    Seq::new(
        anchors.len(),
        |i: int|
            if i < frame.len() {
                anchored(anchors[i], frame[i], rotation, center)
            } else {
                anchors[i]
            },
    )
}

/// The points after the first `k` frame springs have acted, in order: each
/// pulls its point toward its anchor by adding `force / mass * dt` to the
/// point's velocity at once.
pub open spec fn framed(
    points: Seq<PointMassView>,
    anchors: Seq<PointMassView>,
    springs: Seq<SpringView>,
    dt: int,
    k: int,
) -> Seq<PointMassView>
    decreases k,
{
    if k <= 0 {
        points
    } else {
        let before = framed(points, anchors, springs, dt, k - 1);
        let s = springs[k - 1];
        let p = before[s.a];
        let force = spring_force(s, p, anchors[s.b]);
        before.update(
            s.a,
            PointMassView { velocity: v_add(p.velocity, v_scale(v_div(force, p.mass), dt)), ..p },
        )
    }
}

/// The sprung points are as many as the points.
pub proof fn lemma_sprung_len(points: Seq<PointMassView>, springs: Seq<SpringView>, dt: int, k: int)
    requires
        k <= springs.len(),
        springs_in_bounds(springs, points.len() as int),
    ensures
        sprung(points, springs, dt, k).len() == points.len(),
    decreases k,
{
    if k > 0 {
        lemma_sprung_len(points, springs, dt, k - 1);
    }
}

/// The framed points are as many as the points.
pub proof fn lemma_framed_len(
    points: Seq<PointMassView>,
    anchors: Seq<PointMassView>,
    springs: Seq<SpringView>,
    dt: int,
    k: int,
)
    requires
        k <= springs.len(),
        springs_in_bounds(springs, points.len() as int),
    ensures
        framed(points, anchors, springs, dt, k).len() == points.len(),
    decreases k,
{
    if k > 0 {
        lemma_framed_len(points, anchors, springs, dt, k - 1);
    }
}

/// The current positions of the points, in order.
pub fn outline_of(points: &Vec<PointMass>) -> (r: Vec<Vec2>)
    ensures
        points_of(r@) == positions(point_views(points@)),
{
    let n = points.len();
    let mut outline: Vec<Vec2> = Vec::new();
    let mut i: usize = 0;
    while i < n
        invariant
            i <= n,
            n == points@.len(),
            outline@.len() == i,
            forall|j: int| 0 <= j < i ==> (#[trigger] outline@[j]) == points@[j].position,
        decreases n - i,
    {
        outline.push(points[i].position);
        i += 1;
    }
    assert(points_of(outline@) =~= positions(point_views(points@)));
    outline
}

/// Gravity and integration: every unlocked point takes up the weight of the
/// acceleration `gravity * dt` and is integrated over `dt`.
pub fn advance_points(points: &mut Vec<PointMass>, gravity: Vec2, dt: Fixed)
    ensures
        point_views(final(points)@) == advance_all(point_views(old(points)@), gravity@, dt@),
{
    let n = points.len();
    let ghost start = point_views(points@);
    let accel = gravity.scale(dt);
    let mut i: usize = 0;
    while i < n
        invariant
            i <= n,
            n == points@.len(),
            start.len() == n,
            accel@ == v_scale(gravity@, dt@),
            forall|j: int| 0 <= j < i ==> (#[trigger] points@[j])@ == advanced(start[j], gravity@, dt@),
            forall|j: int| i <= j < n ==> (#[trigger] points@[j])@ == start[j],
        decreases n - i,
    {
        let mut p = points[i];
        if !p.locked {
            p.apply_gravity(accel);
            p.update(dt);
        }
        points[i] = p;
        i += 1;
    }
    assert(point_views(points@) =~= advance_all(start, gravity@, dt@));
}

/// The structural pass: every spring adds its force times `dt` to the
/// accumulators of its two ends, with opposite signs.
pub fn apply_springs(points: &mut Vec<PointMass>, springs: &Vec<Spring>, dt: Fixed)
    requires
        springs_in_bounds(spring_views(springs@), old(points)@.len() as int),
    ensures
        point_views(final(points)@) == sprung(
            point_views(old(points)@),
            spring_views(springs@),
            dt@,
            springs@.len() as int,
        ),
{
    let n = points.len();
    let m = springs.len();
    let ghost start = point_views(points@);
    let ghost all = spring_views(springs@);
    let mut k: usize = 0;
    while k < m
        invariant
            k <= m,
            m == springs@.len(),
            n == points@.len(),
            all == spring_views(springs@),
            springs_in_bounds(all, n as int),
            point_views(points@) == sprung(start, all, dt@, k as int),
        decreases m - k,
    {
        let s = springs[k];
        assert(all[k as int] == s@);
        let ghost before = point_views(points@);
        let force = s.calculate_force(&points[s.a], &points[s.b]);
        let mut pa = points[s.a];
        pa.apply_force(force.scale(dt));
        points[s.a] = pa;
        let mut pb = points[s.b];
        pb.apply_force(force.neg().scale(dt));
        points[s.b] = pb;
        proof {
            let pulled = before.update(s.a as int, with_force(before[s.a as int], v_scale(force@, dt@)));
            assert(point_views(points@) =~= pulled.update(
                s.b as int,
                with_force(pulled[s.b as int], v_scale(v_neg(force@), dt@)),
            ));
        }
        k += 1;
    }
}

/// The drag pass: every unlocked point that moves takes up its quadratic
/// drag times `dt`.
pub fn apply_drag(points: &mut Vec<PointMass>, coefficient: Fixed, dt: Fixed)
    ensures
        point_views(final(points)@) == drag_all(point_views(old(points)@), coefficient@, dt@),
{
    let n = points.len();
    let ghost start = point_views(points@);
    let mut i: usize = 0;
    while i < n
        invariant
            i <= n,
            n == points@.len(),
            start.len() == n,
            forall|j: int|
                0 <= j < i ==> (#[trigger] points@[j])@ == air_dragged(start[j], coefficient@, dt@),
            forall|j: int| i <= j < n ==> (#[trigger] points@[j])@ == start[j],
        decreases n - i,
    {
        let mut p = points[i];
        let speed = p.velocity.length();
        if !p.locked && !speed.is_zero() {
            let size = coefficient.mul(p.diameter).mul(speed).mul(speed);
            let drag = p.velocity.normalize().neg().scale(size);
            p.apply_force(drag.scale(dt));
            points[i] = p;
        }
        i += 1;
    }
    assert(point_views(points@) =~= drag_all(start, coefficient@, dt@));
}

/// The direction of the vector `(a, b)`, as a cosine and a sine.
pub fn direction_of(a: i128, b: i128) -> (r: Vec2)
    requires
        i128::MIN < a,
        i128::MIN < b,
    ensures
        r@ == unit_direction(a as int, b as int),
{
    let size_a: i128 = if a < 0 {
        -a
    } else {
        a
    };
    let size_b: i128 = if b < 0 {
        -b
    } else {
        b
    };
    let larger: i128 = if size_a >= size_b {
        size_a
    } else {
        size_b
    };
    let divisor: i128 = larger / 1_000_000_000 + 1;
    let x: i128 = quot(a, divisor);
    let y: i128 = quot(b, divisor);
    proof {
        lemma_div_trunc_bounds(a as int, divisor as int);
        lemma_div_trunc_bounds(b as int, divisor as int);
        assert(larger < divisor * 1_000_000_000);
        assert(magnitude(x as int) <= 1_000_000_000) by (nonlinear_arith)
            requires
                magnitude(x as int) * divisor <= larger,
                larger < divisor * 1_000_000_000,
                divisor >= 1,
        ;
        assert(magnitude(y as int) <= 1_000_000_000) by (nonlinear_arith)
            requires
                magnitude(y as int) * divisor <= larger,
                larger < divisor * 1_000_000_000,
                divisor >= 1,
        ;
    }
    if x == 0 && y == 0 {
        Vec2 { x: Fixed::one(), y: Fixed::zero() }
    } else {
        let reduced = Vec2 { x: Fixed::saturate(x), y: Fixed::saturate(y) };
        reduced.normalize()
    }
}

/// The rotation that best fits the offsets of `outline` from `center` to the
/// rest offsets `frame`, as its cosine and sine.
pub fn best_fit_rotation(outline: &Vec<Vec2>, center: Vec2, frame: &Vec<Vec2>) -> (r: Vec2)
    ensures
        r@ == fit_rotation(points_of(outline@), center@, points_of(frame@)),
{
    let count = if outline.len() <= frame.len() {
        outline.len()
    } else {
        frame.len()
    };
    let ghost pts = points_of(outline@);
    let ghost rest = points_of(frame@);
    let cx: i128 = center.x.raw() as i128;
    let cy: i128 = center.y.raw() as i128;
    let mut dots: i128 = 0;
    let mut crosses: i128 = 0;
    let mut i: usize = 0;
    while i < count
        invariant
            i <= count,
            count == fit_count(pts, rest),
            pts == points_of(outline@),
            rest == points_of(frame@),
            cx == center@.x,
            cy == center@.y,
            -1_000_000_000 <= cx <= 1_000_000_000,
            -1_000_000_000 <= cy <= 1_000_000_000,
            dots == dot_sum(pts, center@, rest, i as int),
            crosses == cross_sum(pts, center@, rest, i as int),
            -(i as int) * 4_000_000_000_000_000_000 <= dots <= i * 4_000_000_000_000_000_000,
            -(i as int) * 4_000_000_000_000_000_000 <= crosses <= i * 4_000_000_000_000_000_000,
        decreases count - i,
    {
        let rx: i128 = outline[i].x.raw() as i128 - cx;
        let ry: i128 = outline[i].y.raw() as i128 - cy;
        let fx: i128 = frame[i].x.raw() as i128;
        let fy: i128 = frame[i].y.raw() as i128;
        assert(-2_000_000_000_000_000_000 <= rx * fx <= 2_000_000_000_000_000_000)
            by (nonlinear_arith)
            requires
                -2_000_000_000 <= rx <= 2_000_000_000,
                -1_000_000_000 <= fx <= 1_000_000_000,
        ;
        assert(-2_000_000_000_000_000_000 <= ry * fy <= 2_000_000_000_000_000_000)
            by (nonlinear_arith)
            requires
                -2_000_000_000 <= ry <= 2_000_000_000,
                -1_000_000_000 <= fy <= 1_000_000_000,
        ;
        assert(-2_000_000_000_000_000_000 <= rx * fy <= 2_000_000_000_000_000_000)
            by (nonlinear_arith)
            requires
                -2_000_000_000 <= rx <= 2_000_000_000,
                -1_000_000_000 <= fy <= 1_000_000_000,
        ;
        assert(-2_000_000_000_000_000_000 <= ry * fx <= 2_000_000_000_000_000_000)
            by (nonlinear_arith)
            requires
                -2_000_000_000 <= ry <= 2_000_000_000,
                -1_000_000_000 <= fx <= 1_000_000_000,
        ;
        dots = dots + (rx * fx + ry * fy);
        crosses = crosses + (rx * fy - ry * fx);
        i += 1;
    }
    direction_of(dots, -crosses)
}

/// Moves every anchor to the world position of its rest offset: the offset
/// turned by `rotation`, from `center`.
pub fn place_anchors(anchors: &mut Vec<PointMass>, frame: &Vec<Vec2>, rotation: Vec2, center: Vec2)
    ensures
        point_views(final(anchors)@) == anchor_all(
            point_views(old(anchors)@),
            points_of(frame@),
            rotation@,
            center@,
        ),
{
    let n = anchors.len();
    let ghost start = point_views(anchors@);
    let ghost rest = points_of(frame@);
    let mut i: usize = 0;
    while i < n
        invariant
            i <= n,
            n == anchors@.len(),
            start.len() == n,
            rest == points_of(frame@),
            forall|j: int|
                0 <= j < i ==> (#[trigger] anchors@[j])@ == anchor_all(
                    start,
                    rest,
                    rotation@,
                    center@,
                )[j],
            forall|j: int| i <= j < n ==> (#[trigger] anchors@[j])@ == start[j],
        decreases n - i,
    {
        if i < frame.len() {
            let mut anchor = anchors[i];
            anchor.position = frame[i].rotate(rotation).add(center);
            anchors[i] = anchor;
        }
        i += 1;
    }
    assert(point_views(anchors@) =~= anchor_all(start, rest, rotation@, center@));
}

/// The frame pass: every frame spring pulls its point toward its anchor,
/// changing the point's velocity at once.
pub fn apply_frame_springs(
    points: &mut Vec<PointMass>,
    anchors: &Vec<PointMass>,
    springs: &Vec<Spring>,
    dt: Fixed,
)
    requires
        springs_in_bounds(spring_views(springs@), old(points)@.len() as int),
        springs_in_bounds(spring_views(springs@), anchors@.len() as int),
    ensures
        point_views(final(points)@) == framed(
            point_views(old(points)@),
            point_views(anchors@),
            spring_views(springs@),
            dt@,
            springs@.len() as int,
        ),
{
    let n = points.len();
    let m = springs.len();
    let ghost start = point_views(points@);
    let ghost targets = point_views(anchors@);
    let ghost all = spring_views(springs@);
    let mut k: usize = 0;
    while k < m
        invariant
            k <= m,
            m == springs@.len(),
            n == points@.len(),
            all == spring_views(springs@),
            targets == point_views(anchors@),
            springs_in_bounds(all, n as int),
            springs_in_bounds(all, anchors@.len() as int),
            point_views(points@) == framed(start, targets, all, dt@, k as int),
        decreases m - k,
    {
        let s = springs[k];
        assert(all[k as int] == s@);
        let ghost before = point_views(points@);
        let mut p = points[s.a];
        let force = s.calculate_force(&p, &anchors[s.b]);
        p.velocity = p.velocity.add(force.div(p.mass).scale(dt));
        points[s.a] = p;
        proof {
            let was = before[s.a as int];
            assert(point_views(points@) =~= before.update(
                s.a as int,
                PointMassView {
                    velocity: v_add(
                        was.velocity,
                        v_scale(v_div(spring_force(s@, was, targets[s.b as int]), was.mass), dt@),
                    ),
                    ..was
                },
            ));
        }
        k += 1;
    }
}

} // verus!
