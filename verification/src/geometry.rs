//! Exact plane geometry on integer points: bounding boxes, orientation,
//! convexity and the shoelace area.
use crate::fixed::{clamp, div_trunc, quot, Fixed};
use crate::vector::{cross_exact, lemma_orient_expanded, orient, v_max, v_min, Point, Vec2};
use vstd::prelude::*;

verus! {

/// The points that a sequence of vectors stands for.
pub open spec fn points_of(vs: Seq<Vec2>) -> Seq<Point> {
    Seq::new(vs.len(), |i: int| vs[i]@)
}

/// The component-wise minimum of a sequence of points, folded from the
/// front; the origin for the empty sequence.
pub open spec fn bounds_min(points: Seq<Point>) -> Point
    decreases points.len(),
{
    if points.len() == 0 {
        Point { x: 0, y: 0 }
    } else if points.len() == 1 {
        points[0]
    } else {
        v_min(bounds_min(points.drop_last()), points.last())
    }
}

/// The component-wise maximum of a sequence of points, folded from the
/// front; the origin for the empty sequence.
pub open spec fn bounds_max(points: Seq<Point>) -> Point
    decreases points.len(),
{
    if points.len() == 0 {
        Point { x: 0, y: 0 }
    } else if points.len() == 1 {
        points[0]
    } else {
        v_max(bounds_max(points.drop_last()), points.last())
    }
}

/// `lo` and `hi` are the corners of the smallest axis-aligned box that
/// holds every point: no point lies outside, and each of the four sides
/// touches a point.
pub open spec fn is_bounding_box(points: Seq<Point>, lo: Point, hi: Point) -> bool {
    &&& forall|i: int|
        0 <= i < points.len() ==> lo.x <= (#[trigger] points[i]).x <= hi.x && lo.y <= points[i].y
            <= hi.y
    &&& exists|i: int| 0 <= i < points.len() && (#[trigger] points[i]).x == lo.x
    &&& exists|i: int| 0 <= i < points.len() && (#[trigger] points[i]).y == lo.y
    &&& exists|i: int| 0 <= i < points.len() && (#[trigger] points[i]).x == hi.x
    &&& exists|i: int| 0 <= i < points.len() && (#[trigger] points[i]).y == hi.y
}

/// True when `p` lies in the closed box with corners `lo` and `hi`.
pub open spec fn in_box(p: Point, lo: Point, hi: Point) -> bool {
    lo.x <= p.x <= hi.x && lo.y <= p.y <= hi.y
}

/// The folded minimum and maximum of a non-empty sequence are the corners of
/// its bounding box.
pub proof fn lemma_bounds_are_bounding_box(points: Seq<Point>)
    requires
        points.len() >= 1,
    ensures
        is_bounding_box(points, bounds_min(points), bounds_max(points)),
    decreases points.len(),
{
    let lo = bounds_min(points);
    let hi = bounds_max(points);
    if points.len() == 1 {
        assert(points[0].x == lo.x && points[0].y == lo.y);
        assert(points[0].x == hi.x && points[0].y == hi.y);
    } else {
        let front = points.drop_last();
        let last = points.len() - 1;
        lemma_bounds_are_bounding_box(front);
        let flo = bounds_min(front);
        let fhi = bounds_max(front);
        assert forall|i: int| 0 <= i < points.len() implies lo.x <= (#[trigger] points[i]).x
            <= hi.x && lo.y <= points[i].y <= hi.y by {
            if i < last {
                assert(front[i] == points[i]);
            }
        }
        let ix = choose|i: int| 0 <= i < front.len() && (#[trigger] front[i]).x == flo.x;
        let iy = choose|i: int| 0 <= i < front.len() && (#[trigger] front[i]).y == flo.y;
        let jx = choose|i: int| 0 <= i < front.len() && (#[trigger] front[i]).x == fhi.x;
        let jy = choose|i: int| 0 <= i < front.len() && (#[trigger] front[i]).y == fhi.y;
        assert(front[ix] == points[ix] && front[iy] == points[iy]);
        assert(front[jx] == points[jx] && front[jy] == points[jy]);
        assert(points[ix].x == lo.x || points[last].x == lo.x);
        assert(points[iy].y == lo.y || points[last].y == lo.y);
        assert(points[jx].x == hi.x || points[last].x == hi.x);
        assert(points[jy].y == hi.y || points[last].y == hi.y);
    }
}

/// The products of the coordinates of three points do not depend on the
/// order of their factors.
proof fn lemma_products_commute(a: Point, b: Point, c: Point)
    ensures
        a.x * b.y == b.y * a.x,
        a.x * c.y == c.y * a.x,
        b.x * a.y == a.y * b.x,
        b.x * c.y == c.y * b.x,
        c.x * a.y == a.y * c.x,
        c.x * b.y == b.y * c.x,
{
    assert(a.x * b.y == b.y * a.x) by (nonlinear_arith);
    assert(a.x * c.y == c.y * a.x) by (nonlinear_arith);
    assert(b.x * a.y == a.y * b.x) by (nonlinear_arith);
    assert(b.x * c.y == c.y * b.x) by (nonlinear_arith);
    assert(c.x * a.y == a.y * c.x) by (nonlinear_arith);
    assert(c.x * b.y == b.y * c.x) by (nonlinear_arith);
}

/// Swapping the last two corners of a triangle negates its orientation.
pub proof fn lemma_orient_swap(a: Point, b: Point, c: Point)
    ensures
        orient(a, c, b) == -orient(a, b, c),
{
    lemma_orient_expanded(a, b, c);
    lemma_orient_expanded(a, c, b);
    lemma_products_commute(a, b, c);
}

/// Rotating the corners of a triangle keeps its orientation.
pub proof fn lemma_orient_cycle(a: Point, b: Point, c: Point)
    ensures
        orient(b, c, a) == orient(a, b, c),
        orient(c, a, b) == orient(a, b, c),
{
    lemma_orient_expanded(a, b, c);
    lemma_orient_expanded(b, c, a);
    lemma_orient_expanded(c, a, b);
    lemma_products_commute(a, b, c);
}

/// The orientation of a triangle, from the cross products of its corners
/// taken as position vectors.
pub proof fn lemma_orient_as_crosses(a: Point, b: Point, c: Point)
    ensures
        orient(a, b, c) == cross_exact(a, b) + cross_exact(b, c) + cross_exact(c, a),
{
    lemma_orient_expanded(a, b, c);
    lemma_products_commute(a, b, c);
}

/// Two triangles that share a side, seen from a corner `o` of the
/// quadrilateral they form, cover what the two triangles on the other
/// diagonal cover.
pub proof fn lemma_four_points(o: Point, a: Point, b: Point, c: Point)
    ensures
        orient(o, a, b) + orient(o, b, c) == orient(o, a, c) + orient(a, b, c),
{
    lemma_orient_as_crosses(o, a, b);
    lemma_orient_as_crosses(o, b, c);
    lemma_orient_as_crosses(o, a, c);
    lemma_orient_as_crosses(a, b, c);
    // the cross product changes its sign with the order of its factors
    assert(o.x * b.y == b.y * o.x && o.y * b.x == b.x * o.y && o.x * a.y == a.y * o.x && o.y
        * a.x == a.x * o.y && o.x * c.y == c.y * o.x && o.y * c.x == c.x * o.y && a.x * c.y == c.y
        * a.x && a.y * c.x == c.x * a.y) by (nonlinear_arith);
}

/// True when `p` lies strictly inside the triangle `a`, `b`, `c`, whose
/// corners are given counter-clockwise: `p` is strictly on the left of each
/// side. A point on a side or at a corner is not inside, and nothing is
/// inside a triangle without area.
pub open spec fn in_triangle(p: Point, a: Point, b: Point, c: Point) -> bool {
    orient(a, b, p) > 0 && orient(b, c, p) > 0 && orient(c, a, p) > 0
}

/// A polygon is strictly convex and counter-clockwise when every three of
/// its vertices, taken in boundary order, turn strictly counter-clockwise.
pub open spec fn strictly_convex(points: Seq<Point>) -> bool {
    forall|i: int, j: int, k: int|
        0 <= i < j < k < points.len() ==> orient(
            #[trigger] points[i],
            #[trigger] points[j],
            #[trigger] points[k],
        ) > 0
}

/// The sum of the cross products of the first `k` boundary edges, the last
/// vertex being followed by the first.
pub open spec fn shoelace_prefix(points: Seq<Point>, k: int) -> int
    decreases k,
{
    if k <= 0 {
        0
    } else {
        shoelace_prefix(points, k - 1) + cross_exact(
            points[k - 1],
            if k == points.len() {
                points[0]
            } else {
                points[k]
            },
        )
    }
}

/// Twice the signed area of a polygon by the shoelace formula, in squared
/// raw units: positive for a counter-clockwise boundary.
pub open spec fn shoelace2(points: Seq<Point>) -> int {
    shoelace_prefix(points, points.len() as int)
}

/// The doubled areas of the first `k` triangles of the fan around vertex 0:
/// the triangles `0, j, j + 1` for `j` from 1 to `k`.
pub open spec fn fan_area2(points: Seq<Point>, k: int) -> int
    decreases k,
{
    if k <= 0 {
        0
    } else {
        fan_area2(points, k - 1) + orient(points[0], points[k], points[k + 1])
    }
}

/// The fan around vertex 0 covers what the boundary walk has enclosed: the
/// first `k` fan triangles add up to the shoelace sum of the first `k + 1`
/// edges, closed by the edge back to vertex 0.
pub proof fn lemma_fan_is_shoelace_prefix(points: Seq<Point>, k: int)
    requires
        0 <= k,
        k + 1 < points.len(),
    ensures
        fan_area2(points, k) == shoelace_prefix(points, k + 1) + cross_exact(
            points[k + 1],
            points[0],
        ),
    decreases k,
{
    let p0 = points[0];
    if k == 0 {
        assert(shoelace_prefix(points, 1) == shoelace_prefix(points, 0) + cross_exact(
            points[0],
            points[1],
        ));
        assert(cross_exact(p0, points[1]) + cross_exact(points[1], p0) == 0) by (nonlinear_arith)
            requires
                cross_exact(p0, points[1]) == p0.x * points[1].y - p0.y * points[1].x,
                cross_exact(points[1], p0) == points[1].x * p0.y - points[1].y * p0.x,
        ;
    } else {
        lemma_fan_is_shoelace_prefix(points, k - 1);
        let a = points[k];
        let b = points[k + 1];
        lemma_orient_as_crosses(p0, a, b);
        assert(cross_exact(p0, a) + cross_exact(a, p0) == 0) by (nonlinear_arith)
            requires
                cross_exact(p0, a) == p0.x * a.y - p0.y * a.x,
                cross_exact(a, p0) == a.x * p0.y - a.y * p0.x,
        ;
        assert(shoelace_prefix(points, k + 1) == shoelace_prefix(points, k) + cross_exact(a, b));
    }
}

/// The fan around vertex 0 has the area of the polygon.
pub proof fn lemma_fan_is_shoelace(points: Seq<Point>)
    requires
        points.len() >= 3,
    ensures
        fan_area2(points, points.len() - 2) == shoelace2(points),
{
    let n = points.len() as int;
    lemma_fan_is_shoelace_prefix(points, n - 2);
    assert(shoelace_prefix(points, n) == shoelace_prefix(points, n - 1) + cross_exact(
        points[n - 1],
        points[0],
    ));
}

/// The smallest box around the vectors of `vs`, as its two corners.
pub fn bounding_box_of(vs: &Vec<Vec2>) -> (r: (Vec2, Vec2))
    ensures
        r.0@ == bounds_min(points_of(vs@)),
        r.1@ == bounds_max(points_of(vs@)),
{
    let n = vs.len();
    if n == 0 {
        return (Vec2::zero(), Vec2::zero());
    }
    let mut lo = vs[0];
    let mut hi = vs[0];
    let ghost pts = points_of(vs@);
    assert(pts.take(1).len() == 1 && pts.take(1)[0] == pts[0]);
    let mut i: usize = 1;
    while i < n
        invariant
            1 <= i <= n,
            n == vs@.len(),
            pts == points_of(vs@),
            lo@ == bounds_min(pts.take(i as int)),
            hi@ == bounds_max(pts.take(i as int)),
        decreases n - i,
    {
        proof {
            let next = pts.take(i + 1);
            assert(next.drop_last() =~= pts.take(i as int));
            assert(next.last() == vs@[i as int]@);
        }
        lo = lo.min(vs[i]);
        hi = hi.max(vs[i]);
        i += 1;
    }
    assert(pts.take(n as int) =~= pts);
    (lo, hi)
}

/// The sum of the x coordinates of the first `k` points.
pub open spec fn sum_x(points: Seq<Point>, k: int) -> int
    decreases k,
{
    if k <= 0 {
        0
    } else {
        sum_x(points, k - 1) + points[k - 1].x
    }
}

/// The sum of the y coordinates of the first `k` points.
pub open spec fn sum_y(points: Seq<Point>, k: int) -> int
    decreases k,
{
    if k <= 0 {
        0
    } else {
        sum_y(points, k - 1) + points[k - 1].y
    }
}

/// The mean of a sequence of points, each coordinate rounded toward zero;
/// the origin for the empty sequence.
pub open spec fn centroid(points: Seq<Point>) -> Point {
    Point {
        x: clamp(div_trunc(sum_x(points, points.len() as int), points.len() as int)),
        y: clamp(div_trunc(sum_y(points, points.len() as int), points.len() as int)),
    }
}

/// The mean of the vectors of `vs`.
pub fn centroid_of(vs: &Vec<Vec2>) -> (r: Vec2)
    ensures
        r@ == centroid(points_of(vs@)),
{
    let n = vs.len();
    let ghost pts = points_of(vs@);
    let mut total_x: i128 = 0;
    let mut total_y: i128 = 0;
    let mut i: usize = 0;
    while i < n
        invariant
            i <= n,
            n == vs@.len(),
            pts == points_of(vs@),
            total_x == sum_x(pts, i as int),
            total_y == sum_y(pts, i as int),
            -(i as int) * 1_000_000_000 <= total_x <= i * 1_000_000_000,
            -(i as int) * 1_000_000_000 <= total_y <= i * 1_000_000_000,
        decreases n - i,
    {
        total_x = total_x + vs[i].x.raw() as i128;
        total_y = total_y + vs[i].y.raw() as i128;
        i += 1;
    }
    Vec2 {
        x: Fixed::saturate(quot(total_x, n as i128)),
        y: Fixed::saturate(quot(total_y, n as i128)),
    }
}

} // verus!
