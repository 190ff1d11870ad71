//! Which way an outline runs, and its mirror image, which runs the other
//! way.
use crate::geometry::{
    fan_area2, lemma_fan_is_shoelace, lemma_four_points, points_of, shoelace2, shoelace_prefix,
    strictly_convex,
};
use crate::vector::{cross_exact, orient, Point, Vec2};
use vstd::prelude::*;

verus! {

/// The mirror image of a point in the x axis.
pub open spec fn mirror(p: Point) -> Point {
    Point { x: p.x, y: -p.y }
}

/// The mirror image of an outline in the x axis.
pub open spec fn mirrored(points: Seq<Point>) -> Seq<Point> {
    Seq::new(points.len(), |i: int| mirror(points[i]))
}

/// The outline runs clockwise in a frame whose y axis points up: its
/// shoelace area is negative.
pub open spec fn clockwise(points: Seq<Point>) -> bool {
    shoelace2(points) < 0
}

/// The outline itself where it runs counter-clockwise, and its mirror image
/// where it runs clockwise: either way an outline that runs
/// counter-clockwise, with the same vertices inside the same triangles.
pub open spec fn upright(points: Seq<Point>) -> Seq<Point> {
    if clockwise(points) {
        mirrored(points)
    } else {
        points
    }
}

/// Mirroring turns every triangle the other way and keeps its area.
pub proof fn lemma_mirror_orient(a: Point, b: Point, c: Point)
    ensures
        orient(mirror(a), mirror(b), mirror(c)) == -orient(a, b, c),
{
    let (ux, uy) = (b.x - a.x, b.y - a.y);
    let (wx, wy) = (c.x - a.x, c.y - a.y);
    assert(orient(a, b, c) == ux * wy - uy * wx);
    assert(orient(mirror(a), mirror(b), mirror(c)) == ux * (0 - wy) - (0 - uy) * wx);
    assert(ux * (0 - wy) - (0 - uy) * wx == -(ux * wy - uy * wx)) by (nonlinear_arith);
}

/// Twice the signed area of the triangle of the vertices `i`, `j` and `k`.
pub open spec fn turn(points: Seq<Point>, i: int, j: int, k: int) -> int {
    orient(points[i], points[j], points[k])
}

/// A polygon is convex and counter-clockwise: no three of its vertices,
/// taken in boundary order, turn clockwise. Vertices may lie in line.
pub open spec fn convex(points: Seq<Point>) -> bool {
    forall|i: int, j: int, k: int|
        0 <= i < j < k < points.len() ==> #[trigger] turn(points, i, j, k) >= 0
}

/// A polygon is convex and clockwise: no three of its vertices, taken in
/// boundary order, turn counter-clockwise. Vertices may lie in line.
pub open spec fn convex_clockwise(points: Seq<Point>) -> bool {
    forall|i: int, j: int, k: int|
        0 <= i < j < k < points.len() ==> #[trigger] turn(points, i, j, k) <= 0
}

/// The mirror image of a convex clockwise polygon is convex and
/// counter-clockwise.
pub proof fn lemma_mirror_of_convex(points: Seq<Point>)
    requires
        convex_clockwise(points),
    ensures
        convex(mirrored(points)),
{
    let image = mirrored(points);
    assert forall|i: int, j: int, k: int| 0 <= i < j < k < image.len() implies #[trigger] turn(
        image,
        i,
        j,
        k,
    ) >= 0 by {
        assert(turn(points, i, j, k) <= 0);
        lemma_mirror_orient(points[i], points[j], points[k]);
    }
}

/// The fan of a convex clockwise polygon has no positive area.
proof fn lemma_fan_not_positive(points: Seq<Point>, k: int)
    requires
        convex_clockwise(points),
        0 <= k <= points.len() - 2,
    ensures
        fan_area2(points, k) <= 0,
    decreases k,
{
    if k > 0 {
        lemma_fan_not_positive(points, k - 1);
        assert(turn(points, 0, k, k + 1) <= 0);
    }
}

/// Where the fan of a convex clockwise polygon has no area, none of its
/// triangles has.
proof fn lemma_flat_fan(points: Seq<Point>, k: int, j: int)
    requires
        convex_clockwise(points),
        1 <= j <= k <= points.len() - 2,
        fan_area2(points, k) >= 0,
    ensures
        turn(points, 0, j, j + 1) == 0,
    decreases k,
{
    assert(turn(points, 0, k, k + 1) <= 0);
    lemma_fan_not_positive(points, k - 1);
    if j < k {
        lemma_flat_fan(points, k - 1, j);
    }
}

/// In a convex clockwise polygon without area, the triangle of vertex 0 and
/// any two later vertices has no area.
proof fn lemma_flat_span(points: Seq<Point>, j: int, k: int)
    requires
        points.len() >= 3,
        convex_clockwise(points),
        shoelace2(points) == 0,
        1 <= j < k < points.len(),
    ensures
        turn(points, 0, j, k) == 0,
    decreases k - j,
{
    let n = points.len() as int;
    lemma_fan_is_shoelace(points);
    lemma_flat_fan(points, n - 2, k - 1);
    if k > j + 1 {
        lemma_flat_span(points, j, k - 1);
        lemma_four_points(points[0], points[j], points[k - 1], points[k]);
        assert(turn(points, 0, j, k) <= 0);
        assert(turn(points, j, k - 1, k) <= 0);
    }
}

/// A convex clockwise polygon without area has all its vertices in line, so
/// that it is convex counter-clockwise too.
pub proof fn lemma_flat_is_convex(points: Seq<Point>)
    requires
        points.len() >= 3,
        convex_clockwise(points),
        shoelace2(points) == 0,
    ensures
        convex(points),
{
    assert forall|i: int, j: int, k: int| 0 <= i < j < k < points.len() implies #[trigger] turn(
        points,
        i,
        j,
        k,
    ) >= 0 by {
        lemma_flat_span(points, j, k);
        if i > 0 {
            lemma_flat_span(points, i, j);
            lemma_flat_span(points, i, k);
            lemma_four_points(points[0], points[i], points[j], points[k]);
        }
    }
}

/// A polygon is strictly convex and clockwise when every three of its
/// vertices, taken in boundary order, turn strictly clockwise.
pub open spec fn strictly_convex_clockwise(points: Seq<Point>) -> bool {
    forall|i: int, j: int, k: int|
        0 <= i < j < k < points.len() ==> orient(
            #[trigger] points[i],
            #[trigger] points[j],
            #[trigger] points[k],
        ) < 0
}

/// The mirror image of a strictly convex clockwise polygon is strictly
/// convex and counter-clockwise.
pub proof fn lemma_mirror_convex(points: Seq<Point>)
    requires
        strictly_convex_clockwise(points),
    ensures
        strictly_convex(mirrored(points)),
{
    let image = mirrored(points);
    assert forall|i: int, j: int, k: int| 0 <= i < j < k < image.len() implies orient(
        #[trigger] image[i],
        #[trigger] image[j],
        #[trigger] image[k],
    ) > 0 by {
        assert(orient(points[i], points[j], points[k]) < 0);
        lemma_mirror_orient(points[i], points[j], points[k]);
    }
}

/// Mirroring negates the shoelace sum of every prefix of the boundary.
pub proof fn lemma_mirror_shoelace_prefix(points: Seq<Point>, k: int)
    requires
        0 <= k <= points.len(),
    ensures
        shoelace_prefix(mirrored(points), k) == -shoelace_prefix(points, k),
    decreases k,
{
    if k > 0 {
        lemma_mirror_shoelace_prefix(points, k - 1);
        let a = points[k - 1];
        let b = if k == points.len() {
            points[0]
        } else {
            points[k]
        };
        assert(cross_exact(mirror(a), mirror(b)) == -cross_exact(a, b)) by (nonlinear_arith)
            requires
                cross_exact(mirror(a), mirror(b)) == a.x * (0 - b.y) - (0 - a.y) * b.x,
                cross_exact(a, b) == a.x * b.y - a.y * b.x,
        ;
    }
}

/// Mirroring negates the shoelace area: the mirror image runs the other
/// way.
pub proof fn lemma_mirror_shoelace(points: Seq<Point>)
    ensures
        shoelace2(mirrored(points)) == -shoelace2(points),
{
    lemma_mirror_shoelace_prefix(points, points.len() as int);
}

/// Twice the signed area of the outline `shape`, by the shoelace formula.
pub fn shoelace_of(shape: &Vec<Vec2>) -> (r: i128)
    ensures
        r == shoelace2(points_of(shape@)),
{
    let n = shape.len();
    let ghost points = points_of(shape@);
    let mut sum: i128 = 0;
    let mut i: usize = 0;
    while i < n
        invariant
            i <= n,
            n == shape@.len(),
            points == points_of(shape@),
            sum == shoelace_prefix(points, i as int),
            -(i as int) * 2_000_000_000_000_000_000 <= sum <= i * 2_000_000_000_000_000_000,
        decreases n - i,
    {
        let a = shape[i];
        let b = if i + 1 == n {
            shape[0]
        } else {
            shape[i + 1]
        };
        let ax: i128 = a.x.raw() as i128;
        let ay: i128 = a.y.raw() as i128;
        let bx: i128 = b.x.raw() as i128;
        let by: i128 = b.y.raw() as i128;
        assert(-1_000_000_000_000_000_000 <= ax * by <= 1_000_000_000_000_000_000)
            by (nonlinear_arith)
            requires
                -1_000_000_000 <= ax <= 1_000_000_000,
                -1_000_000_000 <= by <= 1_000_000_000,
        ;
        assert(-1_000_000_000_000_000_000 <= ay * bx <= 1_000_000_000_000_000_000)
            by (nonlinear_arith)
            requires
                -1_000_000_000 <= ay <= 1_000_000_000,
                -1_000_000_000 <= bx <= 1_000_000_000,
        ;
        sum = sum + (ax * by - ay * bx);
        i += 1;
    }
    sum
}

/// The mirror image of the outline `shape` in the x axis.
pub fn mirror_of(shape: &Vec<Vec2>) -> (r: Vec<Vec2>)
    ensures
        points_of(r@) == mirrored(points_of(shape@)),
{
    let n = shape.len();
    let mut image: Vec<Vec2> = Vec::new();
    let mut i: usize = 0;
    while i < n
        invariant
            i <= n,
            n == shape@.len(),
            image@.len() == i,
            forall|j: int| 0 <= j < i ==> (#[trigger] image@[j])@ == mirror(shape@[j]@),
        decreases n - i,
    {
        image.push(Vec2 { x: shape[i].x, y: shape[i].y.neg() });
        i += 1;
    }
    assert(points_of(image@) =~= mirrored(points_of(shape@)));
    image
}

} // verus!
